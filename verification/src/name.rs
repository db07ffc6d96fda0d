//! File names: their extensions, and their order.
//!
//! The extension of a name is what follows its last dot. A name without a dot
//! has no extension, and is its own base name. Names are ordered as strings
//! are: character by character, by the numbers of the characters.

use vstd::prelude::*;
use vstd::std_specs::iter::IteratorSpec;
use vstd::string::StrSliceExecFns;

verus! {

/// The base name: `name` up to its last dot, or all of it where it has none.
pub open spec fn strip_extension(name: Seq<char>) -> Seq<char> {
    match name.index_of_last('.') {
        Some(dot) => name.take(dot),
        None => name,
    }
}

/// The extension: what follows the last dot of `name`, or nothing where it
/// has none.
pub open spec fn extension_of(name: Seq<char>) -> Seq<char> {
    match name.index_of_last('.') {
        Some(dot) => name.skip(dot + 1),
        None => Seq::empty(),
    }
}

/// Whether `a` is `b` or comes before it in the order of strings: the two are
/// ordered by the first character in which they differ, and a string comes
/// before every longer one that begins with it.
pub open spec fn name_le(a: Seq<char>, b: Seq<char>) -> bool
    decreases a.len(),
{
    if a.len() == 0 {
        true
    } else if b.len() == 0 {
        false
    } else if a[0] == b[0] {
        name_le(a.drop_first(), b.drop_first())
    } else {
        (a[0] as u32) < (b[0] as u32)
    }
}

/// Whether `dot` is the place of the last dot among the first `upto`
/// characters of `name`, `None` standing for a prefix without a dot.
spec fn last_dot_within(name: Seq<char>, upto: int, dot: Option<usize>) -> bool {
    match dot {
        Some(d) => {
            &&& d < upto
            &&& name[d as int] == '.'
            &&& forall|j: int| d < j < upto ==> name[j] != '.'
        },
        None => forall|j: int| 0 <= j < upto ==> name[j] != '.',
    }
}

proof fn lemma_last_dot_found(name: Seq<char>, dot: Option<usize>)
    requires
        last_dot_within(name, name.len() as int, dot),
    ensures
        match dot {
            Some(d) => name.index_of_last('.') == Some(d as int),
            None => name.index_of_last('.') is None,
        },
{
    name.index_of_last_ensures('.');
    match dot {
        Some(d) => {
            assert(name.contains('.'));
        },
        None => {},
    }
}

/// Finds the last dot of `name` and counts its characters.
fn scan(name: &str) -> (found: (Option<usize>, usize))
    ensures
        found.1 == name@.len(),
        match found.0 {
            Some(d) => d < name@.len() && name@.index_of_last('.') == Some(d as int),
            None => name@.index_of_last('.') is None,
        },
{
    let len = name.unicode_len();
    let mut dot: Option<usize> = None;
    let mut at: usize = 0;
    for c in it: name.chars()
        invariant
            at == it.index(),
            it.seq() == name@,
            len == name@.len(),
            last_dot_within(name@, at as int, dot),
    {
        if c == '.' {
            dot = Some(at);
        }
        at = at + 1;
    }
    proof {
        lemma_last_dot_found(name@, dot);
    }
    (dot, len)
}

/// The base name of `name`.
pub fn remove_extension(name: &str) -> (base: &str)
    ensures
        base@ == strip_extension(name@),
{
    match scan(name).0 {
        Some(dot) => name.substring_char(0, dot),
        None => name,
    }
}

/// The extension of `name`.
pub fn extension(name: &str) -> (ext: &str)
    ensures
        ext@ == extension_of(name@),
{
    let (dot, len) = scan(name);
    match dot {
        Some(dot) => name.substring_char(dot + 1, len),
        None => name.substring_char(len, len),
    }
}

/// Whether `a` is `b` or comes before it in the order of strings.
pub fn in_order(a: &str, b: &str) -> (le: bool)
    ensures
        le == name_le(a@, b@),
{
    let mut left = a.chars();
    let mut right = b.chars();
    loop
        invariant
            name_le(a@, b@) == name_le(left.remaining(), right.remaining()),
            left.decrease() is Some,
        decreases left.decrease()->0,
    {
        let ghost rest_left = left.remaining();
        let ghost rest_right = right.remaining();
        match left.next() {
            None => {
                return true;
            },
            Some(x) => match right.next() {
                None => {
                    return false;
                },
                Some(y) => {
                    assert(x == rest_left[0] && y == rest_right[0]);
                    if x != y {
                        return (x as u32) < (y as u32);
                    }
                },
            },
        }
    }
}

/// Of two names, one is the other or comes before it.
pub proof fn lemma_name_le_total(a: Seq<char>, b: Seq<char>)
    ensures
        name_le(a, b) || name_le(b, a),
    decreases a.len(),
{
    if a.len() > 0 && b.len() > 0 {
        if a[0] == b[0] {
            lemma_name_le_total(a.drop_first(), b.drop_first());
        } else {
            assert(a[0] as u32 != b[0] as u32) by {
                vstd::utf8::char_u32_cast(a[0], a[0] as u32);
                vstd::utf8::char_u32_cast(b[0], b[0] as u32);
            }
        }
    }
}

/// A name that is not after a second, which is not after a third, is not
/// after the third.
pub proof fn lemma_name_le_transitive(a: Seq<char>, b: Seq<char>, c: Seq<char>)
    requires
        name_le(a, b),
        name_le(b, c),
    ensures
        name_le(a, c),
    decreases a.len(),
{
    if a.len() > 0 && b.len() > 0 && c.len() > 0 {
        if a[0] == b[0] && b[0] == c[0] {
            lemma_name_le_transitive(a.drop_first(), b.drop_first(), c.drop_first());
        } else if a[0] == c[0] {
            assert(a[0] as u32 != b[0] as u32) by {
                vstd::utf8::char_u32_cast(a[0], a[0] as u32);
                vstd::utf8::char_u32_cast(b[0], b[0] as u32);
            }
        }
    }
}

/// A name without a dot is its own base name, so taking the base name of it
/// twice gives what taking it once gives.
pub proof fn lemma_strip_extension_idempotent(name: Seq<char>)
    requires
        !name.contains('.'),
    ensures
        strip_extension(name) == name,
        strip_extension(strip_extension(name)) == strip_extension(name),
{
    name.index_of_last_ensures('.');
}

/// A base name is no longer than the name.
pub proof fn lemma_strip_extension_len(name: Seq<char>)
    ensures
        strip_extension(name).len() <= name.len(),
{
    name.index_of_last_ensures('.');
}

/// A name with a dot is its base name, a dot and its extension.
pub proof fn lemma_name_parts(name: Seq<char>)
    requires
        name.contains('.'),
    ensures
        name == strip_extension(name) + seq!['.'] + extension_of(name),
        !extension_of(name).contains('.'),
{
    name.index_of_last_ensures('.');
    let dot = name.index_of_last('.')->0;
    assert(name =~= name.take(dot) + seq!['.'] + name.skip(dot + 1));
    let ext = extension_of(name);
    assert forall|j: int| 0 <= j < ext.len() implies ext[j] != '.' by {
        assert(ext[j] == name[dot + 1 + j]);
    }
}

} // verus!
