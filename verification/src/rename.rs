//! The name that a file is to get from its match.
//!
//! Of a source and the choice it is matched with, one is the target: the file
//! that is copied or renamed, which keeps its extension. The other is the
//! reference, which gives the new name its body. The new name is the body, a
//! dot and the extension. The dot is always there: a target without an
//! extension gets a name that ends in a dot.

use vstd::prelude::*;
use vstd::string::StringExecFns;
use crate::name::{
    extension, extension_of, lemma_name_parts, remove_extension, strip_extension,
};

verus! {

/// Which of the two lists holds the files that are copied or renamed.
#[derive(Clone, Copy, Debug, PartialEq, Eq, Structural)]
pub enum SideToUse {
    /// The choices: each is named after the source it is matched with.
    Choices,
    /// The sources: each is named after the choice it is matched with.
    Sources,
}

/// The name of the target under `side`.
pub open spec fn target_of(source: Seq<char>, choice: Seq<char>, side: SideToUse) -> Seq<char> {
    match side {
        SideToUse::Choices => choice,
        SideToUse::Sources => source,
    }
}

/// The name of the reference under `side`.
pub open spec fn reference_of(source: Seq<char>, choice: Seq<char>, side: SideToUse) -> Seq<
    char,
> {
    match side {
        SideToUse::Choices => source,
        SideToUse::Sources => choice,
    }
}

/// The new name: the reference, whole with `keep_extension` and else without
/// its extension, then a dot, then the extension of the target.
pub open spec fn resolved(
    source: Seq<char>,
    choice: Seq<char>,
    keep_extension: bool,
    side: SideToUse,
) -> Seq<char> {
    let reference = reference_of(source, choice, side);
    let body = if keep_extension {
        reference
    } else {
        strip_extension(reference)
    };
    body + seq!['.'] + extension_of(target_of(source, choice, side))
}

/// The new name for a source called `source` that is matched with a choice
/// called `choice`.
pub fn resolve(source: &str, choice: &str, keep_extension: bool, side: SideToUse) -> (name: String)
    ensures
        name@ == resolved(source@, choice@, keep_extension, side),
{
    let (target, reference) = match side {
        SideToUse::Choices => (choice, source),
        SideToUse::Sources => (source, choice),
    };
    let ext = extension(target);
    let body = if keep_extension {
        reference
    } else {
        remove_extension(reference)
    };
    let mut name = String::from_str(body);
    name.append(".");
    name.append(ext);
    proof {
        reveal_strlit(".");
        assert("."@ == seq!['.']);
    }
    name
}

/// The new name ends in the extension of the target, and what stands before
/// its last dot is the body that the reference gave.
pub proof fn lemma_resolved_parts(
    source: Seq<char>,
    choice: Seq<char>,
    keep_extension: bool,
    side: SideToUse,
)
    ensures
        extension_of(resolved(source, choice, keep_extension, side)) == extension_of(
            target_of(source, choice, side),
        ),
        strip_extension(resolved(source, choice, keep_extension, side)) == if keep_extension {
            reference_of(source, choice, side)
        } else {
            strip_extension(reference_of(source, choice, side))
        },
{
    let name = resolved(source, choice, keep_extension, side);
    let target = target_of(source, choice, side);
    let reference = reference_of(source, choice, side);
    let body = if keep_extension {
        reference
    } else {
        strip_extension(reference)
    };
    let ext = extension_of(target);
    assert(!ext.contains('.')) by {
        target.index_of_last_ensures('.');
        if target.contains('.') {
            lemma_name_parts(target);
        }
    }
    assert(name[body.len() as int] == '.');
    assert(name.contains('.'));
    name.index_of_last_ensures('.');
    let dot = name.index_of_last('.')->0;
    if dot > body.len() {
        assert(ext[dot - body.len() - 1] == '.');
        assert(ext.contains('.'));
    }
    assert(dot == body.len());
    assert(name.take(dot) =~= body);
    assert(name.skip(dot + 1) =~= ext);
}

} // verus!
