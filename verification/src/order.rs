//! The order of the sources: by their names, as strings are ordered, and
//! sources of one name in the order in which they came.

use vstd::prelude::*;
use vstd::multiset::group_multiset_axioms;
use vstd::seq_lib::group_to_multiset_ensures;
use crate::name::{in_order, lemma_name_le_total, lemma_name_le_transitive, name_le};
use crate::source::{source_views, SourceName, SourceView};

verus! {

/// Whether `sources` are in the order of their names.
pub open spec fn sorted_by_name(sources: Seq<SourceView>) -> bool {
    forall|i: int, j: int|
        0 <= i < j < sources.len() ==> name_le(
            (#[trigger] sources[i]).file.name,
            (#[trigger] sources[j]).file.name,
        )
}

/// Where `source` goes among `sorted`: behind every entry whose name is not
/// after its own.
pub open spec fn place_by_name(sorted: Seq<SourceView>, source: SourceView) -> int
    decreases sorted.len(),
{
    if sorted.len() == 0 || name_le(sorted.last().file.name, source.file.name) {
        sorted.len() as int
    } else {
        place_by_name(sorted.drop_last(), source)
    }
}

/// `sources` in the order of their names, sources of one name in the order
/// they have in `sources`.
pub open spec fn in_name_order(sources: Seq<SourceView>) -> Seq<SourceView>
    decreases sources.len(),
{
    if sources.len() == 0 {
        Seq::empty()
    } else {
        let before = in_name_order(sources.drop_last());
        before.insert(place_by_name(before, sources.last()), sources.last())
    }
}

/// Where a source goes among sources in the order of their names: every
/// entry before that place has a name that is not after its own, and every
/// entry from that place on has a name after its own.
proof fn lemma_place_by_name(sorted: Seq<SourceView>, source: SourceView)
    requires
        sorted_by_name(sorted),
    ensures
        0 <= place_by_name(sorted, source) <= sorted.len(),
        forall|j: int|
            0 <= j < place_by_name(sorted, source) ==> name_le(
                (#[trigger] sorted[j]).file.name,
                source.file.name,
            ),
        forall|j: int|
            place_by_name(sorted, source) <= j < sorted.len() ==> name_le(
                source.file.name,
                (#[trigger] sorted[j]).file.name,
            ),
    decreases sorted.len(),
{
    if sorted.len() == 0 {
    } else if name_le(sorted.last().file.name, source.file.name) {
        assert forall|j: int| 0 <= j < sorted.len() implies name_le(
            (#[trigger] sorted[j]).file.name,
            source.file.name,
        ) by {
            if j < sorted.len() - 1 {
                assert(name_le(sorted[j].file.name, sorted[sorted.len() - 1].file.name));
                lemma_name_le_transitive(
                    sorted[j].file.name,
                    sorted.last().file.name,
                    source.file.name,
                );
            }
        }
    } else {
        let front = sorted.drop_last();
        assert forall|a: int, b: int| 0 <= a < b < front.len() implies name_le(
            (#[trigger] front[a]).file.name,
            (#[trigger] front[b]).file.name,
        ) by {
            assert(name_le(sorted[a].file.name, sorted[b].file.name));
        }
        lemma_place_by_name(front, source);
        lemma_name_le_total(sorted.last().file.name, source.file.name);
        assert forall|j: int| 0 <= j < place_by_name(sorted, source) implies name_le(
            (#[trigger] sorted[j]).file.name,
            source.file.name,
        ) by {
            assert(name_le(front[j].file.name, source.file.name));
        }
        assert forall|j: int| place_by_name(sorted, source) <= j < sorted.len() implies name_le(
            source.file.name,
            (#[trigger] sorted[j]).file.name,
        ) by {
            if j < front.len() {
                assert(name_le(source.file.name, front[j].file.name));
            }
        }
    }
}

/// No entry from the place of a source on has a name that the name of the
/// source is, or comes after.
proof fn lemma_place_by_name_exact(sorted: Seq<SourceView>, source: SourceView)
    ensures
        0 <= place_by_name(sorted, source) <= sorted.len(),
        forall|j: int|
            place_by_name(sorted, source) <= j < sorted.len() ==> !name_le(
                (#[trigger] sorted[j]).file.name,
                source.file.name,
            ),
    decreases sorted.len(),
{
    if sorted.len() > 0 && !name_le(sorted.last().file.name, source.file.name) {
        let front = sorted.drop_last();
        lemma_place_by_name_exact(front, source);
        assert forall|j: int| place_by_name(sorted, source) <= j < sorted.len() implies !name_le(
            (#[trigger] sorted[j]).file.name,
            source.file.name,
        ) by {
            if j < front.len() {
                assert(!name_le(front[j].file.name, source.file.name));
            }
        }
    }
}

/// Putting sources in the order of their names rearranges and orders: the
/// sources are as many as before and the same ones, and the name of none is
/// after that of one behind it.
pub proof fn lemma_in_name_order(sources: Seq<SourceView>)
    ensures
        in_name_order(sources).len() == sources.len(),
        in_name_order(sources).to_multiset() == sources.to_multiset(),
        sorted_by_name(in_name_order(sources)),
    decreases sources.len(),
{
    broadcast use group_to_multiset_ensures;

    if sources.len() > 0 {
        let front = sources.drop_last();
        let last = sources.last();
        let before = in_name_order(front);
        let at = place_by_name(before, last);
        let after = in_name_order(sources);
        lemma_in_name_order(front);
        lemma_place_by_name(before, last);
        before.insert_ensures(at, last);
        assert(sources =~= front.push(last));
        assert(after.to_multiset() =~= sources.to_multiset());
        assert forall|k: int| 0 <= k < after.len() implies after[k] == (if k < at {
            before[k]
        } else if k == at {
            last
        } else {
            before[k - 1]
        }) by {}
        assert forall|a: int, b: int| 0 <= a < b < after.len() implies name_le(
            (#[trigger] after[a]).file.name,
            (#[trigger] after[b]).file.name,
        ) by {
            if b < at {
                assert(name_le(before[a].file.name, before[b].file.name));
            } else if b == at {
                assert(name_le(before[a].file.name, last.file.name));
            } else if a < at {
                assert(name_le(before[a].file.name, before[b - 1].file.name));
            } else if a == at {
                assert(name_le(last.file.name, before[b - 1].file.name));
            } else {
                assert(name_le(before[a - 1].file.name, before[b - 1].file.name));
            }
        }
    } else {
        assert(in_name_order(sources) =~= sources);
    }
}

/// Sources of one name keep their order: of two such sources, the earlier
/// one stands before the later one after they were put in order.
pub proof fn lemma_in_name_order_stable(sources: Seq<SourceView>, i: int, j: int)
    requires
        0 <= i < j < sources.len(),
        sources[i].file.name == sources[j].file.name,
    ensures
        exists|a: int, b: int|
            0 <= a < b < sources.len() && #[trigger] in_name_order(sources)[a] == sources[i]
                && #[trigger] in_name_order(sources)[b] == sources[j],
    decreases sources.len(),
{
    broadcast use group_to_multiset_ensures;

    let front = sources.drop_last();
    let last = sources.last();
    let before = in_name_order(front);
    let at = place_by_name(before, last);
    let after = in_name_order(sources);
    lemma_in_name_order(front);
    lemma_place_by_name_exact(before, last);
    before.insert_ensures(at, last);
    assert forall|k: int| 0 <= k < after.len() implies after[k] == (if k < at {
        before[k]
    } else if k == at {
        last
    } else {
        before[k - 1]
    }) by {}
    if j == sources.len() - 1 {
        assert(before.contains(front[i])) by {
            before.to_multiset_ensures();
            front.to_multiset_ensures();
            assert(front.contains(front[i]));
            assert(front.to_multiset().count(front[i]) > 0);
            assert(before.to_multiset().count(front[i]) > 0);
        }
        let a = choose|a: int| 0 <= a < before.len() && before[a] == front[i];
        if a >= at {
            assert(!name_le(before[a].file.name, last.file.name));
            lemma_name_le_total(last.file.name, last.file.name);
        }
        assert(after[a] == sources[i] && after[at] == sources[j]);
    } else {
        lemma_in_name_order_stable(front, i, j);
        let (a, b) = choose|a: int, b: int|
            0 <= a < b < front.len() && #[trigger] before[a] == front[i]
                && #[trigger] before[b] == front[j];
        let shifted_a = if a < at {
            a
        } else {
            a + 1
        };
        let shifted_b = if b < at {
            b
        } else {
            b + 1
        };
        assert(after[shifted_a] == sources[i] && after[shifted_b] == sources[j]);
    }
}

/// Two sequences with the same entries still have the same entries after a
/// function was applied to each.
pub proof fn lemma_rearranged_map<A, B>(a: Seq<A>, b: Seq<A>, f: spec_fn(A) -> B)
    requires
        a.to_multiset() == b.to_multiset(),
    ensures
        a.map_values(f).to_multiset() == b.map_values(f).to_multiset(),
    decreases a.len(),
{
    broadcast use {group_to_multiset_ensures, group_multiset_axioms};

    assert(a.len() == b.len()) by {
        a.to_multiset_ensures();
        b.to_multiset_ensures();
    }
    if a.len() == 0 {
        assert(a.map_values(f) =~= b.map_values(f));
    } else {
        let x = a.last();
        let front = a.drop_last();
        assert(a =~= front.push(x));
        assert(b.contains(x)) by {
            a.to_multiset_ensures();
            b.to_multiset_ensures();
            assert(a.contains(x));
            assert(a.to_multiset().count(x) > 0);
            assert(b.to_multiset().count(x) > 0);
        }
        let i = b.index_of(x);
        let rest = b.remove(i);
        assert(front.to_multiset() =~= rest.to_multiset()) by {
            assert(a.to_multiset() =~= front.to_multiset().insert(x));
            assert(rest.to_multiset() =~= b.to_multiset().remove(x));
        }
        lemma_rearranged_map(front, rest, f);
        let fa = a.map_values(f);
        let fb = b.map_values(f);
        assert(fa =~= front.map_values(f).push(f(x)));
        assert(fb.remove(i) =~= rest.map_values(f));
        assert(fa.to_multiset() =~= front.map_values(f).to_multiset().insert(f(x)));
        assert(fb.remove(i).to_multiset() =~= fb.to_multiset().remove(fb[i]));
        assert(fb.contains(fb[i]));
        assert(fb.to_multiset().count(f(x)) > 0) by {
            fb.to_multiset_ensures();
        }
        assert(fb.to_multiset() =~= rest.map_values(f).to_multiset().insert(f(x)));
    }
}

/// Puts the sources in the order of their names, sources of one name staying
/// in the order they have. Each source goes behind those that are in order
/// already, and moves forward past those whose names are after its own, so
/// sources that are nearly in order take little work.
pub fn sort_by_name(sources: &mut Vec<SourceName>)
    ensures
        source_views(final(sources)@) == in_name_order(source_views(old(sources)@)),
{
    let ghost given = source_views(sources@);
    let mut rest: Vec<SourceName> = Vec::new();
    rest.append(sources);
    assert(source_views(rest@) =~= given);
    assert(source_views(sources@) =~= in_name_order(given.take(0)));
    // the sources, last first
    let mut stack: Vec<SourceName> = Vec::new();
    while rest.len() > 0
        invariant
            sources@.len() == 0,
            rest@.len() + stack@.len() == given.len(),
            source_views(rest@) == given.take(rest@.len() as int),
            forall|t: int|
                0 <= t < stack@.len() ==> (#[trigger] stack@[t])@ == given[given.len() - 1 - t],
        decreases rest@.len(),
    {
        let ghost before = rest@;
        let source = rest.pop().unwrap();
        assert(source@ == source_views(before)[before.len() - 1]);
        assert(source_views(rest@) =~= given.take(rest@.len() as int));
        stack.push(source);
    }
    while stack.len() > 0
        invariant
            sources@.len() + stack@.len() == given.len(),
            source_views(sources@) == in_name_order(given.take(sources@.len() as int)),
            forall|t: int|
                0 <= t < stack@.len() ==> (#[trigger] stack@[t])@ == given[given.len() - 1 - t],
        decreases stack@.len(),
    {
        let ghost before = sources@;
        let ghost top = stack@[stack@.len() - 1];
        let source = stack.pop().unwrap();
        assert(source == top);
        assert(source@ == given[before.len() as int]);
        let mut at: usize = sources.len();
        assert(source_views(sources@).take(at as int) == source_views(sources@));
        while at > 0 && !in_order(sources[at - 1].file.name.as_str(), source.file.name.as_str())
            invariant
                at <= sources@.len(),
                sources@ == before,
                place_by_name(source_views(sources@), source@) == place_by_name(
                    source_views(sources@).take(at as int),
                    source@,
                ),
            decreases at,
        {
            assert(source_views(sources@).take(at as int).drop_last() == source_views(
                sources@,
            ).take(at - 1));
            assert(source_views(sources@).take(at as int).last() == sources@[at - 1]@);
            at = at - 1;
        }
        proof {
            if at > 0 {
                assert(source_views(sources@).take(at as int).last() == sources@[at - 1]@);
            }
            assert(given.take(before.len() as int + 1).drop_last() == given.take(
                before.len() as int,
            ));
        }
        sources.insert(at, source);
        assert(source_views(sources@) =~= source_views(before).insert(at as int, source@));
    }
    assert(given.take(given.len() as int) == given);
}

} // verus!
