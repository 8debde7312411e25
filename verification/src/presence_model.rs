//! The mathematics of presence: what a diff does to the list of metas that a
//! key holds, and what two diffs in a row amount to.
//!
//! A presence state is a map from a key to the metas that are present under
//! it, one for each connection, in the order in which they joined. A key
//! that nobody is present under is not in the map.

use vstd::prelude::*;
use crate::json::JsonView;

verus! {

/// One connection's presence record: the reference that the server gave it,
/// and what the connection tracks.
pub struct MetaView {
    pub phx_ref: Seq<char>,
    pub payload: JsonView,
}

/// A presence state: for each key that is present, its metas.
pub type PresenceView = Map<Seq<char>, Seq<MetaView>>;

/// A presence diff: who joined and who left, by key.
pub struct DiffView {
    pub joins: PresenceView,
    pub leaves: PresenceView,
}

/// Whether one of `metas` carries the reference `r`.
pub open spec fn has_ref(metas: Seq<MetaView>, r: Seq<char>) -> bool {
    exists|i: int| 0 <= i < metas.len() && #[trigger] metas[i].phx_ref == r
}

/// The references that `metas` carry.
pub open spec fn refs_of(metas: Seq<MetaView>) -> Set<Seq<char>> {
    Set::new(|r: Seq<char>| has_ref(metas, r))
}

/// Whether no two of `metas` carry the same reference.
pub open spec fn distinct_refs(metas: Seq<MetaView>) -> bool {
    forall|i: int, j: int|
        0 <= i < j < metas.len() ==> #[trigger] metas[i].phx_ref != #[trigger] metas[j].phx_ref
}

/// `metas` without those whose reference is in `refs`, in the same order.
pub open spec fn without(metas: Seq<MetaView>, refs: Set<Seq<char>>) -> Seq<MetaView>
    decreases metas.len(),
{
    if metas.len() == 0 {
        Seq::empty()
    } else if refs.contains(metas.last().phx_ref) {
        without(metas.drop_last(), refs)
    } else {
        without(metas.drop_last(), refs).push(metas.last())
    }
}

/// Those of `metas` whose reference is in `refs`, in the same order.
pub open spec fn only(metas: Seq<MetaView>, refs: Set<Seq<char>>) -> Seq<MetaView>
    decreases metas.len(),
{
    if metas.len() == 0 {
        Seq::empty()
    } else if refs.contains(metas.last().phx_ref) {
        only(metas.drop_last(), refs).push(metas.last())
    } else {
        only(metas.drop_last(), refs)
    }
}

/// A key's metas after `joins` came in under it: the metas that were there
/// and do not join anew, then the joining ones.
pub open spec fn join_metas(current: Seq<MetaView>, joins: Seq<MetaView>) -> Seq<MetaView> {
    without(current, refs_of(joins)) + joins
}

/// A key's metas after `leaves` went: those whose reference `leaves` does not
/// name.
pub open spec fn leave_metas(current: Seq<MetaView>, leaves: Seq<MetaView>) -> Seq<MetaView> {
    without(current, refs_of(leaves))
}

/// A key's metas after a diff: the joins are taken in first, then the leaves
/// are taken out.
pub open spec fn merged_metas(current: Seq<MetaView>, joins: Seq<MetaView>, leaves: Seq<MetaView>) -> Seq<
    MetaView,
> {
    leave_metas(join_metas(current, joins), leaves)
}

/// The metas that a diff takes away from a key: those that `leaves` names
/// among the metas that the key holds once the joins are in.
pub open spec fn removed_metas(current: Seq<MetaView>, joins: Seq<MetaView>, leaves: Seq<MetaView>) -> Seq<
    MetaView,
> {
    only(join_metas(current, joins), refs_of(leaves))
}

/// The metas under `key`; none where the key is not present.
pub open spec fn metas_at(state: PresenceView, key: Seq<char>) -> Seq<MetaView> {
    if state.contains_key(key) {
        state[key]
    } else {
        Seq::empty()
    }
}

/// Whether a presence state is in order: finitely many keys, somebody
/// present under each, and no reference twice under one key.
pub open spec fn presence_wf(state: PresenceView) -> bool {
    &&& state.dom().finite()
    &&& forall|k: Seq<char>| #[trigger]
        state.contains_key(k) ==> state[k].len() > 0 && distinct_refs(state[k])
}

/// The state after `diff`: under each key the merged metas, and no key left
/// with nobody under it.
pub open spec fn merge_next(state: PresenceView, diff: DiffView) -> PresenceView {
    Map::new(
        |k: Seq<char>|
            merged_metas(metas_at(state, k), metas_at(diff.joins, k), metas_at(diff.leaves, k)).len() > 0,
        |k: Seq<char>|
            merged_metas(metas_at(state, k), metas_at(diff.joins, k), metas_at(diff.leaves, k)),
    )
}

/// What a diff reports as joined: each key that it names under `joins` and
/// that is present afterwards, with all the metas that the key then holds.
pub open spec fn merge_joined(state: PresenceView, diff: DiffView) -> PresenceView {
    Map::new(
        |k: Seq<char>| diff.joins.contains_key(k) && merge_next(state, diff).contains_key(k),
        |k: Seq<char>| merge_next(state, diff)[k],
    )
}

/// What a diff reports as left: each key that lost metas, with the metas
/// that it lost.
pub open spec fn merge_left(state: PresenceView, diff: DiffView) -> PresenceView {
    Map::new(
        |k: Seq<char>|
            removed_metas(metas_at(state, k), metas_at(diff.joins, k), metas_at(diff.leaves, k)).len() > 0,
        |k: Seq<char>|
            removed_metas(metas_at(state, k), metas_at(diff.joins, k), metas_at(diff.leaves, k)),
    )
}

/// The one diff that does what `first` and then `second` do. Under each key
/// its joins are the first diff's joins that the first diff's leaves spared,
/// taken through the second diff's joins; its leaves are the first diff's
/// leaves that the second diff does not bring back, taken through the second
/// diff's leaves.
pub open spec fn combine_diffs(first: DiffView, second: DiffView) -> DiffView {
    DiffView {
        joins: Map::new(
            |k: Seq<char>|
                join_metas(
                    leave_metas(metas_at(first.joins, k), metas_at(first.leaves, k)),
                    metas_at(second.joins, k),
                ).len() > 0,
            |k: Seq<char>|
                join_metas(
                    leave_metas(metas_at(first.joins, k), metas_at(first.leaves, k)),
                    metas_at(second.joins, k),
                ),
        ),
        leaves: Map::new(
            |k: Seq<char>|
                join_metas(
                    leave_metas(metas_at(first.leaves, k), metas_at(second.joins, k)),
                    metas_at(second.leaves, k),
                ).len() > 0,
            |k: Seq<char>|
                join_metas(
                    leave_metas(metas_at(first.leaves, k), metas_at(second.joins, k)),
                    metas_at(second.leaves, k),
                ),
        ),
    }
}

/// A meta of `without(metas, refs)` is a meta of `metas` whose reference is
/// not in `refs`, and the other way round.
pub proof fn lemma_without_refs(metas: Seq<MetaView>, refs: Set<Seq<char>>, r: Seq<char>)
    ensures
        has_ref(without(metas, refs), r) <==> has_ref(metas, r) && !refs.contains(r),
        without(metas, refs).len() <= metas.len(),
    decreases metas.len(),
{
    if metas.len() > 0 {
        let init = metas.drop_last();
        let last = metas.last();
        lemma_without_refs(init, refs, r);
        let out = without(metas, refs);
        if has_ref(out, r) {
            let i = choose|i: int| 0 <= i < out.len() && #[trigger] out[i].phx_ref == r;
            if refs.contains(last.phx_ref) || i < out.len() - 1 {
                assert(without(init, refs)[i].phx_ref == r);
                let j = choose|j: int| 0 <= j < init.len() && #[trigger] init[j].phx_ref == r;
                assert(metas[j].phx_ref == r);
            } else {
                assert(metas[metas.len() - 1].phx_ref == r);
            }
        }
        if has_ref(metas, r) && !refs.contains(r) {
            let j = choose|j: int| 0 <= j < metas.len() && #[trigger] metas[j].phx_ref == r;
            if j < metas.len() - 1 {
                assert(init[j].phx_ref == r);
                let i = choose|i: int|
                    0 <= i < without(init, refs).len() && #[trigger] without(init, refs)[i].phx_ref == r;
                assert(out[i].phx_ref == r);
            } else {
                assert(out[out.len() - 1].phx_ref == r);
            }
        }
    }
}

/// A meta of `only(metas, refs)` is a meta of `metas` whose reference is in
/// `refs`, and the other way round.
pub proof fn lemma_only_refs(metas: Seq<MetaView>, refs: Set<Seq<char>>, r: Seq<char>)
    ensures
        has_ref(only(metas, refs), r) <==> has_ref(metas, r) && refs.contains(r),
        only(metas, refs).len() <= metas.len(),
    decreases metas.len(),
{
    if metas.len() > 0 {
        let init = metas.drop_last();
        let last = metas.last();
        lemma_only_refs(init, refs, r);
        let out = only(metas, refs);
        if has_ref(out, r) {
            let i = choose|i: int| 0 <= i < out.len() && #[trigger] out[i].phx_ref == r;
            if !refs.contains(last.phx_ref) || i < out.len() - 1 {
                assert(only(init, refs)[i].phx_ref == r);
                let j = choose|j: int| 0 <= j < init.len() && #[trigger] init[j].phx_ref == r;
                assert(metas[j].phx_ref == r);
            } else {
                assert(metas[metas.len() - 1].phx_ref == r);
            }
        }
        if has_ref(metas, r) && refs.contains(r) {
            let j = choose|j: int| 0 <= j < metas.len() && #[trigger] metas[j].phx_ref == r;
            if j < metas.len() - 1 {
                assert(init[j].phx_ref == r);
                let i = choose|i: int|
                    0 <= i < only(init, refs).len() && #[trigger] only(init, refs)[i].phx_ref == r;
                assert(out[i].phx_ref == r);
            } else {
                assert(out[out.len() - 1].phx_ref == r);
            }
        }
    }
}

/// A meta of `a + b` is a meta of `a` or of `b`.
pub proof fn lemma_concat_refs(a: Seq<MetaView>, b: Seq<MetaView>, r: Seq<char>)
    ensures
        has_ref(a + b, r) <==> has_ref(a, r) || has_ref(b, r),
{
    let ab = a + b;
    if has_ref(ab, r) {
        let i = choose|i: int| 0 <= i < ab.len() && #[trigger] ab[i].phx_ref == r;
        if i < a.len() {
            assert(a[i].phx_ref == r);
        } else {
            assert(b[i - a.len()].phx_ref == r);
        }
    }
    if has_ref(a, r) {
        let i = choose|i: int| 0 <= i < a.len() && #[trigger] a[i].phx_ref == r;
        assert(ab[i].phx_ref == r);
    }
    if has_ref(b, r) {
        let i = choose|i: int| 0 <= i < b.len() && #[trigger] b[i].phx_ref == r;
        assert(ab[i + a.len()].phx_ref == r);
    }
}

/// Taking references out of a list that is put together from two is taking
/// them out of each.
pub proof fn lemma_without_concat(a: Seq<MetaView>, b: Seq<MetaView>, refs: Set<Seq<char>>)
    ensures
        without(a + b, refs) == without(a, refs) + without(b, refs),
    decreases b.len(),
{
    if b.len() == 0 {
        assert(a + b =~= a);
        assert(without(a, refs) + without(b, refs) =~= without(a, refs));
    } else {
        let ab = a + b;
        assert(ab.drop_last() =~= a + b.drop_last());
        assert(ab.last() == b.last());
        lemma_without_concat(a, b.drop_last(), refs);
        if refs.contains(b.last().phx_ref) {
        } else {
            assert(without(ab, refs) =~= without(a, refs) + without(b, refs));
        }
    }
}

/// Taking out one set of references and then another is taking out both.
pub proof fn lemma_without_twice(metas: Seq<MetaView>, first: Set<Seq<char>>, second: Set<Seq<char>>)
    ensures
        without(without(metas, first), second) == without(metas, first.union(second)),
    decreases metas.len(),
{
    if metas.len() > 0 {
        let init = metas.drop_last();
        let last = metas.last();
        lemma_without_twice(init, first, second);
        if !first.contains(last.phx_ref) {
            let inner = without(init, first);
            assert(inner.push(last).drop_last() =~= inner);
        }
    }
}

/// What `without` gives depends on the set only as far as the list's own
/// references go.
pub proof fn lemma_without_agree(metas: Seq<MetaView>, first: Set<Seq<char>>, second: Set<Seq<char>>)
    requires
        forall|r: Seq<char>| has_ref(metas, r) ==> (first.contains(r) <==> second.contains(r)),
    ensures
        without(metas, first) == without(metas, second),
    decreases metas.len(),
{
    if metas.len() > 0 {
        let init = metas.drop_last();
        assert forall|r: Seq<char>| has_ref(init, r) implies (first.contains(r) <==> second.contains(
            r,
        )) by {
            let i = choose|i: int| 0 <= i < init.len() && #[trigger] init[i].phx_ref == r;
            assert(metas[i].phx_ref == r);
        }
        lemma_without_agree(init, first, second);
        assert(metas[metas.len() - 1].phx_ref == metas.last().phx_ref);
        assert(has_ref(metas, metas.last().phx_ref));
    }
}

/// A list from which references were taken out still has no reference twice.
pub proof fn lemma_without_distinct(metas: Seq<MetaView>, refs: Set<Seq<char>>)
    requires
        distinct_refs(metas),
    ensures
        distinct_refs(without(metas, refs)),
        distinct_refs(only(metas, refs)),
    decreases metas.len(),
{
    if metas.len() > 0 {
        let init = metas.drop_last();
        let last = metas.last();
        assert(distinct_refs(init)) by {
            assert forall|i: int, j: int| 0 <= i < j < init.len() implies #[trigger] init[i].phx_ref
                != #[trigger] init[j].phx_ref by {
                assert(metas[i].phx_ref != metas[j].phx_ref);
            }
        }
        lemma_without_distinct(init, refs);
        assert(!has_ref(init, last.phx_ref)) by {
            if has_ref(init, last.phx_ref) {
                let i = choose|i: int| 0 <= i < init.len() && #[trigger] init[i].phx_ref == last.phx_ref;
                assert(metas[i].phx_ref != metas[metas.len() - 1].phx_ref);
            }
        }
        lemma_without_refs(init, refs, last.phx_ref);
        lemma_only_refs(init, refs, last.phx_ref);
        let w = without(metas, refs);
        assert forall|i: int, j: int| 0 <= i < j < w.len() implies #[trigger] w[i].phx_ref
            != #[trigger] w[j].phx_ref by {
            if !refs.contains(last.phx_ref) && j == w.len() - 1 {
                assert(without(init, refs)[i].phx_ref == w[i].phx_ref);
            } else {
                assert(without(init, refs)[i].phx_ref != without(init, refs)[j].phx_ref);
            }
        }
        let o = only(metas, refs);
        assert forall|i: int, j: int| 0 <= i < j < o.len() implies #[trigger] o[i].phx_ref
            != #[trigger] o[j].phx_ref by {
            if refs.contains(last.phx_ref) && j == o.len() - 1 {
                assert(only(init, refs)[i].phx_ref == o[i].phx_ref);
            } else {
                assert(only(init, refs)[i].phx_ref != only(init, refs)[j].phx_ref);
            }
        }
    }
}

/// Joins into a list without a reference twice, themselves without a
/// reference twice, give such a list again.
pub proof fn lemma_join_distinct(current: Seq<MetaView>, joins: Seq<MetaView>)
    requires
        distinct_refs(current),
        distinct_refs(joins),
    ensures
        distinct_refs(join_metas(current, joins)),
{
    let kept = without(current, refs_of(joins));
    lemma_without_distinct(current, refs_of(joins));
    let out = join_metas(current, joins);
    assert forall|i: int, j: int| 0 <= i < j < out.len() implies #[trigger] out[i].phx_ref
        != #[trigger] out[j].phx_ref by {
        if j < kept.len() {
            assert(kept[i].phx_ref != kept[j].phx_ref);
        } else if i >= kept.len() {
            assert(joins[i - kept.len()].phx_ref != joins[j - kept.len()].phx_ref);
        } else {
            let r = joins[j - kept.len()].phx_ref;
            assert(has_ref(joins, r));
            lemma_without_refs(current, refs_of(joins), r);
            if kept[i].phx_ref == r {
                assert(has_ref(kept, r));
            }
        }
    }
}

/// A diff in order, merged into a state in order, gives a state in order:
/// no key is left with nobody under it, and no reference stands twice
/// under one key.
pub proof fn lemma_merge_wf(state: PresenceView, diff: DiffView)
    requires
        presence_wf(state),
        presence_wf(diff.joins),
        presence_wf(diff.leaves),
    ensures
        presence_wf(merge_next(state, diff)),
        presence_wf(merge_joined(state, diff)),
        presence_wf(merge_left(state, diff)),
{
    let next = merge_next(state, diff);
    let joined = merge_joined(state, diff);
    let left = merge_left(state, diff);
    let keys = state.dom().union(diff.joins.dom());
    assert forall|k: Seq<char>|
        distinct_refs(merged_metas(metas_at(state, k), metas_at(diff.joins, k), metas_at(diff.leaves, k)))
            && distinct_refs(
            removed_metas(metas_at(state, k), metas_at(diff.joins, k), metas_at(diff.leaves, k)),
        ) && (!keys.contains(k) ==> join_metas(metas_at(state, k), metas_at(diff.joins, k)).len() == 0) by {
        lemma_join_distinct(metas_at(state, k), metas_at(diff.joins, k));
        lemma_without_distinct(
            join_metas(metas_at(state, k), metas_at(diff.joins, k)),
            refs_of(metas_at(diff.leaves, k)),
        );
        if !keys.contains(k) {
            assert(join_metas(metas_at(state, k), metas_at(diff.joins, k)) =~= Seq::empty());
        }
    }
    assert(next.dom().subset_of(keys));
    assert(joined.dom().subset_of(keys));
    assert(left.dom().subset_of(keys));
    vstd::set_lib::lemma_set_subset_finite(keys, next.dom());
    vstd::set_lib::lemma_set_subset_finite(keys, joined.dom());
    vstd::set_lib::lemma_set_subset_finite(keys, left.dom());
}

/// What two diffs in a row leave under one key is what their combination
/// leaves under it.
pub proof fn lemma_merge_metas_twice(
    current: Seq<MetaView>,
    j1: Seq<MetaView>,
    l1: Seq<MetaView>,
    j2: Seq<MetaView>,
    l2: Seq<MetaView>,
)
    ensures
        merged_metas(merged_metas(current, j1, l1), j2, l2) == merged_metas(
            current,
            join_metas(leave_metas(j1, l1), j2),
            join_metas(leave_metas(l1, j2), l2),
        ),
{
    let rj1 = refs_of(j1);
    let rl1 = refs_of(l1);
    let rj2 = refs_of(j2);
    let rl2 = refs_of(l2);
    let joins = join_metas(leave_metas(j1, l1), j2);
    let leaves = join_metas(leave_metas(l1, j2), l2);
    let rj = refs_of(joins);
    let rl = refs_of(leaves);

    // what the combined diff names
    assert forall|r: Seq<char>| rj.contains(r) <==> (rj1.contains(r) && !rl1.contains(r)
        && !rj2.contains(r)) || rj2.contains(r) by {
        lemma_concat_refs(without(leave_metas(j1, l1), rj2), j2, r);
        lemma_without_refs(leave_metas(j1, l1), rj2, r);
        lemma_without_refs(j1, rl1, r);
    }
    assert forall|r: Seq<char>| rl.contains(r) <==> (rl1.contains(r) && !rj2.contains(r)) || rl2.contains(
        r,
    ) by {
        lemma_concat_refs(without(leave_metas(l1, j2), rl2), l2, r);
        lemma_without_refs(leave_metas(l1, j2), rl2, r);
        lemma_without_refs(l1, rj2, r);
    }

    // the left side, part by part
    let all = rj1.union(rl1).union(rj2).union(rl2);
    let c_part = without(current, all);
    let j1_part = without(j1, rl1.union(rj2).union(rl2));
    let j2_part = without(j2, rl2);
    let after_first = merged_metas(current, j1, l1);
    assert(after_first == without(current, rj1.union(rl1)) + without(j1, rl1)) by {
        lemma_without_concat(without(current, rj1), j1, rl1);
        lemma_without_twice(current, rj1, rl1);
    }
    assert(without(after_first, rj2) == without(current, rj1.union(rl1).union(rj2)) + without(
        j1,
        rl1.union(rj2),
    )) by {
        lemma_without_concat(without(current, rj1.union(rl1)), without(j1, rl1), rj2);
        lemma_without_twice(current, rj1.union(rl1), rj2);
        lemma_without_twice(j1, rl1, rj2);
    }
    let lhs = merged_metas(after_first, j2, l2);
    assert(lhs == c_part + j1_part + j2_part) by {
        lemma_without_concat(without(after_first, rj2), j2, rl2);
        lemma_without_concat(
            without(current, rj1.union(rl1).union(rj2)),
            without(j1, rl1.union(rj2)),
            rl2,
        );
        lemma_without_twice(current, rj1.union(rl1).union(rj2), rl2);
        lemma_without_twice(j1, rl1.union(rj2), rl2);
    }

    // the right side, part by part
    let rhs = merged_metas(current, joins, leaves);
    assert(joins == without(j1, rl1.union(rj2)) + j2) by {
        lemma_without_twice(j1, rl1, rj2);
    }
    assert(rhs == without(current, rj.union(rl)) + without(j1, rl1.union(rj2).union(rl)) + without(j2, rl))
        by {
        lemma_without_concat(without(current, rj), joins, rl);
        lemma_without_twice(current, rj, rl);
        lemma_without_concat(without(j1, rl1.union(rj2)), j2, rl);
        lemma_without_twice(j1, rl1.union(rj2), rl);
        assert(without(current, rj.union(rl)) + (without(j1, rl1.union(rj2).union(rl)) + without(j2, rl))
            =~= without(current, rj.union(rl)) + without(j1, rl1.union(rj2).union(rl)) + without(
            j2,
            rl,
        ));
    }
    assert(without(current, rj.union(rl)) == c_part) by {
        lemma_without_agree(current, rj.union(rl), all);
    }
    assert(without(j1, rl1.union(rj2).union(rl)) == j1_part) by {
        lemma_without_agree(j1, rl1.union(rj2).union(rl), rl1.union(rj2).union(rl2));
    }
    assert(without(j2, rl) == j2_part) by {
        lemma_without_agree(j2, rl, rl2);
    }
}

/// Presence merge composes: to merge one diff and then another is to merge
/// the combination of the two, whichever keys they touch.
pub proof fn lemma_merge_associative(state: PresenceView, first: DiffView, second: DiffView)
    ensures
        merge_next(merge_next(state, first), second) == merge_next(state, combine_diffs(first, second)),
{
    let mid = merge_next(state, first);
    let both = combine_diffs(first, second);
    let lhs = merge_next(mid, second);
    let rhs = merge_next(state, both);
    assert forall|k: Seq<char>|
        merged_metas(metas_at(mid, k), metas_at(second.joins, k), metas_at(second.leaves, k))
            == merged_metas(metas_at(state, k), metas_at(both.joins, k), metas_at(both.leaves, k)) by {
        lemma_merge_metas_twice(
            metas_at(state, k),
            metas_at(first.joins, k),
            metas_at(first.leaves, k),
            metas_at(second.joins, k),
            metas_at(second.leaves, k),
        );
        let m = merged_metas(metas_at(state, k), metas_at(first.joins, k), metas_at(first.leaves, k));
        assert(metas_at(mid, k) =~= m);
        let j = join_metas(
            leave_metas(metas_at(first.joins, k), metas_at(first.leaves, k)),
            metas_at(second.joins, k),
        );
        assert(metas_at(both.joins, k) =~= j);
        let l = join_metas(
            leave_metas(metas_at(first.leaves, k), metas_at(second.joins, k)),
            metas_at(second.leaves, k),
        );
        assert(metas_at(both.leaves, k) =~= l);
    }
    assert(lhs =~= rhs);
}

} // verus!
