//! Presence: who is present under which key, and how the server's diffs are
//! merged into that.

use vstd::prelude::*;
use crate::json::Json;
use crate::presence_model::{
    combine_diffs, distinct_refs, has_ref, join_metas, leave_metas, lemma_join_distinct,
    lemma_without_distinct, merge_joined, merge_left, merge_next, merged_metas, metas_at, only,
    presence_wf, refs_of, removed_metas, without, DiffView, MetaView, PresenceView,
};

verus! {

/// One connection's presence record.
#[derive(Debug, PartialEq, Eq)]
pub struct PresenceMeta {
    /// The reference that the server gave this record.
    pub phx_ref: String,
    /// What the connection tracks.
    pub payload: Json,
}

impl View for PresenceMeta {
    type V = MetaView;

    open spec fn view(&self) -> MetaView {
        MetaView { phx_ref: self.phx_ref@, payload: self.payload@ }
    }
}

impl Clone for PresenceMeta {
    fn clone(&self) -> (res: PresenceMeta)
        ensures
            res@ == self@,
    {
        PresenceMeta { phx_ref: self.phx_ref.clone(), payload: self.payload.clone() }
    }
}

/// The metas of a list, each by its view.
pub open spec fn metas_view(metas: Seq<PresenceMeta>) -> Seq<MetaView> {
    Seq::new(metas.len(), |i: int| metas[i]@)
}

/// A key with the metas that are present under it.
#[derive(Debug, PartialEq, Eq)]
pub struct Presence {
    pub key: String,
    pub metas: Vec<PresenceMeta>,
}

impl View for Presence {
    type V = (Seq<char>, Seq<MetaView>);

    open spec fn view(&self) -> (Seq<char>, Seq<MetaView>) {
        (self.key@, metas_view(self.metas@))
    }
}

/// The map that a list of keys with their metas stands for; of two entries
/// with one key the later one counts.
pub open spec fn map_of(entries: Seq<(Seq<char>, Seq<MetaView>)>) -> PresenceView
    decreases entries.len(),
{
    if entries.len() == 0 {
        Map::empty()
    } else {
        map_of(entries.drop_last()).insert(entries.last().0, entries.last().1)
    }
}

/// Whether one of `entries` has the key `key`.
pub open spec fn has_key(entries: Seq<(Seq<char>, Seq<MetaView>)>, key: Seq<char>) -> bool {
    exists|i: int| 0 <= i < entries.len() && (#[trigger] entries[i]).0 == key
}

/// Whether a list of keys with their metas is in order: no key twice,
/// somebody under each key, no reference twice under one key.
pub open spec fn entries_wf(entries: Seq<(Seq<char>, Seq<MetaView>)>) -> bool {
    &&& forall|i: int, j: int|
        0 <= i < j < entries.len() ==> (#[trigger] entries[i]).0 != (#[trigger] entries[j]).0
    &&& forall|i: int|
        0 <= i < entries.len() ==> (#[trigger] entries[i]).1.len() > 0 && distinct_refs(entries[i].1)
}

/// The keys of `map_of(entries)` are the keys of `entries`; it is finite.
pub proof fn lemma_map_of_keys(entries: Seq<(Seq<char>, Seq<MetaView>)>, key: Seq<char>)
    ensures
        map_of(entries).contains_key(key) <==> has_key(entries, key),
        map_of(entries).dom().finite(),
    decreases entries.len(),
{
    if entries.len() > 0 {
        let init = entries.drop_last();
        lemma_map_of_keys(init, key);
        if has_key(init, key) {
            let i = choose|i: int| 0 <= i < init.len() && (#[trigger] init[i]).0 == key;
            assert(entries[i].0 == key);
        }
        if has_key(entries, key) && entries.last().0 != key {
            let i = choose|i: int| 0 <= i < entries.len() && (#[trigger] entries[i]).0 == key;
            assert(init[i].0 == key);
        }
        if entries.last().0 == key {
            assert(entries[entries.len() - 1].0 == key);
        }
    }
}

/// Where no key stands twice, each entry's metas are what the map holds
/// under its key.
pub proof fn lemma_map_of_entry(entries: Seq<(Seq<char>, Seq<MetaView>)>, i: int)
    requires
        forall|a: int, b: int|
            0 <= a < b < entries.len() ==> (#[trigger] entries[a]).0 != (#[trigger] entries[b]).0,
        0 <= i < entries.len(),
    ensures
        map_of(entries).contains_key(entries[i].0),
        map_of(entries)[entries[i].0] == entries[i].1,
    decreases entries.len(),
{
    let init = entries.drop_last();
    if i < entries.len() - 1 {
        assert forall|a: int, b: int| 0 <= a < b < init.len() implies (#[trigger] init[a]).0 != (
        #[trigger] init[b]).0 by {
            assert(entries[a].0 != entries[b].0);
        }
        lemma_map_of_entry(init, i);
        assert(init[i] == entries[i]);
        assert(entries[i].0 != entries[entries.len() - 1].0);
    }
}

/// Where no key stands twice, the map has as many keys as there are
/// entries.
pub proof fn lemma_map_of_len(entries: Seq<(Seq<char>, Seq<MetaView>)>)
    requires
        forall|a: int, b: int|
            0 <= a < b < entries.len() ==> (#[trigger] entries[a]).0 != (#[trigger] entries[b]).0,
    ensures
        map_of(entries).dom().finite(),
        map_of(entries).dom().len() == entries.len(),
    decreases entries.len(),
{
    if entries.len() > 0 {
        let init = entries.drop_last();
        assert forall|a: int, b: int| 0 <= a < b < init.len() implies (#[trigger] init[a]).0 != (
        #[trigger] init[b]).0 by {
            assert(entries[a].0 != entries[b].0);
        }
        lemma_map_of_len(init);
        let key = entries.last().0;
        lemma_map_of_keys(init, key);
        if has_key(init, key) {
            let i = choose|i: int| 0 <= i < init.len() && (#[trigger] init[i]).0 == key;
            assert(entries[i].0 != entries[entries.len() - 1].0);
        }
        assert(map_of(entries).dom() =~= map_of(init).dom().insert(key));
    }
}

/// A state that is in order as a list is in order as a map.
pub proof fn lemma_map_of_wf(entries: Seq<(Seq<char>, Seq<MetaView>)>)
    requires
        entries_wf(entries),
    ensures
        presence_wf(map_of(entries)),
{
    assert forall|k: Seq<char>| #[trigger] map_of(entries).contains_key(k) implies map_of(entries)[k].len()
        > 0 && distinct_refs(map_of(entries)[k]) by {
        lemma_map_of_keys(entries, k);
        let i = choose|i: int| 0 <= i < entries.len() && (#[trigger] entries[i]).0 == k;
        lemma_map_of_entry(entries, i);
    }
    lemma_map_of_keys(entries, Seq::empty());
}

/// Whether one of `metas` carries the reference `r`.
pub fn contains_ref(metas: &Vec<PresenceMeta>, r: &String) -> (found: bool)
    ensures
        found == has_ref(metas_view(metas@), r@),
{
    let mut i: usize = 0;
    while i < metas.len()
        invariant
            i <= metas.len(),
            forall|j: int| 0 <= j < i ==> (#[trigger] metas_view(metas@)[j]).phx_ref != r@,
        decreases metas.len() - i,
    {
        if metas[i].phx_ref == *r {
            assert(metas_view(metas@)[i as int].phx_ref == r@);
            return true;
        }
        i += 1;
    }
    false
}

/// `metas` without those whose reference one of `named` carries.
pub fn metas_without(metas: &Vec<PresenceMeta>, named: &Vec<PresenceMeta>) -> (out: Vec<PresenceMeta>)
    ensures
        metas_view(out@) == without(metas_view(metas@), refs_of(metas_view(named@))),
{
    let ghost refs = refs_of(metas_view(named@));
    let ghost all = metas_view(metas@);
    let mut out: Vec<PresenceMeta> = Vec::new();
    let mut i: usize = 0;
    assert(all.take(0) =~= Seq::empty());
    assert(metas_view(out@) =~= Seq::empty());
    while i < metas.len()
        invariant
            i <= metas.len(),
            refs == refs_of(metas_view(named@)),
            all == metas_view(metas@),
            metas_view(out@) == without(all.take(i as int), refs),
        decreases metas.len() - i,
    {
        let ghost before = metas_view(out@);
        proof {
            assert(all.take(i + 1).drop_last() =~= all.take(i as int));
            assert(all.take(i + 1).last() == metas[i as int]@);
        }
        if !contains_ref(named, &metas[i].phx_ref) {
            out.push(metas[i].clone());
            assert(metas_view(out@) =~= before.push(metas[i as int]@));
        }
        i += 1;
    }
    assert(all.take(metas.len() as int) =~= all);
    out
}

/// Those of `metas` whose reference one of `named` carries.
pub fn metas_only(metas: &Vec<PresenceMeta>, named: &Vec<PresenceMeta>) -> (out: Vec<PresenceMeta>)
    ensures
        metas_view(out@) == only(metas_view(metas@), refs_of(metas_view(named@))),
{
    let ghost refs = refs_of(metas_view(named@));
    let ghost all = metas_view(metas@);
    let mut out: Vec<PresenceMeta> = Vec::new();
    let mut i: usize = 0;
    assert(all.take(0) =~= Seq::empty());
    assert(metas_view(out@) =~= Seq::empty());
    while i < metas.len()
        invariant
            i <= metas.len(),
            refs == refs_of(metas_view(named@)),
            all == metas_view(metas@),
            metas_view(out@) == only(all.take(i as int), refs),
        decreases metas.len() - i,
    {
        let ghost before = metas_view(out@);
        proof {
            assert(all.take(i + 1).drop_last() =~= all.take(i as int));
            assert(all.take(i + 1).last() == metas[i as int]@);
        }
        if contains_ref(named, &metas[i].phx_ref) {
            out.push(metas[i].clone());
            assert(metas_view(out@) =~= before.push(metas[i as int]@));
        }
        i += 1;
    }
    assert(all.take(metas.len() as int) =~= all);
    out
}

/// The metas of a key after `joins` came in under it.
pub fn metas_joined(current: &Vec<PresenceMeta>, joins: &Vec<PresenceMeta>) -> (out: Vec<PresenceMeta>)
    ensures
        metas_view(out@) == join_metas(metas_view(current@), metas_view(joins@)),
{
    let mut out = metas_without(current, joins);
    let ghost kept = metas_view(out@);
    let mut i: usize = 0;
    assert(metas_view(joins@).take(0) =~= Seq::empty());
    assert(kept + Seq::empty() =~= kept);
    while i < joins.len()
        invariant
            i <= joins.len(),
            metas_view(out@) == kept + metas_view(joins@).take(i as int),
        decreases joins.len() - i,
    {
        let ghost before = metas_view(out@);
        out.push(joins[i].clone());
        proof {
            assert(metas_view(out@) =~= before.push(joins[i as int]@));
            assert(metas_view(joins@).take(i + 1) =~= metas_view(joins@).take(i as int).push(
                joins[i as int]@,
            ));
            assert(before.push(joins[i as int]@) =~= kept + metas_view(joins@).take(i + 1));
        }
        i += 1;
    }
    assert(metas_view(joins@).take(joins.len() as int) =~= metas_view(joins@));
    out
}

/// A copy of a list of metas.
pub fn metas_clone(metas: &Vec<PresenceMeta>) -> (out: Vec<PresenceMeta>)
    ensures
        metas_view(out@) == metas_view(metas@),
{
    let mut out: Vec<PresenceMeta> = Vec::new();
    let mut i: usize = 0;
    while i < metas.len()
        invariant
            i <= metas.len(),
            out.len() == i,
            forall|j: int| 0 <= j < i ==> out[j]@ == metas[j]@,
        decreases metas.len() - i,
    {
        out.push(metas[i].clone());
        i += 1;
    }
    assert(metas_view(out@) =~= metas_view(metas@));
    out
}

/// Whether no two of `metas` carry the same reference.
pub fn metas_distinct(metas: &Vec<PresenceMeta>) -> (ok: bool)
    ensures
        ok == distinct_refs(metas_view(metas@)),
{
    let ghost all = metas_view(metas@);
    let mut j: usize = 0;
    while j < metas.len()
        invariant
            j <= metas.len(),
            all == metas_view(metas@),
            forall|a: int, b: int| 0 <= a < b < j ==> #[trigger] all[a].phx_ref != #[trigger] all[b].phx_ref,
        decreases metas.len() - j,
    {
        let mut i: usize = 0;
        while i < j
            invariant
                i <= j < metas.len(),
                all == metas_view(metas@),
                forall|a: int| 0 <= a < i ==> #[trigger] all[a].phx_ref != all[j as int].phx_ref,
            decreases j - i,
        {
            if metas[i].phx_ref == metas[j].phx_ref {
                assert(all[i as int].phx_ref == all[j as int].phx_ref);
                return false;
            }
            i += 1;
        }
        j += 1;
    }
    true
}

/// How the metas of a key are put together from three lists.
enum Rule {
    /// The first list, the second joined into it, the third's taken out.
    Merged,
    /// What the third list takes out of the first with the second joined
    /// into it.
    Removed,
    /// The first list, the third's taken out, the second joined into it.
    Through,
    /// As `Merged`, but nothing where the second list is empty.
    Joined,
}

spec fn rule_metas(rule: Rule, a: Seq<MetaView>, b: Seq<MetaView>, c: Seq<MetaView>) -> Seq<MetaView> {
    match rule {
        Rule::Merged => merged_metas(a, b, c),
        Rule::Removed => removed_metas(a, b, c),
        Rule::Through => join_metas(leave_metas(a, c), b),
        Rule::Joined => if b.len() > 0 {
            merged_metas(a, b, c)
        } else {
            Seq::empty()
        },
    }
}

spec fn rule_at(rule: Rule, a: PresenceView, b: PresenceView, c: PresenceView, k: Seq<char>) -> Seq<
    MetaView,
> {
    rule_metas(rule, metas_at(a, k), metas_at(b, k), metas_at(c, k))
}

/// The state that holds under each key what `rule` makes of the three
/// states' metas under it.
spec fn assembled(rule: Rule, a: PresenceView, b: PresenceView, c: PresenceView) -> PresenceView {
    Map::new(|k: Seq<char>| rule_at(rule, a, b, c, k).len() > 0, |k: Seq<char>| rule_at(rule, a, b, c, k))
}

/// Whether `entries` holds under `k` what the rule asks for if `k` is among
/// the keys seen so far, and nothing otherwise.
spec fn built(
    entries: Seq<(Seq<char>, Seq<MetaView>)>,
    seen: Seq<(Seq<char>, Seq<MetaView>)>,
    rule: Rule,
    a: PresenceView,
    b: PresenceView,
    c: PresenceView,
    k: Seq<char>,
) -> bool {
    metas_at(map_of(entries), k) == if has_key(seen, k) {
        rule_at(rule, a, b, c, k)
    } else {
        Seq::empty()
    }
}

proof fn lemma_rule_distinct(rule: Rule, a: Seq<MetaView>, b: Seq<MetaView>, c: Seq<MetaView>)
    requires
        distinct_refs(a),
        distinct_refs(b),
    ensures
        distinct_refs(rule_metas(rule, a, b, c)),
        a.len() == 0 && b.len() == 0 ==> rule_metas(rule, a, b, c).len() == 0,
{
    match rule {
        Rule::Merged => {
            lemma_join_distinct(a, b);
            lemma_without_distinct(join_metas(a, b), refs_of(c));
        },
        Rule::Removed => {
            lemma_join_distinct(a, b);
            lemma_without_distinct(join_metas(a, b), refs_of(c));
        },
        Rule::Through => {
            lemma_without_distinct(a, refs_of(c));
            lemma_join_distinct(leave_metas(a, c), b);
        },
        Rule::Joined => {
            lemma_join_distinct(a, b);
            lemma_without_distinct(join_metas(a, b), refs_of(c));
        },
    }
    if a.len() == 0 && b.len() == 0 {
        assert(join_metas(a, b) =~= Seq::empty());
        assert(join_metas(leave_metas(a, c), b) =~= Seq::empty());
    }
}

proof fn lemma_metas_at_distinct(state: PresenceView, k: Seq<char>)
    requires
        presence_wf(state),
    ensures
        distinct_refs(metas_at(state, k)),
{
}

/// One more key seen, and its metas, where it has any, put at the end.
proof fn lemma_built_step(
    entries: Seq<(Seq<char>, Seq<MetaView>)>,
    seen: Seq<(Seq<char>, Seq<MetaView>)>,
    entry: (Seq<char>, Seq<MetaView>),
    rule: Rule,
    a: PresenceView,
    b: PresenceView,
    c: PresenceView,
    next: Seq<(Seq<char>, Seq<MetaView>)>,
    seen2: Seq<(Seq<char>, Seq<MetaView>)>,
)
    requires
        entries_wf(entries),
        forall|k: Seq<char>| #[trigger] built(entries, seen, rule, a, b, c, k),
        !has_key(seen, entry.0),
        presence_wf(a),
        presence_wf(b),
        seen2 == seen.push(entry),
        next == if rule_at(rule, a, b, c, entry.0).len() > 0 {
            entries.push((entry.0, rule_at(rule, a, b, c, entry.0)))
        } else {
            entries
        },
    ensures
        entries_wf(next),
        forall|k: Seq<char>| #[trigger] built(next, seen2, rule, a, b, c, k),
{
    let key = entry.0;
    let metas = rule_at(rule, a, b, c, key);
    lemma_metas_at_distinct(a, key);
    lemma_metas_at_distinct(b, key);
    lemma_rule_distinct(rule, metas_at(a, key), metas_at(b, key), metas_at(c, key));
    assert(built(entries, seen, rule, a, b, c, key));
    assert(!has_key(entries, key)) by {
        if has_key(entries, key) {
            let i = choose|i: int| 0 <= i < entries.len() && (#[trigger] entries[i]).0 == key;
            lemma_map_of_entry(entries, i);
        }
    }
    lemma_map_of_keys(entries, key);
    assert(seen2[seen.len() as int] == entry);
    assert(has_key(seen2, key));
    if metas.len() > 0 {
        assert(next.drop_last() =~= entries);
        assert forall|i: int, j: int| 0 <= i < j < next.len() implies (#[trigger] next[i]).0 != (
        #[trigger] next[j]).0 by {
            if j == entries.len() {
                assert(entries[i].0 != key);
            } else {
                assert(entries[i].0 != entries[j].0);
            }
        }
        assert forall|i: int| 0 <= i < next.len() implies (#[trigger] next[i]).1.len() > 0
            && distinct_refs(next[i].1) by {
            if i < entries.len() {
                assert(entries[i].1.len() > 0);
            }
        }
    }
    if metas.len() > 0 {
        assert(next.last() == (key, metas));
        assert(map_of(next) == map_of(entries).insert(key, metas));
    } else {
        assert(metas =~= Seq::empty());
    }
    assert forall|k: Seq<char>| built(next, seen2, rule, a, b, c, k) by {
        assert(built(entries, seen, rule, a, b, c, k));
        if k != key {
            if has_key(seen2, k) {
                let i = choose|i: int| 0 <= i < seen2.len() && (#[trigger] seen2[i]).0 == k;
                assert(seen[i].0 == k);
            }
            if has_key(seen, k) {
                let i = choose|i: int| 0 <= i < seen.len() && (#[trigger] seen[i]).0 == k;
                assert(seen2[i].0 == k);
            }
            assert(metas_at(map_of(next), k) == metas_at(map_of(entries), k));
        } else {
            assert(metas_at(map_of(next), k) == metas);
        }
    }
}

/// A key seen again changes nothing.
proof fn lemma_built_again(
    entries: Seq<(Seq<char>, Seq<MetaView>)>,
    seen: Seq<(Seq<char>, Seq<MetaView>)>,
    entry: (Seq<char>, Seq<MetaView>),
    rule: Rule,
    a: PresenceView,
    b: PresenceView,
    c: PresenceView,
    seen2: Seq<(Seq<char>, Seq<MetaView>)>,
)
    requires
        forall|k: Seq<char>| #[trigger] built(entries, seen, rule, a, b, c, k),
        has_key(seen, entry.0),
        seen2 == seen.push(entry),
    ensures
        forall|k: Seq<char>| #[trigger] built(entries, seen2, rule, a, b, c, k),
{
    assert forall|k: Seq<char>| built(entries, seen2, rule, a, b, c, k) by {
        assert(built(entries, seen, rule, a, b, c, k));
        if has_key(seen2, k) {
            let i = choose|i: int| 0 <= i < seen2.len() && (#[trigger] seen2[i]).0 == k;
            if i < seen.len() {
                assert(seen[i].0 == k);
            }
        }
        if has_key(seen, k) {
            let i = choose|i: int| 0 <= i < seen.len() && (#[trigger] seen[i]).0 == k;
            assert(seen2[i].0 == k);
        }
    }
}

/// The entries of a list, each by its view.
pub open spec fn entries_view(entries: Seq<Presence>) -> Seq<(Seq<char>, Seq<MetaView>)> {
    Seq::new(entries.len(), |i: int| entries[i]@)
}

fn apply_rule(rule: &Rule, a: &Vec<PresenceMeta>, b: &Vec<PresenceMeta>, c: &Vec<PresenceMeta>) -> (out:
    Vec<PresenceMeta>)
    ensures
        metas_view(out@) == rule_metas(*rule, metas_view(a@), metas_view(b@), metas_view(c@)),
{
    match rule {
        Rule::Merged => {
            let joined = metas_joined(a, b);
            metas_without(&joined, c)
        },
        Rule::Removed => {
            let joined = metas_joined(a, b);
            metas_only(&joined, c)
        },
        Rule::Through => {
            let kept = metas_without(a, c);
            metas_joined(&kept, b)
        },
        Rule::Joined => {
            if b.len() > 0 {
                let joined = metas_joined(a, b);
                metas_without(&joined, c)
            } else {
                let out: Vec<PresenceMeta> = Vec::new();
                assert(metas_view(out@) =~= Seq::empty());
                out
            }
        },
    }
}

/// Who is present on a channel: for each key the metas under it.
#[derive(Debug)]
pub struct PresenceState {
    entries: Vec<Presence>,
}

impl View for PresenceState {
    type V = PresenceView;

    closed spec fn view(&self) -> PresenceView {
        map_of(entries_view(self.entries@))
    }
}

impl PresenceState {
    /// Whether the state is in order: no key twice, somebody under each
    /// key, no reference twice under one key.
    pub closed spec fn wf(&self) -> bool {
        entries_wf(entries_view(self.entries@))
    }

    /// A state that is in order is in order as a map.
    pub proof fn lemma_wf(&self)
        requires
            self.wf(),
        ensures
            presence_wf(self@),
    {
        lemma_map_of_wf(entries_view(self.entries@));
    }

    /// The state in which nobody is present.
    pub fn new() -> (out: PresenceState)
        ensures
            out.wf(),
            out@ == Map::<Seq<char>, Seq<MetaView>>::empty(),
    {
        let out = PresenceState { entries: Vec::new() };
        assert(entries_view(out.entries@) =~= Seq::empty());
        out
    }

    /// The number of keys that are present.
    pub fn len(&self) -> (n: usize)
        requires
            self.wf(),
        ensures
            n == self@.dom().len(),
    {
        proof {
            lemma_map_of_len(entries_view(self.entries@));
        }
        self.entries.len()
    }

    /// Whether nobody is present.
    pub fn is_empty(&self) -> (empty: bool)
        requires
            self.wf(),
        ensures
            empty == (self@ == Map::<Seq<char>, Seq<MetaView>>::empty()),
    {
        proof {
            lemma_map_of_len(entries_view(self.entries@));
            if self.entries.len() == 0 {
                assert(self@ =~= Map::<Seq<char>, Seq<MetaView>>::empty());
            }
        }
        self.entries.len() == 0
    }

    fn lookup(&self, key: &String) -> (found: Option<&Vec<PresenceMeta>>)
        requires
            self.wf(),
        ensures
            match found {
                Some(metas) => self@.contains_key(key@) && metas_view(metas@) == self@[key@],
                None => !self@.contains_key(key@),
            },
            metas_at(self@, key@) == match found {
                Some(metas) => metas_view(metas@),
                None => Seq::empty(),
            },
    {
        let ghost ev = entries_view(self.entries@);
        let mut i: usize = 0;
        while i < self.entries.len()
            invariant
                i <= self.entries.len(),
                ev == entries_view(self.entries@),
                self.wf(),
                forall|j: int| 0 <= j < i ==> (#[trigger] ev[j]).0 != key@,
            decreases self.entries.len() - i,
        {
            if self.entries[i].key == *key {
                proof {
                    lemma_map_of_entry(ev, i as int);
                }
                return Some(&self.entries[i].metas);
            }
            i += 1;
        }
        proof {
            lemma_map_of_keys(ev, key@);
        }
        None
    }

    /// The metas that are present under `key`, if any are.
    pub fn get(&self, key: &str) -> (found: Option<&Vec<PresenceMeta>>)
        requires
            self.wf(),
        ensures
            match found {
                Some(metas) => self@.contains_key(key@) && metas_view(metas@) == self@[key@],
                None => !self@.contains_key(key@),
            },
    {
        let owned = key.to_owned();
        self.lookup(&owned)
    }

    /// A copy of the metas that are present under `key`; none where the
    /// key is not present.
    pub fn metas_of(&self, key: &String) -> (out: Vec<PresenceMeta>)
        requires
            self.wf(),
        ensures
            metas_view(out@) == metas_at(self@, key@),
    {
        match self.lookup(key) {
            Some(metas) => metas_clone(metas),
            None => {
                let out: Vec<PresenceMeta> = Vec::new();
                assert(metas_view(out@) =~= Seq::empty());
                out
            },
        }
    }

    /// The keys that are present, each once.
    pub fn keys(&self) -> (out: Vec<String>)
        requires
            self.wf(),
        ensures
            out.len() == self@.dom().len(),
            forall|i: int| 0 <= i < out.len() ==> self@.contains_key(#[trigger] out[i]@),
            forall|k: Seq<char>|
                self@.contains_key(k) ==> exists|i: int| 0 <= i < out.len() && #[trigger] out[i]@ == k,
            forall|i: int, j: int| 0 <= i < j < out.len() ==> #[trigger] out[i]@ != #[trigger] out[j]@,
    {
        let ghost ev = entries_view(self.entries@);
        let mut out: Vec<String> = Vec::new();
        let mut i: usize = 0;
        while i < self.entries.len()
            invariant
                i <= self.entries.len(),
                out.len() == i,
                ev == entries_view(self.entries@),
                forall|j: int| 0 <= j < i ==> (#[trigger] out[j])@ == ev[j].0,
            decreases self.entries.len() - i,
        {
            out.push(self.entries[i].key.clone());
            i += 1;
        }
        proof {
            lemma_map_of_len(ev);
            assert forall|i: int| 0 <= i < out.len() implies self@.contains_key(#[trigger] out[i]@) by {
                lemma_map_of_entry(ev, i);
            }
            assert forall|k: Seq<char>| self@.contains_key(k) implies exists|i: int|
                0 <= i < out.len() && #[trigger] out[i]@ == k by {
                lemma_map_of_keys(ev, k);
                let i = choose|i: int| 0 <= i < ev.len() && (#[trigger] ev[i]).0 == k;
                assert(out[i]@ == k);
            }
            assert forall|i: int, j: int| 0 <= i < j < out.len() implies #[trigger] out[i]@
                != #[trigger] out[j]@ by {
                assert(ev[i].0 != ev[j].0);
            }
        }
        out
    }

    /// Puts `metas` under `key`, where nothing is under that key yet, the
    /// list is not empty and no two of its metas have one reference.
    /// Otherwise the state stays as it is and the answer is `false`.
    pub fn insert(&mut self, key: String, metas: Vec<PresenceMeta>) -> (added: bool)
        requires
            old(self).wf(),
        ensures
            final(self).wf(),
            added == (!old(self)@.contains_key(key@) && metas.len() > 0 && distinct_refs(
                metas_view(metas@),
            )),
            added ==> final(self)@ == old(self)@.insert(key@, metas_view(metas@)),
            !added ==> final(self)@ == old(self)@,
    {
        if self.lookup(&key).is_some() {
            return false;
        }
        if metas.len() == 0 {
            return false;
        }
        if !metas_distinct(&metas) {
            return false;
        }
        let ghost ev = entries_view(self.entries@);
        let ghost added_key = key@;
        let ghost added_metas = metas_view(metas@);
        proof {
            lemma_map_of_keys(ev, key@);
        }
        self.entries.push(Presence { key, metas });
        proof {
            let ev2 = entries_view(self.entries@);
            assert(ev2 =~= ev.push((added_key, added_metas)));
            assert(ev2.drop_last() =~= ev);
            assert forall|a: int, b: int| 0 <= a < b < ev2.len() implies (#[trigger] ev2[a]).0 != (
            #[trigger] ev2[b]).0 by {
                if b < ev.len() {
                    assert(ev[a].0 != ev[b].0);
                } else {
                    assert(ev[a].0 != added_key);
                }
            }
            assert forall|a: int| 0 <= a < ev2.len() implies (#[trigger] ev2[a]).1.len() > 0
                && distinct_refs(ev2[a].1) by {
                if a < ev.len() {
                    assert(ev[a].1.len() > 0);
                }
            }
        }
        true
    }

    /// Puts `meta` under `key`, behind the metas that are there. A meta whose
    /// reference is under the key already is not put there again: the state
    /// stays as it is and the answer is `false`.
    pub fn track(&mut self, key: &str, meta: PresenceMeta) -> (added: bool)
        requires
            old(self).wf(),
        ensures
            final(self).wf(),
            added == !has_ref(metas_at(old(self)@, key@), meta@.phx_ref),
            added ==> final(self)@ == old(self)@.insert(key@, metas_at(old(self)@, key@).push(meta@)),
            !added ==> final(self)@ == old(self)@,
    {
        let owned = key.to_owned();
        let ghost ev = entries_view(self.entries@);
        let mut i: usize = 0;
        while i < self.entries.len()
            invariant
                i <= self.entries.len(),
                ev == entries_view(self.entries@),
                *self == *old(self),
                self.wf(),
                owned@ == key@,
                forall|j: int| 0 <= j < i ==> (#[trigger] ev[j]).0 != key@,
            decreases self.entries.len() - i,
        {
            if self.entries[i].key == owned {
                proof {
                    lemma_map_of_entry(ev, i as int);
                }
                if contains_ref(&self.entries[i].metas, &meta.phx_ref) {
                    return false;
                }
                let mut metas = metas_clone(&self.entries[i].metas);
                let ghost before = metas_view(metas@);
                let ghost m = meta@;
                metas.push(meta);
                assert(metas_view(metas@) =~= before.push(m));
                self.entries.set(i, Presence { key: owned, metas });
                proof {
                    let ev2 = entries_view(self.entries@);
                    assert(ev2 =~= ev.update(i as int, (key@, before.push(m))));
                    assert forall|a: int, b: int| 0 <= a < b < ev2.len() implies (#[trigger] ev2[a]).0 != (
                    #[trigger] ev2[b]).0 by {
                        assert(ev[a].0 != ev[b].0);
                    }
                    assert forall|a: int| 0 <= a < ev2.len() implies (#[trigger] ev2[a]).1.len() > 0
                        && distinct_refs(ev2[a].1) by {
                        assert(ev[a].1.len() > 0);
                        if a == i {
                            let list = before.push(m);
                            assert forall|x: int, y: int| 0 <= x < y < list.len() implies #[trigger] list[x].phx_ref
                                != #[trigger] list[y].phx_ref by {
                                if y == before.len() {
                                    if before[x].phx_ref == m.phx_ref {
                                        assert(has_ref(before, m.phx_ref));
                                    }
                                } else {
                                    assert(before[x].phx_ref != before[y].phx_ref);
                                }
                            }
                        }
                    }
                    lemma_map_update(ev, i as int, before.push(m));
                }
                return true;
            }
            i += 1;
        }
        proof {
            lemma_map_of_keys(ev, key@);
        }
        let ghost m = meta@;
        let mut metas: Vec<PresenceMeta> = Vec::new();
        metas.push(meta);
        assert(metas_view(metas@) =~= Seq::<MetaView>::empty().push(m));
        self.entries.push(Presence { key: owned, metas });
        proof {
            let ev2 = entries_view(self.entries@);
            assert(ev2 =~= ev.push((key@, Seq::<MetaView>::empty().push(m))));
            assert(ev2.drop_last() =~= ev);
            assert forall|a: int, b: int| 0 <= a < b < ev2.len() implies (#[trigger] ev2[a]).0 != (
            #[trigger] ev2[b]).0 by {
                if b < ev.len() {
                    assert(ev[a].0 != ev[b].0);
                } else {
                    assert(ev[a].0 != key@);
                }
            }
            assert forall|a: int| 0 <= a < ev2.len() implies (#[trigger] ev2[a]).1.len() > 0
                && distinct_refs(ev2[a].1) by {
                if a < ev.len() {
                    assert(ev[a].1.len() > 0);
                }
            }
        }
        true
    }

    /// Under each key what `rule` makes of the metas that `a`, `b` and `c`
    /// hold under it.
    fn assemble(rule: Rule, a: &PresenceState, b: &PresenceState, c: &PresenceState) -> (out:
        PresenceState)
        requires
            a.wf(),
            b.wf(),
            c.wf(),
        ensures
            out.wf(),
            out@ == assembled(rule, a@, b@, c@),
    {
        let empty: Vec<PresenceMeta> = Vec::new();
        assert(metas_view(empty@) =~= Seq::empty());
        let ghost av = entries_view(a.entries@);
        let ghost bv = entries_view(b.entries@);
        proof {
            a.lemma_wf();
            b.lemma_wf();
        }
        let mut entries: Vec<Presence> = Vec::new();
        assert(entries_view(entries@) =~= Seq::empty());
        assert(av.take(0) =~= Seq::empty());
        let mut i: usize = 0;
        while i < a.entries.len()
            invariant
                i <= a.entries.len(),
                a.wf(),
                b.wf(),
                c.wf(),
                presence_wf(a@),
                presence_wf(b@),
                av == entries_view(a.entries@),
                metas_view(empty@) == Seq::<MetaView>::empty(),
                entries_wf(entries_view(entries@)),
                forall|k: Seq<char>| #[trigger]
                    built(entries_view(entries@), av.take(i as int), rule, a@, b@, c@, k),
            decreases a.entries.len() - i,
        {
            let entry = &a.entries[i];
            let joins = match b.lookup(&entry.key) {
                Some(metas) => metas,
                None => &empty,
            };
            let leaves = match c.lookup(&entry.key) {
                Some(metas) => metas,
                None => &empty,
            };
            let metas = apply_rule(&rule, &entry.metas, joins, leaves);
            proof {
                lemma_map_of_entry(av, i as int);
                assert(!has_key(av.take(i as int), av[i as int].0)) by {
                    if has_key(av.take(i as int), av[i as int].0) {
                        let j = choose|j: int|
                            0 <= j < i && (#[trigger] av.take(i as int)[j]).0 == av[i as int].0;
                        assert(av[j].0 != av[i as int].0);
                    }
                }
                assert(av.take(i as int).push(av[i as int]) =~= av.take(i + 1));
            }
            let ghost before = entries_view(entries@);
            let ghost wanted = rule_at(rule, a@, b@, c@, av[i as int].0);
            if metas.len() > 0 {
                entries.push(Presence { key: entry.key.clone(), metas });
                assert(entries_view(entries@) =~= before.push((av[i as int].0, wanted)));
            }
            proof {
                let next = if wanted.len() > 0 {
                    before.push((av[i as int].0, wanted))
                } else {
                    before
                };
                assert(entries_view(entries@) == next);
                lemma_built_step(
                    before,
                    av.take(i as int),
                    av[i as int],
                    rule,
                    a@,
                    b@,
                    c@,
                    next,
                    av.take(i + 1),
                );
            }
            i += 1;
        }
        assert(av.take(a.entries.len() as int) =~= av);
        assert(av + bv.take(0) =~= av);
        let mut i: usize = 0;
        while i < b.entries.len()
            invariant
                i <= b.entries.len(),
                a.wf(),
                b.wf(),
                c.wf(),
                presence_wf(a@),
                presence_wf(b@),
                av == entries_view(a.entries@),
                bv == entries_view(b.entries@),
                metas_view(empty@) == Seq::<MetaView>::empty(),
                entries_wf(entries_view(entries@)),
                forall|k: Seq<char>| #[trigger]
                    built(entries_view(entries@), av + bv.take(i as int), rule, a@, b@, c@, k),
            decreases b.entries.len() - i,
        {
            let entry = &b.entries[i];
            let ghost seen = av + bv.take(i as int);
            proof {
                lemma_map_of_entry(bv, i as int);
                lemma_map_of_keys(av, bv[i as int].0);
                assert(seen.push(bv[i as int]) =~= av + bv.take(i + 1));
            }
            if a.lookup(&entry.key).is_none() {
                let leaves = match c.lookup(&entry.key) {
                    Some(metas) => metas,
                    None => &empty,
                };
                let metas = apply_rule(&rule, &empty, &entry.metas, leaves);
                proof {
                    assert(!has_key(seen, bv[i as int].0)) by {
                        if has_key(seen, bv[i as int].0) {
                            let j = choose|j: int|
                                0 <= j < seen.len() && (#[trigger] seen[j]).0 == bv[i as int].0;
                            if j < av.len() {
                                assert(av[j].0 == bv[i as int].0);
                            } else {
                                assert(bv[j - av.len()].0 != bv[i as int].0);
                            }
                        }
                    }
                }
                let ghost before = entries_view(entries@);
                let ghost wanted = rule_at(rule, a@, b@, c@, bv[i as int].0);
                if metas.len() > 0 {
                    entries.push(Presence { key: entry.key.clone(), metas });
                    assert(entries_view(entries@) =~= before.push((bv[i as int].0, wanted)));
                }
                proof {
                    let next = if wanted.len() > 0 {
                        before.push((bv[i as int].0, wanted))
                    } else {
                        before
                    };
                    assert(entries_view(entries@) == next);
                    lemma_built_step(
                        before,
                        seen,
                        bv[i as int],
                        rule,
                        a@,
                        b@,
                        c@,
                        next,
                        av + bv.take(i + 1),
                    );
                }
            } else {
                proof {
                    let j = choose|j: int| 0 <= j < av.len() && (#[trigger] av[j]).0 == bv[i as int].0;
                    assert(seen[j].0 == bv[i as int].0);
                    lemma_built_again(
                        entries_view(entries@),
                        seen,
                        bv[i as int],
                        rule,
                        a@,
                        b@,
                        c@,
                        av + bv.take(i + 1),
                    );
                }
            }
            i += 1;
        }
        let out = PresenceState { entries };
        proof {
            let ev = entries_view(out.entries@);
            let all = av + bv;
            assert(bv.take(b.entries.len() as int) =~= bv);
            assert forall|k: Seq<char>| metas_at(out@, k) == rule_at(rule, a@, b@, c@, k) by {
                assert(built(ev, all, rule, a@, b@, c@, k));
                if !has_key(all, k) {
                    lemma_map_of_keys(av, k);
                    lemma_map_of_keys(bv, k);
                    if has_key(av, k) {
                        let j = choose|j: int| 0 <= j < av.len() && (#[trigger] av[j]).0 == k;
                        assert(all[j].0 == k);
                    }
                    if has_key(bv, k) {
                        let j = choose|j: int| 0 <= j < bv.len() && (#[trigger] bv[j]).0 == k;
                        assert(all[j + av.len()].0 == k);
                    }
                    lemma_rule_distinct(rule, metas_at(a@, k), metas_at(b@, k), metas_at(c@, k));
                }
            }
            lemma_map_of_wf(ev);
            assert forall|k: Seq<char>| out@.contains_key(k) <==> rule_at(rule, a@, b@, c@, k).len()
                > 0 by {
                assert(metas_at(out@, k) == rule_at(rule, a@, b@, c@, k));
            }
            assert forall|k: Seq<char>| out@.contains_key(k) implies out@[k] == rule_at(
                rule,
                a@,
                b@,
                c@,
                k,
            ) by {
                assert(metas_at(out@, k) == rule_at(rule, a@, b@, c@, k));
            }
            assert(out@ =~= assembled(rule, a@, b@, c@));
        }
        out
    }
}

/// Putting other metas under a key that stands once changes the map under
/// that key alone.
proof fn lemma_map_update(entries: Seq<(Seq<char>, Seq<MetaView>)>, i: int, metas: Seq<MetaView>)
    requires
        forall|a: int, b: int|
            0 <= a < b < entries.len() ==> (#[trigger] entries[a]).0 != (#[trigger] entries[b]).0,
        0 <= i < entries.len(),
    ensures
        map_of(entries.update(i, (entries[i].0, metas))) == map_of(entries).insert(entries[i].0, metas),
    decreases entries.len(),
{
    let key = entries[i].0;
    let updated = entries.update(i, (key, metas));
    let init = entries.drop_last();
    if i == entries.len() - 1 {
        assert(updated.drop_last() =~= init);
        assert(map_of(updated) =~= map_of(entries).insert(key, metas));
    } else {
        assert forall|a: int, b: int| 0 <= a < b < init.len() implies (#[trigger] init[a]).0 != (
        #[trigger] init[b]).0 by {
            assert(entries[a].0 != entries[b].0);
        }
        lemma_map_update(init, i, metas);
        assert(updated.drop_last() =~= init.update(i, (key, metas)));
        assert(entries[i].0 != entries[entries.len() - 1].0);
        assert(map_of(updated) =~= map_of(entries).insert(key, metas));
    }
}

impl Clone for PresenceState {
    fn clone(&self) -> (res: PresenceState)
        ensures
            res@ == self@,
            self.wf() ==> res.wf(),
    {
        let mut entries: Vec<Presence> = Vec::new();
        let mut i: usize = 0;
        while i < self.entries.len()
            invariant
                i <= self.entries.len(),
                entries.len() == i,
                forall|j: int| 0 <= j < i ==> entries[j]@ == self.entries[j]@,
            decreases self.entries.len() - i,
        {
            let entry = &self.entries[i];
            entries.push(Presence { key: entry.key.clone(), metas: metas_clone(&entry.metas) });
            i += 1;
        }
        assert(entries_view(entries@) =~= entries_view(self.entries@));
        PresenceState { entries }
    }
}

/// A presence diff as the server sends it: who joined and who left.
#[derive(Debug)]
pub struct PresenceDiff {
    pub joins: PresenceState,
    pub leaves: PresenceState,
}

impl View for PresenceDiff {
    type V = DiffView;

    open spec fn view(&self) -> DiffView {
        DiffView { joins: self.joins@, leaves: self.leaves@ }
    }
}

/// What merging a diff gives: the state afterwards, and what the diff
/// reports as joined and as left.
#[derive(Debug)]
pub struct PresenceMerge {
    pub next: PresenceState,
    pub joined: PresenceState,
    pub left: PresenceState,
}

impl PresenceDiff {
    /// Whether both halves of the diff are in order.
    pub open spec fn wf(&self) -> bool {
        self.joins.wf() && self.leaves.wf()
    }

    /// The one diff that does what `self` and then `second` do.
    pub fn combine(&self, second: &PresenceDiff) -> (out: PresenceDiff)
        requires
            self.wf(),
            second.wf(),
        ensures
            out.wf(),
            out@ == combine_diffs(self@, second@),
    {
        let joins = PresenceState::assemble(Rule::Through, &self.joins, &second.joins, &self.leaves);
        let leaves = PresenceState::assemble(Rule::Through, &self.leaves, &second.leaves, &second.joins);
        let out = PresenceDiff { joins, leaves };
        proof {
            assert(out@.joins =~= combine_diffs(self@, second@).joins);
            assert(out@.leaves =~= combine_diffs(self@, second@).leaves);
        }
        out
    }
}

impl PresenceState {
    /// Merges a diff into the state: under each key the joining metas come
    /// in behind those that stay, then the leaving ones go, and a key with
    /// nobody left under it goes too. The state itself is not changed; the
    /// new one is handed back with what joined and what left.
    pub fn merge(&self, diff: &PresenceDiff) -> (out: PresenceMerge)
        requires
            self.wf(),
            diff.wf(),
        ensures
            out.next.wf(),
            out.joined.wf(),
            out.left.wf(),
            out.next@ == merge_next(self@, diff@),
            out.joined@ == merge_joined(self@, diff@),
            out.left@ == merge_left(self@, diff@),
    {
        let next = PresenceState::assemble(Rule::Merged, self, &diff.joins, &diff.leaves);
        let joined = PresenceState::assemble(Rule::Joined, self, &diff.joins, &diff.leaves);
        let left = PresenceState::assemble(Rule::Removed, self, &diff.joins, &diff.leaves);
        proof {
            diff.joins.lemma_wf();
            assert(next@ =~= merge_next(self@, diff@));
            assert(left@ =~= merge_left(self@, diff@));
            assert(joined@ =~= merge_joined(self@, diff@));
        }
        PresenceMerge { next, joined, left }
    }
}

} // verus!
