//! The durable traversal state: the groups still to visit, per binding.

use crate::fetcher::{summaries_view, GroupSummary, GroupSummaryView};
use crate::order::{key_lt, key_order, lemma_key_order, KeyOrder};
use crate::pull::{next_replays, spec_next, OutOfTurn, Step, StepInput, Walk};
use crate::walk::{lineage_to, position};
use std::collections::VecDeque;
use vstd::prelude::*;
use vstd::string::*;

verus! {

/// An instant, in nanoseconds since the Unix epoch. Two instants compare as
/// their nanosecond counts do, whatever offset they were written with.
#[derive(Debug, Clone, Copy, PartialEq, Eq, Structural)]
pub struct Timestamp {
    pub unix_nanos: i128,
}

/// The nanosecond count of an optional instant.
pub open spec fn instant(t: Option<Timestamp>) -> Option<int> {
    match t {
        Some(t) => Some(t.unix_nanos as int),
        None => None,
    }
}

/// A group of the remote hierarchy that still has work pending.
#[derive(Debug, PartialEq, Eq)]
pub struct TodoGroup {
    pub id: String,
    pub name: String,
    /// The child groups were not listed yet.
    pub must_fetch_children: bool,
    /// The replays directly in the group were not listed yet.
    pub must_fetch_replays: bool,
    /// The children that are known and not finished, in the order they were listed.
    pub children: VecDeque<TodoGroup>,
}

/// Model of a [`TodoGroup`].
pub struct GroupView {
    pub id: Seq<char>,
    pub name: Seq<char>,
    pub must_fetch_children: bool,
    pub must_fetch_replays: bool,
    pub children: Seq<GroupView>,
}

impl GroupView {
    /// A group is done when nothing is left to list for it and no child remains.
    pub open spec fn is_done(self) -> bool {
        !self.must_fetch_children && !self.must_fetch_replays && self.children.len() == 0
    }

    /// The group as a listing first reports it: a nonzero indirect count
    /// means children to list, a nonzero direct count means replays to list.
    pub open spec fn from_summary(gs: GroupSummaryView) -> GroupView {
        GroupView {
            id: gs.id,
            name: gs.name,
            must_fetch_children: gs.indirect_replays matches Some(n) && n > 0,
            must_fetch_replays: gs.direct_replays matches Some(n) && n > 0,
            children: Seq::empty(),
        }
    }
}

/// The model of a group, children included.
pub open spec fn group_view(g: TodoGroup) -> GroupView
    decreases g,
{
    GroupView {
        id: g.id@,
        name: g.name@,
        must_fetch_children: g.must_fetch_children,
        must_fetch_replays: g.must_fetch_replays,
        children: Seq::new(
            g.children@.len(),
            |i: int|
                if 0 <= i < g.children@.len() {
                    group_view(g.children@[i])
                } else {
                    arbitrary()
                },
        ),
    }
}

/// The models of a queue of groups, in order.
pub open spec fn groups_view(gs: Seq<TodoGroup>) -> Seq<GroupView> {
    Seq::new(gs.len(), |i: int| group_view(gs[i]))
}

impl View for TodoGroup {
    type V = GroupView;

    open spec fn view(&self) -> GroupView {
        group_view(*self)
    }
}

/// The model of a group is made of its fields and of the models of its children.
pub proof fn lemma_group_view(g: TodoGroup)
    ensures
        g@.id == g.id@,
        g@.name == g.name@,
        g@.must_fetch_children == g.must_fetch_children,
        g@.must_fetch_replays == g.must_fetch_replays,
        g@.children == groups_view(g.children@),
{
    assert(g@.children =~= groups_view(g.children@));
}

impl TodoGroup {
    /// Whether nothing is left to list for the group and no child remains.
    pub fn is_done(&self) -> (done: bool)
        ensures
            done == self@.is_done(),
    {
        proof {
            lemma_group_view(*self);
        }
        !self.must_fetch_children && !self.must_fetch_replays && self.children.len() == 0
    }

    /// The group that a listed summary stands for, with no child known yet.
    pub fn from(gs: GroupSummary) -> (group: TodoGroup)
        ensures
            group@ == GroupView::from_summary(gs@),
    {
        let must_fetch_children = match gs.indirect_replays {
            Some(n) => n > 0,
            None => false,
        };
        let must_fetch_replays = match gs.direct_replays {
            Some(n) => n > 0,
            None => false,
        };
        let group = TodoGroup {
            id: gs.id,
            name: gs.name,
            must_fetch_children,
            must_fetch_replays,
            children: VecDeque::new(),
        };
        proof {
            lemma_group_view(group);
            assert(group@.children =~= Seq::empty());
        }
        group
    }
}

/// Selects the groups that still have work.
pub open spec fn is_pending() -> spec_fn(GroupView) -> bool {
    |g: GroupView| !g.is_done()
}

/// The groups of a queue that still have work, in their order.
pub open spec fn pending_of(groups: Seq<GroupView>) -> Seq<GroupView> {
    groups.filter(is_pending())
}

/// The groups that a listing leaves to visit: each summary as a group,
/// without those that are done from the start.
pub open spec fn listed_groups(list: Seq<GroupSummaryView>) -> Seq<GroupView> {
    pending_of(list.map_values(|gs: GroupSummaryView| GroupView::from_summary(gs)))
}

/// Drops the groups that are done; the others keep their order.
pub fn prune(groups: &mut VecDeque<TodoGroup>)
    ensures
        groups_view(final(groups)@) == pending_of(groups_view(old(groups)@)),
{
    let mut all: VecDeque<TodoGroup> = VecDeque::new();
    core::mem::swap(groups, &mut all);
    let ghost before = groups_view(all@);
    let ghost mut taken: int = 0;
    proof {
        reveal(Seq::filter);
        assert(before.take(0).filter(is_pending()) =~= groups_view(groups@));
        assert(before.skip(0) =~= before);
    }
    while all.len() > 0
        invariant
            0 <= taken <= before.len(),
            groups_view(all@) == before.skip(taken),
            groups_view(groups@) == before.take(taken).filter(is_pending()),
        decreases all@.len(),
    {
        let ghost kept = groups_view(groups@);
        let ghost rest = all@;
        if let Some(group) = all.pop_front() {
            proof {
                reveal(Seq::filter);
                assert(groups_view(rest).len() == rest.len());
                assert(before.skip(taken).len() == before.len() - taken);
                assert(taken < before.len());
                assert(group@ == groups_view(rest)[0]);
                assert(group@ == before[taken]);
                assert forall|i: int| 0 <= i < all@.len() implies #[trigger] groups_view(all@)[i]
                    == before[taken + 1 + i] by {
                    assert(all@[i] == rest[i + 1]);
                    assert(groups_view(rest)[i + 1] == before.skip(taken)[i + 1]);
                }
                assert(groups_view(all@) =~= before.skip(taken + 1));
                assert(before.take(taken + 1).drop_last() =~= before.take(taken));
                assert(before.take(taken + 1).last() == group@);
            }
            if !group.is_done() {
                groups.push_back(group);
                assert(groups_view(groups@) =~= kept.push(group@));
            }
            proof {
                taken = taken + 1;
            }
        }
    }
    assert(before.take(before.len() as int) =~= before);
}

/// Turns a listing into the groups it leaves to visit.
pub fn pending_groups(list: Vec<GroupSummary>) -> (groups: VecDeque<TodoGroup>)
    ensures
        groups_view(groups@) == listed_groups(summaries_view(list@)),
{
    let ghost made = summaries_view(list@).map_values(
        |gs: GroupSummaryView| GroupView::from_summary(gs),
    );
    let mut groups: VecDeque<TodoGroup> = VecDeque::new();
    proof {
        reveal(Seq::filter);
        assert(made.take(0).filter(is_pending()) =~= groups_view(groups@));
    }
    for summary in it: list
        invariant
            made == summaries_view(list@).map_values(
                |gs: GroupSummaryView| GroupView::from_summary(gs),
            ),
            groups_view(groups@) == made.take(it.index() as int).filter(is_pending()),
    {
        let ghost kept = groups_view(groups@);
        let ghost i = it.index() as int;
        let group = TodoGroup::from(summary);
        proof {
            reveal(Seq::filter);
            assert(made.take(i + 1).drop_last() =~= made.take(i));
            assert(made.take(i + 1).last() == group@);
        }
        if !group.is_done() {
            groups.push_back(group);
            assert(groups_view(groups@) =~= kept.push(group@));
        }
    }
    assert(made.take(made.len() as int) =~= made);
    groups
}

/// One step of a lineage: the id and the name of a group.
#[derive(Debug, Clone, PartialEq, Eq)]
pub struct ParentGroup {
    pub id: String,
    pub name: String,
}

impl View for ParentGroup {
    type V = (Seq<char>, Seq<char>);

    open spec fn view(&self) -> (Seq<char>, Seq<char>) {
        (self.id@, self.name@)
    }
}

/// The `(id, name)` pairs of a lineage, outermost group first.
pub open spec fn lineage_view(l: Seq<ParentGroup>) -> Seq<(Seq<char>, Seq<char>)> {
    Seq::new(l.len(), |i: int| l[i]@)
}

/// Sweep progress of one binding.
#[derive(Debug, PartialEq, Eq)]
pub struct BindingState {
    pub collection_name: String,
    pub creator_id: String,
    /// When the sweep in progress began; `None` between sweeps.
    pub sweep_start: Option<Timestamp>,
    /// When the last finished sweep began: replays created at or before it
    /// were captured already.
    pub last_completed_sweep: Option<Timestamp>,
    /// The top-level groups still to visit, front first.
    pub todo_groups: VecDeque<TodoGroup>,
}

/// Model of a [`BindingState`].
pub struct BindingView {
    pub collection_name: Seq<char>,
    pub creator_id: Seq<char>,
    pub sweep_start: Option<int>,
    pub last_completed_sweep: Option<int>,
    pub todo_groups: Seq<GroupView>,
}

impl BindingView {
    /// The state of a binding that was never swept.
    pub open spec fn empty(collection: Seq<char>, creator_id: Seq<char>) -> BindingView {
        BindingView {
            collection_name: collection,
            creator_id,
            sweep_start: None,
            last_completed_sweep: None,
            todo_groups: Seq::empty(),
        }
    }

    /// The frontier is empty.
    pub open spec fn is_sweep_complete(self) -> bool {
        self.todo_groups.len() == 0
    }

    /// A sweep begins at `now` with the listed top-level `groups`.
    pub open spec fn start_sweep(self, now: int, groups: Seq<GroupView>) -> BindingView {
        BindingView { sweep_start: Some(now), todo_groups: self.todo_groups + groups, ..self }
    }

    /// The sweep in progress becomes the last completed one.
    pub open spec fn finish_sweep(self) -> BindingView {
        BindingView { last_completed_sweep: self.sweep_start, sweep_start: None, ..self }
    }
}

impl View for BindingState {
    type V = BindingView;

    open spec fn view(&self) -> BindingView {
        BindingView {
            collection_name: self.collection_name@,
            creator_id: self.creator_id@,
            sweep_start: instant(self.sweep_start),
            last_completed_sweep: instant(self.last_completed_sweep),
            todo_groups: groups_view(self.todo_groups@),
        }
    }
}

impl BindingState {
    /// The state of a binding that was never swept.
    pub fn new(collection: &str, creator_id: &str) -> (state: BindingState)
        ensures
            state@ == BindingView::empty(collection@, creator_id@),
    {
        let state = BindingState {
            collection_name: String::from_str(collection),
            creator_id: String::from_str(creator_id),
            sweep_start: None,
            last_completed_sweep: None,
            todo_groups: VecDeque::new(),
        };
        assert(state@.todo_groups =~= Seq::empty());
        state
    }

    /// Begins a sweep: `now` becomes its start, and the listed top-level
    /// groups join the frontier behind what is already there.
    pub fn start_sweep(&mut self, now: Timestamp, groups: VecDeque<TodoGroup>)
        ensures
            final(self)@ == old(self)@.start_sweep(now.unix_nanos as int, groups_view(groups@)),
    {
        let mut listed = groups;
        self.sweep_start = Some(now);
        self.todo_groups.append(&mut listed);
        assert(groups_view(self.todo_groups@) =~= groups_view(old(self).todo_groups@)
            + groups_view(groups@));
    }

    /// Whether the frontier is empty: no sweep is in progress, or the one
    /// in progress has nothing left to visit.
    pub fn is_sweep_complete(&self) -> (complete: bool)
        ensures
            complete == self@.is_sweep_complete(),
    {
        self.todo_groups.len() == 0
    }

    /// Ends the sweep in progress: its start becomes the watermark of the next one.
    pub fn finish_sweep(&mut self)
        ensures
            final(self)@ == old(self)@.finish_sweep(),
    {
        self.last_completed_sweep = self.sweep_start;
        self.sweep_start = None;
    }
}

/// A configured binding: the creator whose groups are swept, and the
/// collection that takes the replays.
#[derive(Debug, Clone, PartialEq, Eq)]
pub struct BindingSpec {
    pub creator_id: String,
    pub collection_name: String,
}

/// Model of a [`BindingSpec`].
pub struct BindingSpecView {
    pub creator_id: Seq<char>,
    pub collection_name: Seq<char>,
}

impl View for BindingSpec {
    type V = BindingSpecView;

    open spec fn view(&self) -> BindingSpecView {
        BindingSpecView { creator_id: self.creator_id@, collection_name: self.collection_name@ }
    }
}

/// The view of each configured binding, in order.
pub open spec fn specs_view(bindings: Seq<BindingSpec>) -> Seq<BindingSpecView> {
    Seq::new(bindings.len(), |i: int| bindings[i]@)
}

/// The key of a binding: the creator id, a semicolon, the collection name.
pub open spec fn spec_binding_key(creator_id: Seq<char>, collection_name: Seq<char>) -> Seq<char> {
    creator_id + ";"@ + collection_name
}

/// Makes the key of a binding.
pub fn binding_key(creator_id: &str, collection_name: &str) -> (key: String)
    ensures
        key@ == spec_binding_key(creator_id@, collection_name@),
{
    String::from_str(creator_id).concat(";").concat(collection_name)
}

impl BindingSpecView {
    /// The key of the binding.
    pub open spec fn key(self) -> Seq<char> {
        spec_binding_key(self.creator_id, self.collection_name)
    }
}

/// Some configured binding has the key.
pub open spec fn is_configured(bindings: Seq<BindingSpecView>, key: Seq<char>) -> bool {
    exists|i: int| 0 <= i < bindings.len() && (#[trigger] bindings[i]).key() == key
}

/// `i` is the last configured binding with the key.
pub open spec fn is_last_with_key(bindings: Seq<BindingSpecView>, key: Seq<char>, i: int) -> bool {
    &&& 0 <= i < bindings.len()
    &&& bindings[i].key() == key
    &&& forall|j: int| i < j < bindings.len() ==> (#[trigger] bindings[j]).key() != key
}

/// The state after every configured binding that had no entry got an empty
/// one, the bindings taken in order.
pub open spec fn seeded(
    state: Map<Seq<char>, BindingView>,
    bindings: Seq<BindingSpecView>,
) -> Map<Seq<char>, BindingView>
    decreases bindings.len(),
{
    if bindings.len() == 0 {
        state
    } else {
        let before = seeded(state, bindings.drop_last());
        let b = bindings.last();
        if before.dom().contains(b.key()) {
            before
        } else {
            before.insert(b.key(), BindingView::empty(b.collection_name, b.creator_id))
        }
    }
}

/// The state brought in line with the configured bindings: seeded, and
/// without the entries of keys that no binding has.
pub open spec fn spec_reconcile(
    state: Map<Seq<char>, BindingView>,
    bindings: Seq<BindingSpecView>,
) -> Map<Seq<char>, BindingView> {
    seeded(state, bindings).restrict(Set::new(|k: Seq<char>| is_configured(bindings, k)))
}

/// What seeding does: the keys are those of the state and of the bindings;
/// an entry of the state stays as it is; a key that only a binding has
/// holds the empty state of a binding with that key.
pub proof fn lemma_seeded(state: Map<Seq<char>, BindingView>, bindings: Seq<BindingSpecView>)
    ensures
        forall|k: Seq<char>| #[trigger]
            seeded(state, bindings).dom().contains(k) <==> (state.dom().contains(k)
                || is_configured(bindings, k)),
        forall|k: Seq<char>|
            state.dom().contains(k) ==> #[trigger] seeded(state, bindings)[k] == state[k],
        forall|k: Seq<char>|
            is_configured(bindings, k) && !state.dom().contains(k) ==> exists|i: int|
                0 <= i < bindings.len() && (#[trigger] bindings[i]).key() == k && seeded(
                    state,
                    bindings,
                )[k] == BindingView::empty(bindings[i].collection_name, bindings[i].creator_id),
    decreases bindings.len(),
{
    if bindings.len() > 0 {
        let front = bindings.drop_last();
        let b = bindings.last();
        lemma_seeded(state, front);
        assert forall|k: Seq<char>| is_configured(bindings, k) <==> (is_configured(front, k)
            || k == b.key()) by {
            if is_configured(bindings, k) {
                let i = choose|i: int| 0 <= i < bindings.len() && (#[trigger] bindings[i]).key() == k;
                if i < front.len() {
                    assert(front[i].key() == k);
                }
            }
            if is_configured(front, k) {
                let i = choose|i: int| 0 <= i < front.len() && (#[trigger] front[i]).key() == k;
                assert(bindings[i].key() == k);
            }
            if k == b.key() {
                assert(bindings[bindings.len() - 1].key() == k);
            }
        }
        assert forall|k: Seq<char>| #[trigger]
            seeded(state, bindings).dom().contains(k) <==> (state.dom().contains(k)
                || is_configured(bindings, k)) by {
            assert(seeded(state, front).dom().contains(k) <==> (state.dom().contains(k)
                || is_configured(front, k)));
        }
        assert forall|k: Seq<char>|
            is_configured(bindings, k) && !state.dom().contains(k) implies exists|i: int|
            0 <= i < bindings.len() && (#[trigger] bindings[i]).key() == k && seeded(
                state,
                bindings,
            )[k] == BindingView::empty(bindings[i].collection_name, bindings[i].creator_id) by {
            assert(seeded(state, front).dom().contains(k) <==> (state.dom().contains(k)
                || is_configured(front, k)));
            if is_configured(front, k) {
                let i = choose|i: int|
                    0 <= i < front.len() && (#[trigger] front[i]).key() == k && seeded(
                        state,
                        front,
                    )[k] == BindingView::empty(front[i].collection_name, front[i].creator_id);
                assert(bindings[i].key() == k);
            } else {
                assert(bindings[bindings.len() - 1].key() == k);
            }
        }
    }
}

/// Reconciliation keeps exactly the configured keys. A configured key that
/// the state had keeps its binding untouched; one that it lacked gets the
/// empty state of a binding with that key; a key that no binding has is
/// dropped.
pub proof fn reconcile_law(state: Map<Seq<char>, BindingView>, bindings: Seq<BindingSpecView>)
    ensures
        forall|k: Seq<char>| #[trigger]
            spec_reconcile(state, bindings).dom().contains(k) <==> is_configured(bindings, k),
        forall|k: Seq<char>|
            is_configured(bindings, k) && state.dom().contains(k) ==> #[trigger] spec_reconcile(
                state,
                bindings,
            )[k] == state[k],
        forall|k: Seq<char>|
            is_configured(bindings, k) && !state.dom().contains(k) ==> exists|i: int|
                0 <= i < bindings.len() && (#[trigger] bindings[i]).key() == k && spec_reconcile(
                    state,
                    bindings,
                )[k] == BindingView::empty(bindings[i].collection_name, bindings[i].creator_id),
{
    lemma_seeded(state, bindings);
    assert forall|k: Seq<char>| #[trigger]
        spec_reconcile(state, bindings).dom().contains(k) <==> is_configured(bindings, k) by {
        assert(seeded(state, bindings).dom().contains(k) <==> (state.dom().contains(k)
            || is_configured(bindings, k)));
    }
    assert forall|k: Seq<char>|
        is_configured(bindings, k) && !state.dom().contains(k) implies exists|i: int|
        0 <= i < bindings.len() && (#[trigger] bindings[i]).key() == k && spec_reconcile(
            state,
            bindings,
        )[k] == BindingView::empty(bindings[i].collection_name, bindings[i].creator_id) by {
        let i = choose|i: int|
            0 <= i < bindings.len() && (#[trigger] bindings[i]).key() == k && seeded(
                state,
                bindings,
            )[k] == BindingView::empty(bindings[i].collection_name, bindings[i].creator_id);
        assert(bindings[i].key() == k);
    }
}

/// More bindings are configured than an index of 32 bits can number.
#[derive(Debug, Clone, Copy, PartialEq, Eq, Structural)]
pub struct TooManyBindings;

/// The last configured binding with the key, if any has it.
fn last_with_key(bindings: &Vec<BindingSpec>, key: &str) -> (found: Option<usize>)
    ensures
        match found {
            Some(i) => is_last_with_key(specs_view(bindings@), key@, i as int),
            None => !is_configured(specs_view(bindings@), key@),
        },
{
    let mut i = bindings.len();
    while i > 0
        invariant
            i <= bindings.len(),
            forall|j: int| i <= j < bindings.len() ==> (#[trigger] specs_view(bindings@)[j]).key() != key@,
        decreases i,
    {
        i -= 1;
        let candidate = binding_key(
            bindings[i].creator_id.as_str(),
            bindings[i].collection_name.as_str(),
        );
        assert(candidate@ == specs_view(bindings@)[i as int].key());
        if candidate == String::from_str(key) {
            return Some(i);
        }
    }
    None
}

/// An entry of the state in key order: the key and the model of its binding.
pub type EntryView = (Seq<char>, BindingView);

/// Each key comes before every later one; so no key occurs twice.
pub open spec fn keys_sorted(entries: Seq<EntryView>) -> bool {
    forall|i: int, j: int|
        0 <= i < j < entries.len() ==> key_lt((#[trigger] entries[i]).0, (#[trigger] entries[j]).0)
}

/// Every binding with its sweep ended, the keys as they were.
pub open spec fn finished(entries: Seq<EntryView>) -> Seq<EntryView> {
    Seq::new(entries.len(), |i: int| (entries[i].0, entries[i].1.finish_sweep()))
}

/// Some entry has the key.
pub open spec fn has_key(entries: Seq<EntryView>, key: Seq<char>) -> bool {
    exists|i: int| 0 <= i < entries.len() && (#[trigger] entries[i]).0 == key
}

/// The mapping that a sequence of entries stands for.
pub open spec fn map_of(entries: Seq<EntryView>) -> Map<Seq<char>, BindingView>
    decreases entries.len(),
{
    if entries.len() == 0 {
        Map::empty()
    } else {
        map_of(entries.drop_last()).insert(entries.last().0, entries.last().1)
    }
}

/// Where no key occurs twice, the mapping holds each entry under its key
/// and nothing else.
pub proof fn lemma_map_of(entries: Seq<EntryView>)
    requires
        keys_sorted(entries),
    ensures
        forall|k: Seq<char>| #[trigger] map_of(entries).dom().contains(k) <==> has_key(entries, k),
        forall|i: int|
            0 <= i < entries.len() ==> map_of(entries)[(#[trigger] entries[i]).0] == entries[i].1,
    decreases entries.len(),
{
    if entries.len() > 0 {
        let front = entries.drop_last();
        let last = entries.last();
        assert forall|i: int, j: int| 0 <= i < j < front.len() implies key_lt(
            (#[trigger] front[i]).0,
            (#[trigger] front[j]).0,
        ) by {
            assert(front[i] == entries[i] && front[j] == entries[j]);
        }
        lemma_map_of(front);
        assert forall|k: Seq<char>| #[trigger]
            map_of(entries).dom().contains(k) <==> has_key(entries, k) by {
            assert(map_of(entries).dom().contains(k) <==> (k == last.0 || map_of(
                front,
            ).dom().contains(k)));
            assert(map_of(front).dom().contains(k) <==> has_key(front, k));
            if has_key(entries, k) {
                let i = choose|i: int| 0 <= i < entries.len() && (#[trigger] entries[i]).0 == k;
                if i < front.len() {
                    assert(front[i].0 == k);
                    assert(has_key(front, k));
                } else {
                    assert(k == last.0);
                }
            }
            if has_key(front, k) {
                let i = choose|i: int| 0 <= i < front.len() && (#[trigger] front[i]).0 == k;
                assert(entries[i].0 == k);
                assert(has_key(entries, k));
            }
            if k == last.0 {
                assert(entries[entries.len() - 1].0 == k);
                assert(has_key(entries, k));
            }
        }
        assert forall|i: int| 0 <= i < entries.len() implies map_of(entries)[(#[trigger]
            entries[i]).0] == entries[i].1 by {
            if i < front.len() {
                assert(front[i] == entries[i]);
                assert(key_lt(entries[i].0, entries[entries.len() - 1].0));
                lemma_key_order(entries[i].0, last.0, last.0);
            }
        }
    }
}

/// A new key, put in at any place, adds one entry to the mapping.
pub proof fn lemma_map_insert(entries: Seq<EntryView>, at: int, entry: EntryView)
    requires
        0 <= at <= entries.len(),
        !has_key(entries, entry.0),
    ensures
        map_of(entries.insert(at, entry)) == map_of(entries).insert(entry.0, entry.1),
    decreases entries.len(),
{
    let grown = entries.insert(at, entry);
    if at == entries.len() {
        assert(grown.drop_last() =~= entries);
    } else {
        let front = entries.drop_last();
        let last = entries.last();
        assert(grown.drop_last() =~= front.insert(at, entry));
        assert(grown.last() == last);
        assert(!has_key(front, entry.0)) by {
            if has_key(front, entry.0) {
                let i = choose|i: int| 0 <= i < front.len() && (#[trigger] front[i]).0 == entry.0;
                assert(entries[i].0 == entry.0);
            }
        }
        lemma_map_insert(front, at, entry);
        assert(entries[entries.len() - 1].0 != entry.0);
        assert(map_of(grown) =~= map_of(entries).insert(entry.0, entry.1));
    }
}

/// A new binding under a key that is there replaces the one of that key.
pub proof fn lemma_map_update(entries: Seq<EntryView>, at: int, binding: BindingView)
    requires
        0 <= at < entries.len(),
        keys_sorted(entries),
    ensures
        map_of(entries.update(at, (entries[at].0, binding))) == map_of(entries).insert(
            entries[at].0,
            binding,
        ),
        keys_sorted(entries.update(at, (entries[at].0, binding))),
    decreases entries.len(),
{
    let changed = entries.update(at, (entries[at].0, binding));
    let front = entries.drop_last();
    assert forall|i: int, j: int| 0 <= i < j < changed.len() implies key_lt(
        (#[trigger] changed[i]).0,
        (#[trigger] changed[j]).0,
    ) by {
        assert(key_lt(entries[i].0, entries[j].0));
    }
    if at == entries.len() - 1 {
        assert(changed.drop_last() =~= front);
        assert(map_of(changed) =~= map_of(entries).insert(entries[at].0, binding));
    } else {
        assert forall|i: int, j: int| 0 <= i < j < front.len() implies key_lt(
            (#[trigger] front[i]).0,
            (#[trigger] front[j]).0,
        ) by {
            assert(front[i] == entries[i] && front[j] == entries[j]);
        }
        assert(changed.drop_last() =~= front.update(at, (front[at].0, binding)));
        lemma_map_update(front, at, binding);
        assert(key_lt(entries[at].0, entries[entries.len() - 1].0));
        lemma_key_order(entries[at].0, entries.last().0, entries.last().0);
        assert(map_of(changed) =~= map_of(entries).insert(entries[at].0, binding));
    }
}

/// A binding under its key.
#[derive(Debug)]
struct Entry {
    key: String,
    binding: BindingState,
}

/// The whole durable state: the progress of every binding, under its key.
/// The entries are kept in the order of their keys.
#[derive(Debug)]
pub struct State {
    bindings: Vec<Entry>,
}

impl View for State {
    type V = Map<Seq<char>, BindingView>;

    closed spec fn view(&self) -> Map<Seq<char>, BindingView> {
        map_of(self.entries())
    }
}

impl Default for State {
    fn default() -> (state: State)
        ensures
            state.entries() == Seq::<EntryView>::empty(),
            state@ == Map::<Seq<char>, BindingView>::empty(),
    {
        State::new()
    }
}

impl State {
    /// The keys and bindings, in key order.
    pub closed spec fn entries(&self) -> Seq<EntryView> {
        Seq::new(self.bindings@.len(), |i: int| (self.bindings@[i].key@, self.bindings@[i].binding@))
    }

    /// The entries stand in the order of their keys.
    #[verifier::type_invariant]
    closed spec fn ordered(&self) -> bool {
        keys_sorted(self.entries())
    }

    /// The state is the mapping that its entries stand for.
    pub proof fn lemma_view(&self)
        ensures
            self@ == map_of(self.entries()),
    {
    }

    /// The state with no binding.
    pub fn new() -> (state: State)
        ensures
            state.entries() == Seq::<EntryView>::empty(),
            state@ == Map::<Seq<char>, BindingView>::empty(),
    {
        let state = State { bindings: Vec::new() };
        assert(state.entries() =~= Seq::empty());
        state
    }

    /// How many bindings the state holds.
    pub fn len(&self) -> (n: usize)
        ensures
            n == self.entries().len(),
            keys_sorted(self.entries()),
    {
        proof {
            use_type_invariant(self);
        }
        self.bindings.len()
    }

    /// The key of the `i`-th binding in key order.
    pub fn key_at(&self, i: usize) -> (key: &String)
        requires
            i < self.entries().len(),
        ensures
            key@ == self.entries()[i as int].0,
    {
        &self.bindings[i].key
    }

    /// The `i`-th binding in key order.
    pub fn binding_at(&self, i: usize) -> (binding: &BindingState)
        requires
            i < self.entries().len(),
        ensures
            binding@ == self.entries()[i as int].1,
    {
        &self.bindings[i].binding
    }

    /// The place of a key among the entries: `Ok` with its index where it
    /// is there, `Err` with the index where it would go.
    fn search(&self, key: &str) -> (found: Result<usize, usize>)
        ensures
            keys_sorted(self.entries()),
            match found {
                Ok(i) => i < self.entries().len() && self.entries()[i as int].0 == key@,
                Err(i) => {
                    &&& i <= self.entries().len()
                    &&& !has_key(self.entries(), key@)
                    &&& forall|j: int| 0 <= j < i ==> key_lt((#[trigger] self.entries()[j]).0, key@)
                    &&& forall|j: int|
                        i <= j < self.entries().len() ==> key_lt(
                            key@,
                            (#[trigger] self.entries()[j]).0,
                        )
                },
            },
    {
        proof {
            use_type_invariant(self);
        }
        let mut i: usize = 0;
        while i < self.bindings.len()
            invariant
                i <= self.bindings.len(),
                keys_sorted(self.entries()),
                self.entries().len() == self.bindings.len(),
                forall|j: int| 0 <= j < i ==> key_lt((#[trigger] self.entries()[j]).0, key@),
            decreases self.bindings.len() - i,
        {
            match key_order(self.bindings[i].key.as_str(), key) {
                KeyOrder::Before => {},
                KeyOrder::Same => {
                    return Ok(i);
                },
                KeyOrder::After => {
                    proof {
                        let here = self.entries()[i as int].0;
                        assert forall|j: int| i <= j < self.entries().len() implies key_lt(
                            key@,
                            (#[trigger] self.entries()[j]).0,
                        ) by {
                            if j > i {
                                assert(key_lt(self.entries()[i as int].0, self.entries()[j].0));
                                lemma_key_order(key@, here, self.entries()[j].0);
                            }
                        }
                        lemma_absent(self.entries(), key@, i as int);
                    }
                    return Err(i);
                },
            }
            i += 1;
        }
        proof {
            lemma_absent(self.entries(), key@, i as int);
        }
        Err(i)
    }

    /// Whether a binding stands under the key.
    pub fn contains_key(&self, key: &str) -> (found: bool)
        ensures
            found == self@.dom().contains(key@),
    {
        let at = self.search(key);
        proof {
            lemma_map_of(self.entries());
        }
        at.is_ok()
    }

    /// The binding under a key.
    pub fn get(&self, key: &str) -> (binding: Option<&BindingState>)
        ensures
            match binding {
                Some(b) => self@.dom().contains(key@) && b@ == self@[key@],
                None => !self@.dom().contains(key@),
            },
    {
        let at = self.search(key);
        proof {
            lemma_map_of(self.entries());
        }
        match at {
            Ok(i) => Some(&self.bindings[i].binding),
            Err(_) => None,
        }
    }

    /// Puts a binding under a key, in place of the one that was there, if any.
    pub fn insert(&mut self, key: String, binding: BindingState)
        ensures
            final(self)@ == old(self)@.insert(key@, binding@),
    {
        let at = self.search(key.as_str());
        let ghost before = self.entries();
        match at {
            Ok(i) => {
                proof {
                    lemma_map_update(before, i as int, binding@);
                    assert(before.update(i as int, (before[i as int].0, binding@)) =~= Seq::new(
                        before.len(),
                        |j: int|
                            if j == i {
                                (key@, binding@)
                            } else {
                                before[j]
                            },
                    ));
                }
                let mut bindings: Vec<Entry> = Vec::new();
                core::mem::swap(&mut bindings, &mut self.bindings);
                bindings[i].binding = binding;
                assert(Seq::new(
                    bindings@.len(),
                    |j: int| (bindings@[j].key@, bindings@[j].binding@),
                ) =~= before.update(i as int, (before[i as int].0, binding@)));
                self.bindings = bindings;
            },
            Err(i) => {
                proof {
                    lemma_map_insert(before, i as int, (key@, binding@));
                    let grown = before.insert(i as int, (key@, binding@));
                    assert forall|a: int, b: int| 0 <= a < b < grown.len() implies key_lt(
                        (#[trigger] grown[a]).0,
                        (#[trigger] grown[b]).0,
                    ) by {
                        if a < i && b > i {
                            assert(key_lt(before[a].0, before[b - 1].0));
                        } else if a < i && b < i {
                            assert(key_lt(before[a].0, before[b].0));
                        } else if a > i {
                            assert(key_lt(before[a - 1].0, before[b - 1].0));
                        } else if a == i {
                            assert(key_lt(key@, before[b - 1].0));
                        } else {
                            assert(key_lt(before[a].0, key@));
                        }
                    }
                }
                let mut bindings: Vec<Entry> = Vec::new();
                core::mem::swap(&mut bindings, &mut self.bindings);
                bindings.insert(i, Entry { key, binding });
                assert(Seq::new(
                    bindings@.len(),
                    |j: int| (bindings@[j].key@, bindings@[j].binding@),
                ) =~= before.insert(i as int, (key@, binding@)));
                self.bindings = bindings;
            },
        }
    }

    /// Begins the sweep of the `i`-th binding.
    pub fn start_sweep_at(&mut self, i: usize, now: Timestamp, groups: VecDeque<TodoGroup>)
        requires
            i < old(self).entries().len(),
        ensures
            final(self).entries() == old(self).entries().update(
                i as int,
                (
                    old(self).entries()[i as int].0,
                    old(self).entries()[i as int].1.start_sweep(
                        now.unix_nanos as int,
                        groups_view(groups@),
                    ),
                ),
            ),
    {
        proof {
            use_type_invariant(&*self);
        }
        let ghost before = self.entries();
        let mut bindings: Vec<Entry> = Vec::new();
        core::mem::swap(&mut bindings, &mut self.bindings);
        bindings[i].binding.start_sweep(now, groups);
        proof {
            lemma_map_update(before, i as int, bindings@[i as int].binding@);
            assert(entries_view(bindings@) =~= before.update(
                i as int,
                (before[i as int].0, bindings@[i as int].binding@),
            ));
            assert(entries_view(bindings@) =~= Seq::new(
                bindings@.len(),
                |j: int| (bindings@[j].key@, bindings@[j].binding@),
            ));
        }
        self.bindings = bindings;
    }

    /// Advances the sweep of the `i`-th binding by one transition of its walk.
    pub fn step_at(
        &mut self,
        i: usize,
        walk: &mut Walk,
        input: StepInput,
        caller_steam_id: &str,
    ) -> (res: Result<Step, OutOfTurn>)
        requires
            i < old(self).entries().len(),
        ensures
            match spec_next(
                old(self).entries()[i as int].1,
                position(old(self).entries()[i as int].1.todo_groups, old(walk)@),
                input@,
                caller_steam_id@,
            ) {
                Some((after, at, out)) => {
                    &&& res matches Ok(step) && step@ == out
                    &&& final(self).entries() == old(self).entries().update(
                        i as int,
                        (old(self).entries()[i as int].0, after),
                    )
                    &&& final(walk)@ == lineage_to(after.todo_groups, at)
                },
                None => {
                    &&& res is Err
                    &&& final(self).entries() == old(self).entries()
                    &&& final(walk)@ == old(walk)@
                },
            },
    {
        proof {
            use_type_invariant(&*self);
        }
        let ghost before = self.entries();
        let mut bindings: Vec<Entry> = Vec::new();
        core::mem::swap(&mut bindings, &mut self.bindings);
        let res = next_replays(&mut bindings[i].binding, walk, input, caller_steam_id);
        proof {
            lemma_map_update(before, i as int, bindings@[i as int].binding@);
            assert(entries_view(bindings@) =~= before.update(
                i as int,
                (before[i as int].0, bindings@[i as int].binding@),
            ));
            assert(entries_view(bindings@) =~= Seq::new(
                bindings@.len(),
                |j: int| (bindings@[j].key@, bindings@[j].binding@),
            ));
            if res is Err {
                assert(entries_view(bindings@) =~= before);
            }
        }
        self.bindings = bindings;
        res
    }

    /// Ends the sweep of every binding.
    pub fn finish_sweeps(&mut self)
        ensures
            final(self).entries() == finished(old(self).entries()),
    {
        proof {
            use_type_invariant(&*self);
        }
        let ghost before = self.entries();
        let mut bindings: Vec<Entry> = Vec::new();
        core::mem::swap(&mut bindings, &mut self.bindings);
        let mut i: usize = 0;
        while i < bindings.len()
            invariant
                i <= bindings.len(),
                bindings@.len() == before.len(),
                forall|j: int| 0 <= j < i ==> #[trigger] entries_view(bindings@)[j] == finished(before)[j],
                forall|j: int| i <= j < before.len() ==> #[trigger] entries_view(bindings@)[j] == before[j],
            decreases bindings.len() - i,
        {
            let ghost held = entries_view(bindings@);
            bindings[i].binding.finish_sweep();
            assert forall|j: int| 0 <= j < i + 1 implies #[trigger] entries_view(bindings@)[j]
                == finished(before)[j] by {
                if j < i {
                    assert(held[j] == finished(before)[j]);
                } else {
                    assert(held[j] == before[j]);
                }
            }
            assert forall|j: int| i + 1 <= j < before.len() implies #[trigger] entries_view(
                bindings@,
            )[j] == before[j] by {
                assert(held[j] == before[j]);
            }
            i += 1;
        }
        proof {
            assert(entries_view(bindings@) =~= finished(before));
            assert forall|a: int, b: int| 0 <= a < b < before.len() implies key_lt(
                (#[trigger] finished(before)[a]).0,
                (#[trigger] finished(before)[b]).0,
            ) by {
                assert(key_lt(before[a].0, before[b].0));
            }
            assert(entries_view(bindings@) =~= Seq::new(
                bindings@.len(),
                |j: int| (bindings@[j].key@, bindings@[j].binding@),
            ));
        }
        self.bindings = bindings;
    }

    /// Brings the state in line with the configured bindings, and numbers
    /// its entries.
    ///
    /// Each binding that has no entry gets an empty one; then each entry
    /// whose key no binding has is dropped. The result gives, for each
    /// entry in key order, the index of the last binding with its key.
    /// Nothing changes if the bindings are too many to number.
    pub fn reconcile(&mut self, bindings: &Vec<BindingSpec>) -> (res: Result<
        Vec<u32>,
        TooManyBindings,
    >)
        ensures
            match res {
                Ok(indices) => {
                    &&& bindings.len() <= u32::MAX
                    &&& final(self)@ == spec_reconcile(old(self)@, specs_view(bindings@))
                    &&& indices@.len() == final(self).entries().len()
                    &&& forall|j: int|
                        0 <= j < indices@.len() ==> is_last_with_key(
                            specs_view(bindings@),
                            (#[trigger] final(self).entries()[j]).0,
                            indices@[j] as int,
                        )
                },
                Err(_) => {
                    &&& bindings.len() > u32::MAX
                    &&& final(self).entries() == old(self).entries()
                },
            },
    {
        if bindings.len() > u32::MAX as usize {
            return Err(TooManyBindings);
        }
        let ghost specs = specs_view(bindings@);
        let mut i: usize = 0;
        while i < bindings.len()
            invariant
                i <= bindings.len(),
                specs == specs_view(bindings@),
                self@ == seeded(old(self)@, specs.take(i as int)),
            decreases bindings.len() - i,
        {
            let key = binding_key(
                bindings[i].creator_id.as_str(),
                bindings[i].collection_name.as_str(),
            );
            proof {
                assert(specs.take(i + 1).drop_last() =~= specs.take(i as int));
                assert(specs.take(i + 1).last() == bindings[i as int]@);
            }
            if !self.contains_key(key.as_str()) {
                let fresh = BindingState::new(
                    bindings[i].collection_name.as_str(),
                    bindings[i].creator_id.as_str(),
                );
                self.insert(key, fresh);
            }
            i += 1;
        }
        proof {
            assert(specs.take(bindings.len() as int) =~= specs);
            use_type_invariant(&*self);
        }
        let ghost all = self.entries();
        let ghost configured = Set::new(|k: Seq<char>| is_configured(specs, k));
        let mut entries: Vec<Entry> = Vec::new();
        core::mem::swap(&mut entries, &mut self.bindings);
        let mut kept: Vec<Entry> = Vec::new();
        let mut indices: Vec<u32> = Vec::new();
        proof {
            assert(map_of(all.take(0)).restrict(configured) =~= map_of(entries_view(kept@)));
        }
        for entry in it: entries
            invariant
                specs == specs_view(bindings@),
                bindings.len() <= u32::MAX,
                configured == Set::new(|k: Seq<char>| is_configured(specs, k)),
                all == entries_view(entries@),
                keys_sorted(all),
                keys_sorted(entries_view(kept@)),
                forall|a: int, b: int|
                    0 <= a < kept@.len() && it.index() <= b < all.len() ==> key_lt(
                        (#[trigger] entries_view(kept@)[a]).0,
                        (#[trigger] all[b]).0,
                    ),
                map_of(entries_view(kept@)) == map_of(all.take(it.index() as int)).restrict(
                    configured,
                ),
                indices@.len() == kept@.len(),
                forall|j: int|
                    0 <= j < indices@.len() ==> is_last_with_key(
                        specs,
                        (#[trigger] entries_view(kept@)[j]).0,
                        indices@[j] as int,
                    ),
        {
            let ghost n = it.index() as int;
            let ghost held = entries_view(kept@);
            proof {
                assert(all.take(n + 1).drop_last() =~= all.take(n));
                assert(all.take(n + 1).last() == all[n]);
            }
            match last_with_key(bindings, entry.key.as_str()) {
                Some(index) => {
                    kept.push(entry);
                    indices.push(index as u32);
                    proof {
                        assert(specs[index as int].key() == all[n].0);
                        assert(configured.contains(all[n].0));
                        assert(entries_view(kept@) =~= held.push(all[n]));
                        assert(entries_view(kept@).drop_last() =~= held);
                        assert(map_of(entries_view(kept@)) =~= map_of(all.take(n + 1)).restrict(
                            configured,
                        ));
                        assert forall|a: int, b: int|
                            0 <= a < b < kept@.len() implies key_lt(
                            (#[trigger] entries_view(kept@)[a]).0,
                            (#[trigger] entries_view(kept@)[b]).0,
                        ) by {
                            if b < held.len() {
                                assert(key_lt(held[a].0, held[b].0));
                            } else {
                                assert(key_lt(held[a].0, all[n].0));
                            }
                        }
                        assert forall|a: int, b: int|
                            0 <= a < kept@.len() && n + 1 <= b < all.len() implies key_lt(
                            (#[trigger] entries_view(kept@)[a]).0,
                            (#[trigger] all[b]).0,
                        ) by {
                            if a < held.len() {
                                assert(key_lt(held[a].0, all[b].0));
                            } else {
                                assert(key_lt(all[n].0, all[b].0));
                            }
                        }
                        assert forall|j: int| 0 <= j < indices@.len() implies is_last_with_key(
                            specs,
                            (#[trigger] entries_view(kept@)[j]).0,
                            indices@[j] as int,
                        ) by {
                            if j < held.len() {
                                assert(entries_view(kept@)[j] == held[j]);
                            }
                        }
                    }
                },
                None => {
                    proof {
                        assert(!configured.contains(all[n].0));
                        assert(map_of(held) =~= map_of(all.take(n + 1)).restrict(configured));
                    }
                },
            }
        }
        proof {
            assert(all.take(all.len() as int) =~= all);
            assert(entries_view(kept@) =~= Seq::new(
                kept@.len(),
                |i: int| (kept@[i].key@, kept@[i].binding@),
            ));
        }
        self.bindings = kept;
        Ok(indices)
    }
}

/// The keys and the binding models of stored entries, in order.
spec fn entries_view(entries: Seq<Entry>) -> Seq<EntryView> {
    Seq::new(entries.len(), |i: int| (entries[i].key@, entries[i].binding@))
}

/// A key that sorts between two neighbours, or past either end, is not there.
proof fn lemma_absent(entries: Seq<EntryView>, key: Seq<char>, at: int)
    requires
        0 <= at <= entries.len(),
        forall|j: int| 0 <= j < at ==> key_lt((#[trigger] entries[j]).0, key),
        forall|j: int| at <= j < entries.len() ==> key_lt(key, (#[trigger] entries[j]).0),
    ensures
        !has_key(entries, key),
{
    if has_key(entries, key) {
        let i = choose|i: int| 0 <= i < entries.len() && (#[trigger] entries[i]).0 == key;
        lemma_key_order(key, key, key);
    }
}

} // verus!
