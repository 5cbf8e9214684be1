//! The sweep: which replays are captured, and the resumable depth-first
//! walk that finds them, one binding at a time.

use crate::fetcher::{
    replays_view, summaries_view, GroupSummary, GroupSummaryView, ReplaySummary, ReplayView,
    Visibility,
};
use crate::state::{
    groups_view, instant, lemma_group_view, lineage_view, is_last_with_key, keys_sorted,
    listed_groups, map_of, pending_groups, pending_of, prune, spec_reconcile, specs_view,
    BindingSpec, BindingState, BindingView, GroupView, ParentGroup, State, Timestamp, TodoGroup,
    TooManyBindings,
};
use crate::sweep::{Phase, Sweep};
use crate::walk::{
    has_pending, hollow, lemma_descend, lemma_first_pending, lemma_pending_joined,
    lemma_pending_kept, lemma_pending_on_path, lemma_pending_replaced, lemma_replace,
    lemma_replace_frame, lemma_replace_twice, lemma_settle, lemma_settle_pending, lemma_step_into,
    level_at, lineage_of, lineage_to, locate, need_of, node_at, path_ok, position, put_node,
    replace_at, settle, settle_stays_below, spec_settle, take_node, Need,
};
use vstd::prelude::*;
use vstd::string::*;

verus! {

/// The recency gate: with no completed sweep every replay is new; else only
/// one created strictly after the watermark is.
pub open spec fn passes_recency(watermark: Option<int>, created: int) -> bool {
    match watermark {
        Some(w) => created > w,
        None => true,
    }
}

/// The visibility gate: the replay is public, or the caller uploaded it.
pub open spec fn passes_visibility(replay: ReplayView, caller: Seq<char>) -> bool {
    replay.public() || replay.uploader == caller
}

/// Why a replay is captured or left out.
#[derive(Debug, Clone, Copy, PartialEq, Eq, Structural)]
pub enum Verdict {
    /// New and visible to the caller: capture it.
    Ingest,
    /// Created at or before the watermark: the last sweep had it.
    AlreadyCaptured,
    /// New, but neither public nor the caller's own: worth a warning, no error.
    NotVisible,
}

/// The verdict on one replay. Recency is judged first.
pub open spec fn spec_verdict(watermark: Option<int>, replay: ReplayView, caller: Seq<char>) -> Verdict {
    if !passes_recency(watermark, replay.created) {
        Verdict::AlreadyCaptured
    } else if passes_visibility(replay, caller) {
        Verdict::Ingest
    } else {
        Verdict::NotVisible
    }
}

/// A replay is captured when it passes both gates.
pub open spec fn spec_should_ingest(watermark: Option<int>, replay: ReplayView, caller: Seq<char>) -> bool {
    passes_recency(watermark, replay.created) && passes_visibility(replay, caller)
}

/// Judges one replay: captured or not, and why not.
pub fn verdict(
    last_completed_sweep: Option<Timestamp>,
    replay: &ReplaySummary,
    caller_steam_id: &str,
) -> (v: Verdict)
    ensures
        v == spec_verdict(instant(last_completed_sweep), replay@, caller_steam_id@),
{
    let recent = match last_completed_sweep {
        Some(mark) => replay.created.unix_nanos > mark.unix_nanos,
        None => true,
    };
    if !recent {
        return Verdict::AlreadyCaptured;
    }
    let public = match replay.visibility {
        Some(Visibility::Public) => true,
        Some(_) => false,
        None => true,
    };
    if public {
        Verdict::Ingest
    } else if replay.uploader.steam_id == String::from_str(caller_steam_id) {
        Verdict::Ingest
    } else {
        Verdict::NotVisible
    }
}

/// Whether a replay is captured: it is new and the caller may see it.
pub fn should_ingest(
    last_completed_sweep: Option<Timestamp>,
    replay: &ReplaySummary,
    caller_steam_id: &str,
) -> (ingest: bool)
    ensures
        ingest == spec_should_ingest(instant(last_completed_sweep), replay@, caller_steam_id@),
{
    match verdict(last_completed_sweep, replay, caller_steam_id) {
        Verdict::Ingest => true,
        _ => false,
    }
}

/// The recency gate is monotonic in the creation time: above the watermark
/// it is open, and so for every later time; at or below the watermark the
/// replay is never captured, whoever uploaded it and whoever may see it.
pub proof fn recency_is_monotonic(
    watermark: int,
    earlier: ReplayView,
    later: ReplayView,
    caller: Seq<char>,
)
    requires
        earlier.created <= later.created,
    ensures
        later.created > watermark ==> passes_recency(Some(watermark), later.created),
        passes_recency(Some(watermark), earlier.created) ==> passes_recency(
            Some(watermark),
            later.created,
        ),
        earlier.created <= watermark ==> !spec_should_ingest(Some(watermark), earlier, caller),
{
}

/// A public replay passes the visibility gate for every uploader and
/// caller; any other replay passes exactly when the caller uploaded it.
pub proof fn visibility_gate(replay: ReplayView, caller: Seq<char>)
    ensures
        replay.public() ==> passes_visibility(replay, caller),
        !replay.public() ==> (passes_visibility(replay, caller) <==> replay.uploader == caller),
{
}

/// Selects the replays that are captured.
pub open spec fn ingestible(watermark: Option<int>, caller: Seq<char>) -> spec_fn(ReplayView) -> bool {
    |r: ReplayView| spec_should_ingest(watermark, r, caller)
}

/// Keeps the replays that are captured, in their order.
pub fn retain_ingestible(
    replays: Vec<ReplaySummary>,
    last_completed_sweep: Option<Timestamp>,
    caller_steam_id: &str,
) -> (kept: Vec<ReplaySummary>)
    ensures
        replays_view(kept@) == replays_view(replays@).filter(
            ingestible(instant(last_completed_sweep), caller_steam_id@),
        ),
{
    let ghost keep = ingestible(instant(last_completed_sweep), caller_steam_id@);
    let ghost all = replays_view(replays@);
    let mut kept: Vec<ReplaySummary> = Vec::new();
    proof {
        reveal(Seq::filter);
        assert(all.take(0).filter(keep) =~= replays_view(kept@));
    }
    for replay in it: replays
        invariant
            all == replays_view(replays@),
            keep == ingestible(instant(last_completed_sweep), caller_steam_id@),
            replays_view(kept@) == all.take(it.index() as int).filter(keep),
    {
        let ghost before = replays_view(kept@);
        let ghost i = it.index() as int;
        proof {
            reveal(Seq::filter);
            assert(all.take(i + 1).drop_last() =~= all.take(i));
            assert(all.take(i + 1).last() == replay@);
        }
        if should_ingest(last_completed_sweep, &replay, caller_steam_id) {
            kept.push(replay);
            assert(replays_view(kept@) =~= before.push(replay@));
        }
    }
    assert(all.take(all.len() as int) =~= all);
    kept
}

/// The id and the name of a group, as a lineage holds them.
pub open spec fn info_of(g: GroupView) -> (Seq<char>, Seq<char>) {
    (g.id, g.name)
}

/// The lineage entry of a group.
pub fn lineage_info(grp: &TodoGroup) -> (info: ParentGroup)
    ensures
        info@ == info_of(grp@),
{
    proof {
        lemma_group_view(*grp);
    }
    ParentGroup { id: grp.id.clone(), name: grp.name.clone() }
}

/// The position of one sweep step inside the tree of a binding, kept
/// between the calls that make up the step: the lineage of the group where
/// the walk stands, or nothing when no step is under way.
#[derive(Debug)]
pub struct Walk {
    lineage: Vec<ParentGroup>,
}

impl View for Walk {
    type V = Seq<(Seq<char>, Seq<char>)>;

    closed spec fn view(&self) -> Seq<(Seq<char>, Seq<char>)> {
        lineage_view(self.lineage@)
    }
}

impl Walk {
    /// A walk that stands nowhere.
    pub fn new() -> (walk: Walk)
        ensures
            walk@ == Seq::<(Seq<char>, Seq<char>)>::empty(),
    {
        let walk = Walk { lineage: Vec::new() };
        assert(walk@ =~= Seq::empty());
        walk
    }

    /// Whether a step is under way.
    pub fn is_active(&self) -> (active: bool)
        ensures
            active == (self@.len() > 0),
    {
        self.lineage.len() > 0
    }
}

/// What reaches the walk: the start of a step, or the listing it asked for.
#[derive(Debug)]
pub enum StepInput {
    /// Begin a step at the front of the frontier.
    Start,
    /// The replays directly in the group that the walk stands at.
    Replays(Vec<ReplaySummary>),
    /// The groups directly in the group that the walk stands at.
    Children(Vec<GroupSummary>),
}

/// Model of a [`StepInput`].
pub enum StepInputView {
    Start,
    Replays(Seq<ReplayView>),
    Children(Seq<GroupSummaryView>),
}

impl View for StepInput {
    type V = StepInputView;

    open spec fn view(&self) -> StepInputView {
        match self {
            StepInput::Start => StepInputView::Start,
            StepInput::Replays(list) => StepInputView::Replays(replays_view(list@)),
            StepInput::Children(list) => StepInputView::Children(summaries_view(list@)),
        }
    }
}

/// What the walk asks for next, or how the step ended.
#[derive(Debug)]
pub enum Step {
    /// List the replays directly in this group, and hand them back.
    ListReplays { group_id: String },
    /// List the groups directly in this group, and hand them back.
    ListChildren { group_id: String },
    /// The step is over: these replays are to be captured, found under this lineage.
    Found { lineage: Vec<ParentGroup>, replays: Vec<ReplaySummary> },
    /// The step is over and found nothing to capture.
    Idle,
}

/// Model of a [`Step`].
pub enum StepView {
    ListReplays { group_id: Seq<char> },
    ListChildren { group_id: Seq<char> },
    Found { lineage: Seq<(Seq<char>, Seq<char>)>, replays: Seq<ReplayView> },
    Idle,
}

impl View for Step {
    type V = StepView;

    open spec fn view(&self) -> StepView {
        match self {
            Step::ListReplays { group_id } => StepView::ListReplays { group_id: group_id@ },
            Step::ListChildren { group_id } => StepView::ListChildren { group_id: group_id@ },
            Step::Found { lineage, replays } => StepView::Found {
                lineage: lineage_view(lineage@),
                replays: replays_view(replays@),
            },
            Step::Idle => StepView::Idle,
        }
    }
}

/// A listing reached the walk that it had not asked for.
#[derive(Debug, Clone, Copy, PartialEq, Eq, Structural)]
pub struct OutOfTurn;

/// The walk goes on from `depth` as far as it can without a listing. Where
/// it stops at a group with something to list, it asks for that and stays;
/// where it stops at an exhausted group, the step ends with nothing.
pub open spec fn walk_on_from(b: BindingView, groups: Seq<GroupView>, depth: nat) -> (
    BindingView,
    Option<nat>,
    StepView,
) {
    let (settled, stop) = spec_settle(groups, depth);
    let node = node_at(settled, stop);
    let after = BindingView { todo_groups: settled, ..b };
    match need_of(node) {
        Need::Replays => (after, Some(stop), StepView::ListReplays { group_id: node.id }),
        Need::Children => (after, Some(stop), StepView::ListChildren { group_id: node.id }),
        Need::Nothing => (after, None, StepView::Idle),
    }
}

/// The start of a step: the top-level groups that are done are dropped;
/// with none left the step finds nothing, else the walk sets out from the
/// first.
pub open spec fn spec_start(b: BindingView) -> (BindingView, Option<nat>, StepView) {
    let top = pending_of(b.todo_groups);
    if top.len() == 0 {
        (BindingView { todo_groups: top, ..b }, None, StepView::Idle)
    } else {
        walk_on_from(b, top, 0)
    }
}

/// One transition of the walk of a binding that stands at `at`: the binding
/// and the position after it, and what the walk answers; `None` where the
/// input is out of turn.
///
/// A start is always in turn. Listed replays are taken only by a group
/// that waits for them: it stops waiting, and if any
/// of them is to be captured the step ends with those and the lineage of
/// the group, else the walk goes on. Listed children are taken only by a
/// group that waits for children and no longer for replays: those that
/// have work join its children at the back, and the walk goes on.
pub open spec fn spec_next(
    b: BindingView,
    at: Option<nat>,
    input: StepInputView,
    caller: Seq<char>,
) -> Option<(BindingView, Option<nat>, StepView)> {
    match input {
        StepInputView::Start => Some(spec_start(b)),
        StepInputView::Replays(list) => {
            if at is Some && need_of(node_at(b.todo_groups, at->0)) == Need::Replays {
                let depth = at->0;
                let node = node_at(b.todo_groups, depth);
                let listed = replace_at(
                    b.todo_groups,
                    depth,
                    GroupView { must_fetch_replays: false, ..node },
                );
                let kept = list.filter(ingestible(b.last_completed_sweep, caller));
                if kept.len() > 0 {
                    Some(
                        (
                            BindingView { todo_groups: listed, ..b },
                            None,
                            StepView::Found {
                                lineage: lineage_of(b.todo_groups, depth),
                                replays: kept,
                            },
                        ),
                    )
                } else {
                    Some(walk_on_from(b, listed, depth))
                }
            } else {
                None
            }
        },
        StepInputView::Children(list) => {
            if at is Some && need_of(node_at(b.todo_groups, at->0)) == Need::Children {
                let depth = at->0;
                let node = node_at(b.todo_groups, depth);
                let grown = replace_at(
                    b.todo_groups,
                    depth,
                    GroupView {
                        must_fetch_children: false,
                        children: node.children + listed_groups(list),
                        ..node
                    },
                );
                Some(walk_on_from(b, grown, depth))
            } else {
                None
            }
        },
    }
}

/// Lets the walk go on from where it stands, and says what it asks for.
fn walk_on(state: &mut BindingState, walk: &mut Walk) -> (step: Step)
    requires
        position(old(state)@.todo_groups, old(walk)@) is Some,
    ensures
        ({
            let (after, at, out) = walk_on_from(
                old(state)@,
                old(state)@.todo_groups,
                (old(walk)@.len() - 1) as nat,
            );
            &&& final(state)@ == after
            &&& final(walk)@ == lineage_to(after.todo_groups, at)
            &&& step@ == out
        }),
{
    let (need, group_id) = settle(&mut state.todo_groups, &mut walk.lineage);
    match need {
        Need::Replays => Step::ListReplays { group_id },
        Need::Children => Step::ListChildren { group_id },
        Need::Nothing => {
            walk.lineage = Vec::new();
            assert(walk@ =~= Seq::empty());
            Step::Idle
        },
    }
}

/// Advances the sweep of one binding by one transition.
///
/// A step begins with [`StepInput::Start`] and is over when the answer is
/// [`Step::Found`] or [`Step::Idle`]. In between the walk asks for one
/// listing at a time; the caller fetches it and hands it back. A listing
/// that the walk did not ask for is refused, and nothing changes.
pub fn next_replays(
    state: &mut BindingState,
    walk: &mut Walk,
    input: StepInput,
    caller_steam_id: &str,
) -> (res: Result<Step, OutOfTurn>)
    ensures
        match spec_next(
            old(state)@,
            position(old(state)@.todo_groups, old(walk)@),
            input@,
            caller_steam_id@,
        ) {
            Some((after, at, out)) => {
                &&& res matches Ok(step) && step@ == out
                &&& final(state)@ == after
                &&& final(walk)@ == lineage_to(after.todo_groups, at)
            },
            None => {
                &&& res is Err
                &&& final(state)@ == old(state)@
                &&& final(walk)@ == old(walk)@
            },
        },
{
    match input {
        StepInput::Start => {
            prune(&mut state.todo_groups);
            walk.lineage = Vec::new();
            if state.todo_groups.len() == 0 {
                assert(walk@ =~= Seq::empty());
                return Ok(Step::Idle);
            }
            let info = lineage_info(&state.todo_groups[0]);
            walk.lineage.push(info);
            assert(walk@ =~= lineage_of(state@.todo_groups, 0));
            Ok(walk_on(state, walk))
        },
        StepInput::Replays(replays) => {
            let waits = match locate(&state.todo_groups, &walk.lineage) {
                Some(node) => node.must_fetch_replays,
                None => false,
            };
            if !waits {
                return Err(OutOfTurn);
            }
            let depth = walk.lineage.len() - 1;
            let ghost before = state@.todo_groups;
            let mut node = take_node(&mut state.todo_groups, depth);
            proof {
                lemma_group_view(node);
            }
            node.must_fetch_replays = false;
            proof {
                lemma_group_view(node);
                lemma_replace(before, depth as nat, node@);
                lemma_replace_twice(before, depth as nat, hollow(), node@);
            }
            put_node(&mut state.todo_groups, depth, node);
            let kept = retain_ingestible(replays, state.last_completed_sweep, caller_steam_id);
            if kept.len() > 0 {
                let mut lineage: Vec<ParentGroup> = Vec::new();
                core::mem::swap(&mut lineage, &mut walk.lineage);
                assert(walk@ =~= Seq::empty());
                return Ok(Step::Found { lineage, replays: kept });
            }
            Ok(walk_on(state, walk))
        },
        StepInput::Children(list) => {
            let waits = match locate(&state.todo_groups, &walk.lineage) {
                Some(node) => !node.must_fetch_replays && node.must_fetch_children,
                None => false,
            };
            if !waits {
                return Err(OutOfTurn);
            }
            let depth = walk.lineage.len() - 1;
            let ghost before = state@.todo_groups;
            let mut listed = pending_groups(list);
            let ghost joined = groups_view(listed@);
            let mut node = take_node(&mut state.todo_groups, depth);
            let ghost stood = node@;
            proof {
                lemma_group_view(node);
            }
            node.must_fetch_children = false;
            node.children.append(&mut listed);
            proof {
                lemma_group_view(node);
                assert(node@.children =~= stood.children + joined);
                lemma_replace(before, depth as nat, node@);
                lemma_replace_twice(before, depth as nat, hollow(), node@);
            }
            put_node(&mut state.todo_groups, depth, node);
            Ok(walk_on(state, walk))
        },
    }
}

/// A group that is done is never listed again: it takes no listing, and the
/// walk that stands at it asks for none.
pub proof fn done_group_is_never_listed(
    b: BindingView,
    depth: nat,
    input: StepInputView,
    caller: Seq<char>,
)
    requires
        path_ok(b.todo_groups, depth),
        node_at(b.todo_groups, depth).is_done(),
    ensures
        !(input is Start) ==> spec_next(b, Some(depth), input, caller) is None,
        walk_on_from(b, b.todo_groups, depth).2 == StepView::Idle,
{
    let node = node_at(b.todo_groups, depth);
    reveal(Seq::filter);
    assert(pending_of(node.children) =~= Seq::empty());
    lemma_replace(b.todo_groups, depth, GroupView { children: pending_of(node.children), ..node });
}

/// Whenever the walk asks for a listing, it names the group it stands at,
/// and that group is not done: it waits for the very listing asked for.
pub proof fn listing_is_for_waiting_group(
    b: BindingView,
    at: Option<nat>,
    input: StepInputView,
    caller: Seq<char>,
)
    requires
        at matches Some(depth) ==> path_ok(b.todo_groups, depth),
    ensures
        spec_next(b, at, input, caller) matches Some((after, to, out)) ==> {
            &&& out matches StepView::ListReplays { group_id } ==> {
                &&& to is Some
                &&& path_ok(after.todo_groups, to->0)
                &&& node_at(after.todo_groups, to->0).id == group_id
                &&& node_at(after.todo_groups, to->0).must_fetch_replays
                &&& !node_at(after.todo_groups, to->0).is_done()
            }
            &&& out matches StepView::ListChildren { group_id } ==> {
                &&& to is Some
                &&& path_ok(after.todo_groups, to->0)
                &&& node_at(after.todo_groups, to->0).id == group_id
                &&& !node_at(after.todo_groups, to->0).must_fetch_replays
                &&& node_at(after.todo_groups, to->0).must_fetch_children
                &&& !node_at(after.todo_groups, to->0).is_done()
            }
        },
{
    match input {
        StepInputView::Start => {
            let top = pending_of(b.todo_groups);
            if top.len() > 0 {
                lemma_settle(top, 0);
            }
        },
        StepInputView::Replays(list) => {
            if at is Some && need_of(node_at(b.todo_groups, at->0)) == Need::Replays {
                let depth = at->0;
                let node = node_at(b.todo_groups, depth);
                let listed = replace_at(
                    b.todo_groups,
                    depth,
                    GroupView { must_fetch_replays: false, ..node },
                );
                lemma_replace(b.todo_groups, depth, GroupView { must_fetch_replays: false, ..node });
                lemma_settle(listed, depth);
            }
        },
        StepInputView::Children(list) => {
            if at is Some && need_of(node_at(b.todo_groups, at->0)) == Need::Children {
                let depth = at->0;
                let node = node_at(b.todo_groups, depth);
                let grown_node = GroupView {
                    must_fetch_children: false,
                    children: node.children + listed_groups(list),
                    ..node
                };
                lemma_replace(b.todo_groups, depth, grown_node);
                lemma_settle(replace_at(b.todo_groups, depth, grown_node), depth);
            }
        },
    }
}

/// Where every top-level group is done, a step lists nothing: it ends at
/// once, finds nothing, and leaves the frontier empty.
pub proof fn start_with_every_group_done(b: BindingView)
    requires
        forall|i: int| 0 <= i < b.todo_groups.len() ==> (#[trigger] b.todo_groups[i]).is_done(),
    ensures
        spec_start(b) == (
            BindingView { todo_groups: Seq::empty(), ..b },
            None::<nat>,
            StepView::Idle,
        ),
{
    let top = pending_of(b.todo_groups);
    if top.len() > 0 {
        let j = lemma_first_pending(b.todo_groups);
        assert(b.todo_groups[j].is_done());
    }
    assert(top =~= Seq::empty());
}

/// A whole step stays below the group it began at. Every transition of a
/// walk leaves alone the groups that wait behind the walk, at the top
/// level and at every level down to where the walk stood; a walk that goes
/// on keeps the lineage it had as the beginning of its lineage; and
/// replays are found under the lineage of the group that listed them. A
/// start leaves alone the top-level groups behind the first that is not
/// done, but for dropping those that are done, and sets out from that first.
pub proof fn step_stays_below(b: BindingView, at: Option<nat>, input: StepInputView, caller: Seq<char>)
    requires
        at matches Some(depth) ==> path_ok(b.todo_groups, depth),
    ensures
        spec_next(b, at, input, caller) matches Some((after, to, out)) ==> {
            &&& input is Start ==> {
                &&& after.todo_groups.skip(1) == pending_of(b.todo_groups).skip(1)
                &&& to matches Some(stop) ==> lineage_of(after.todo_groups, stop)[0] == info_of(
                    pending_of(b.todo_groups)[0],
                )
            }
            &&& !(input is Start) ==> {
                &&& at is Some
                &&& forall|level: nat|
                    level <= at->0 ==> (#[trigger] level_at(after.todo_groups, level)).skip(1)
                        == level_at(b.todo_groups, level).skip(1)
                &&& to matches Some(stop) ==> stop >= at->0 && lineage_of(
                    after.todo_groups,
                    stop,
                ).take(at->0 as int + 1) == lineage_of(b.todo_groups, at->0)
                &&& out matches StepView::Found { lineage, replays } ==> lineage == lineage_of(
                    b.todo_groups,
                    at->0,
                )
            }
        },
{
    match input {
        StepInputView::Start => {
            let top = pending_of(b.todo_groups);
            if top.len() > 0 {
                settle_stays_below(top, 0);
                let (settled, stop) = spec_settle(top, 0);
                assert(level_at(settled, 0) == settled);
                assert(level_at(top, 0) == top);
                lemma_descend(settled, stop);
                assert(lineage_of(settled, stop).take(1)[0] == lineage_of(top, 0)[0]);
            }
        },
        StepInputView::Replays(list) => {
            if at is Some && need_of(node_at(b.todo_groups, at->0)) == Need::Replays {
                let depth = at->0;
                let node = node_at(b.todo_groups, depth);
                let cleared = GroupView { must_fetch_replays: false, ..node };
                let listed = replace_at(b.todo_groups, depth, cleared);
                lemma_replace(b.todo_groups, depth, cleared);
                settle_stays_below(listed, depth);
                let (settled, stop) = spec_settle(listed, depth);
                assert forall|level: nat| level <= depth implies (#[trigger] level_at(
                    listed,
                    level,
                )).skip(1) == level_at(b.todo_groups, level).skip(1) by {
                    lemma_replace_frame(b.todo_groups, depth, cleared, level);
                }
                assert forall|level: nat| level <= depth implies (#[trigger] level_at(
                    settled,
                    level,
                )).skip(1) == level_at(b.todo_groups, level).skip(1) by {
                    assert(level_at(settled, level).skip(1) == level_at(listed, level).skip(1));
                }
            }
        },
        StepInputView::Children(list) => {
            if at is Some && need_of(node_at(b.todo_groups, at->0)) == Need::Children {
                let depth = at->0;
                let node = node_at(b.todo_groups, depth);
                let grown_node = GroupView {
                    must_fetch_children: false,
                    children: node.children + listed_groups(list),
                    ..node
                };
                let grown = replace_at(b.todo_groups, depth, grown_node);
                lemma_replace(b.todo_groups, depth, grown_node);
                settle_stays_below(grown, depth);
                let (settled, stop) = spec_settle(grown, depth);
                assert forall|level: nat| level <= depth implies (#[trigger] level_at(
                    grown,
                    level,
                )).skip(1) == level_at(b.todo_groups, level).skip(1) by {
                    lemma_replace_frame(b.todo_groups, depth, grown_node, level);
                }
                assert forall|level: nat| level <= depth implies (#[trigger] level_at(
                    settled,
                    level,
                )).skip(1) == level_at(b.todo_groups, level).skip(1) by {
                    assert(level_at(settled, level).skip(1) == level_at(grown, level).skip(1));
                }
            }
        },
    }
}

/// A listing is asked only for a group of the tree that has work, or for
/// a child that was just listed. So a group that is done, anywhere in the
/// tree, is never listed again: where no group with work bears its id, as
/// is the case where ids are distinct, no transition asks for a listing
/// under that id.
pub proof fn done_group_is_never_listed_anywhere(
    b: BindingView,
    at: Option<nat>,
    input: StepInputView,
    caller: Seq<char>,
    id: Seq<char>,
)
    requires
        at matches Some(depth) ==> path_ok(b.todo_groups, depth),
        !has_pending(b.todo_groups, id),
        input matches StepInputView::Children(list) ==> forall|i: int|
            0 <= i < list.len() ==> (#[trigger] list[i]).id != id,
    ensures
        spec_next(b, at, input, caller) matches Some((after, to, out)) ==> {
            &&& out != (StepView::ListReplays { group_id: id })
            &&& out != (StepView::ListChildren { group_id: id })
        },
{
    match input {
        StepInputView::Start => {
            let top = pending_of(b.todo_groups);
            if top.len() > 0 {
                lemma_settle_pending(top, 0);
                let (settled, stop) = spec_settle(top, 0);
                let asked = node_at(settled, stop).id;
                if need_of(node_at(settled, stop)) != Need::Nothing {
                    lemma_pending_kept(b.todo_groups, asked);
                }
            }
        },
        StepInputView::Replays(list) => {
            if at is Some && need_of(node_at(b.todo_groups, at->0)) == Need::Replays {
                let depth = at->0;
                let node = node_at(b.todo_groups, depth);
                let cleared = GroupView { must_fetch_replays: false, ..node };
                let listed = replace_at(b.todo_groups, depth, cleared);
                lemma_replace(b.todo_groups, depth, cleared);
                lemma_settle_pending(listed, depth);
                let (settled, stop) = spec_settle(listed, depth);
                let asked = node_at(settled, stop).id;
                if need_of(node_at(settled, stop)) != Need::Nothing {
                    lemma_pending_replaced(b.todo_groups, depth, cleared, asked);
                    if !has_pending(b.todo_groups, asked) {
                        lemma_pending_on_path(b.todo_groups, depth, asked);
                    }
                }
            }
        },
        StepInputView::Children(list) => {
            if at is Some && need_of(node_at(b.todo_groups, at->0)) == Need::Children {
                let depth = at->0;
                let node = node_at(b.todo_groups, depth);
                let joined = listed_groups(list);
                let grown_node = GroupView {
                    must_fetch_children: false,
                    children: node.children + joined,
                    ..node
                };
                let grown = replace_at(b.todo_groups, depth, grown_node);
                lemma_replace(b.todo_groups, depth, grown_node);
                lemma_settle_pending(grown, depth);
                let (settled, stop) = spec_settle(grown, depth);
                let asked = node_at(settled, stop).id;
                if need_of(node_at(settled, stop)) != Need::Nothing {
                    lemma_pending_replaced(b.todo_groups, depth, grown_node, asked);
                    if !has_pending(b.todo_groups, asked) {
                        if has_pending(grown_node.children, asked) {
                            lemma_pending_joined(node.children, joined, asked);
                            if has_pending(joined, asked) {
                                let made = list.map_values(
                                    |gs: GroupSummaryView| GroupView::from_summary(gs),
                                );
                                lemma_pending_kept(made, asked);
                                let i = choose|i: int|
                                    0 <= i < made.len() && (((#[trigger] made[i]).id == asked
                                        && !made[i].is_done()) || has_pending(
                                        made[i].children,
                                        asked,
                                    ));
                                assert(made[i].children.len() == 0);
                                assert(!has_pending(made[i].children, asked));
                                assert(list[i].id == asked);
                            }
                        }
                        if asked == id {
                            lemma_pending_on_path(b.todo_groups, depth, asked);
                        }
                    }
                }
            }
        },
    }
}

/// A group's own replays come before anything below it: while they are not
/// listed the walk stays at the group, and the group takes no children.
pub proof fn own_replays_come_first(
    b: BindingView,
    depth: nat,
    children: Seq<GroupSummaryView>,
    caller: Seq<char>,
)
    requires
        path_ok(b.todo_groups, depth),
        node_at(b.todo_groups, depth).must_fetch_replays,
    ensures
        spec_settle(b.todo_groups, depth) == (b.todo_groups, depth),
        walk_on_from(b, b.todo_groups, depth).2 == (StepView::ListReplays {
            group_id: node_at(b.todo_groups, depth).id,
        }),
        spec_next(b, Some(depth), StepInputView::Children(children), caller) is None,
{
}

/// Children are visited from left to right, each only when all before it
/// are done: from a group with nothing left to list, the walk steps into
/// the leftmost child that is not done, and goes on from there.
pub proof fn children_left_to_right(groups: Seq<GroupView>, depth: nat) -> (j: int)
    requires
        path_ok(groups, depth),
        need_of(node_at(groups, depth)) == Need::Nothing,
        pending_of(node_at(groups, depth).children).len() > 0,
    ensures
        ({
            let node = node_at(groups, depth);
            let pruned = replace_at(
                groups,
                depth,
                GroupView { children: pending_of(node.children), ..node },
            );
            &&& 0 <= j < node.children.len()
            &&& !node.children[j].is_done()
            &&& forall|i: int| 0 <= i < j ==> (#[trigger] node.children[i]).is_done()
            &&& path_ok(pruned, depth + 1)
            &&& node_at(pruned, depth + 1) == node.children[j]
            &&& spec_settle(groups, depth) == spec_settle(pruned, depth + 1)
        }),
{
    lemma_step_into(groups, depth);
    lemma_first_pending(node_at(groups, depth).children)
}

/// Opens a sweep over the configured bindings, from the state that the
/// last checkpoint held.
///
/// The state is reconciled first: a binding without an entry gets an empty
/// one, an entry without a binding is dropped. The driver that comes back
/// has done nothing yet, and knows for each entry the index of the last
/// binding with its key. Too many bindings to number are refused.
pub fn do_pull(state: State, bindings: &Vec<BindingSpec>) -> (res: Result<Sweep, TooManyBindings>)
    ensures
        match res {
            Ok(sweep) => {
                &&& bindings.len() <= u32::MAX
                &&& keys_sorted(sweep@.entries)
                &&& map_of(sweep@.entries) == spec_reconcile(state@, specs_view(bindings@))
                &&& sweep@.indices.len() == sweep@.entries.len()
                &&& forall|j: int|
                    0 <= j < sweep@.entries.len() ==> is_last_with_key(
                        specs_view(bindings@),
                        (#[trigger] sweep@.entries[j]).0,
                        sweep@.indices[j] as int,
                    )
                &&& sweep@.phase == Phase::Created
                &&& sweep@.caller.len() == 0
                &&& sweep@.walk.len() == 0
                &&& sweep@.lineage.len() == 0
                &&& sweep@.replays.len() == 0
            },
            Err(_) => bindings.len() > u32::MAX,
        },
{
    let mut state = state;
    match state.reconcile(bindings) {
        Ok(indices) => {
            proof {
                state.lemma_view();
            }
            let _ = state.len();
            Ok(Sweep::new(state, indices))
        },
        Err(refused) => Err(refused),
    }
}

} // verus!
