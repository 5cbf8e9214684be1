//! The driver of a sweep over all bindings, as a machine: it is told what
//! happened and answers what to do next. Every request and every write is
//! the caller's to perform; every decision is made here.

use crate::clock::utc_now;
use crate::fetcher::{
    replays_view, summaries_view, GroupSummary, GroupSummaryView, PingResponse, ReplaySummary,
    ReplayView,
};
use crate::pull::{spec_next, spec_start, OutOfTurn, Step, StepInput, StepInputView, StepView, Walk};
use crate::walk::{lineage_to, position};
use crate::state::{
    finished, lineage_view, listed_groups, pending_groups, BindingState, BindingView, EntryView,
    ParentGroup, State, Timestamp,
};
use vstd::prelude::*;
use vstd::string::*;

verus! {

/// Where the driver stands.
#[derive(Debug, Clone, Copy, PartialEq, Eq, Structural)]
pub enum Phase {
    /// Nothing was done yet.
    Created,
    /// The caller's identity was asked for.
    Pinging,
    /// The top-level groups of the `entry`-th binding were asked for, at `started`.
    Seeding { entry: usize, started: Timestamp },
    /// The walk of the `entry`-th binding waits for a listing.
    Walking { entry: usize },
    /// The `next`-th replay of the batch found for the `entry`-th binding is being captured.
    Capturing { entry: usize, next: usize },
    /// The checkpoint after a step is being written; then the pass goes
    /// on at the `next`-th binding.
    Committing { next: usize },
    /// Every sweep is ended, and the last checkpoint is being written.
    Closing,
    /// The sweep is over.
    Finished,
}

/// What happened since the last action.
#[derive(Debug)]
pub enum Event {
    /// Nothing yet: the driver is to begin.
    Start,
    /// The API root answered.
    Pinged(PingResponse),
    /// The top-level groups of the creator were listed.
    CreatorGroups(Vec<GroupSummary>),
    /// The replays of the group were listed.
    Replays(Vec<ReplaySummary>),
    /// The children of the group were listed.
    Children(Vec<GroupSummary>),
    /// The replay was fetched and its document written out.
    Emitted,
    /// The checkpoint was written and flushed.
    Committed,
}

/// Model of an [`Event`].
pub enum EventView {
    Start,
    Pinged(Seq<char>),
    CreatorGroups(Seq<GroupSummaryView>),
    Replays(Seq<ReplayView>),
    Children(Seq<GroupSummaryView>),
    Emitted,
    Committed,
}

impl View for Event {
    type V = EventView;

    open spec fn view(&self) -> EventView {
        match self {
            Event::Start => EventView::Start,
            Event::Pinged(ping) => EventView::Pinged(ping.steam_id@),
            Event::CreatorGroups(list) => EventView::CreatorGroups(summaries_view(list@)),
            Event::Replays(list) => EventView::Replays(replays_view(list@)),
            Event::Children(list) => EventView::Children(summaries_view(list@)),
            Event::Emitted => EventView::Emitted,
            Event::Committed => EventView::Committed,
        }
    }
}

/// What the caller is to do next.
#[derive(Debug)]
pub enum Action {
    /// Ask the API root who the caller is.
    Ping,
    /// List the top-level groups of this creator.
    ListCreatorGroups { creator_id: String },
    /// List the replays directly in this group.
    ListReplays { group_id: String },
    /// List the groups directly in this group.
    ListChildren { group_id: String },
    /// Fetch this replay and write its document out for the binding with
    /// this index, with this lineage attached.
    Capture { binding: u32, lineage: Vec<ParentGroup>, replay_id: String },
    /// Write the whole state as a checkpoint, and flush. With `merge_patch`
    /// unset, as it always is, the checkpoint replaces the last one.
    Commit { merge_patch: bool },
    /// Stop: the sweep is complete and committed.
    Finish,
}

/// Model of an [`Action`].
pub enum ActionView {
    Ping,
    ListCreatorGroups { creator_id: Seq<char> },
    ListReplays { group_id: Seq<char> },
    ListChildren { group_id: Seq<char> },
    Capture { binding: u32, lineage: Seq<(Seq<char>, Seq<char>)>, replay_id: Seq<char> },
    Commit { merge_patch: bool },
    Finish,
}

impl View for Action {
    type V = ActionView;

    open spec fn view(&self) -> ActionView {
        match self {
            Action::Ping => ActionView::Ping,
            Action::ListCreatorGroups { creator_id } => ActionView::ListCreatorGroups {
                creator_id: creator_id@,
            },
            Action::ListReplays { group_id } => ActionView::ListReplays { group_id: group_id@ },
            Action::ListChildren { group_id } => ActionView::ListChildren { group_id: group_id@ },
            Action::Capture { binding, lineage, replay_id } => ActionView::Capture {
                binding: *binding,
                lineage: lineage_view(lineage@),
                replay_id: replay_id@,
            },
            Action::Commit { merge_patch } => ActionView::Commit { merge_patch: *merge_patch },
            Action::Finish => ActionView::Finish,
        }
    }
}

/// Model of a [`Sweep`].
pub struct SweepView {
    /// The state, in key order.
    pub entries: Seq<EntryView>,
    /// For each entry, the index of its binding among the configured ones.
    pub indices: Seq<u32>,
    /// Who the caller is, once the ping answered.
    pub caller: Seq<char>,
    pub phase: Phase,
    /// Where the walk in progress stands.
    pub walk: Seq<(Seq<char>, Seq<char>)>,
    /// The lineage of the batch that is being captured.
    pub lineage: Seq<(Seq<char>, Seq<char>)>,
    /// The batch that is being captured.
    pub replays: Seq<ReplayView>,
}

/// Every binding has an empty frontier.
pub open spec fn all_complete(entries: Seq<EntryView>) -> bool {
    forall|i: int| 0 <= i < entries.len() ==> (#[trigger] entries[i]).1.is_sweep_complete()
}

/// The action that captures the `next`-th replay of the batch.
pub open spec fn capture_of(v: SweepView, entry: int, next: int) -> ActionView {
    ActionView::Capture {
        binding: v.indices[entry],
        lineage: v.lineage,
        replay_id: v.replays[next].id,
    }
}

/// The checkpoint that the driver asks for: the whole state, in place of
/// the last checkpoint, never merged into it.
pub open spec fn commit() -> ActionView {
    ActionView::Commit { merge_patch: false }
}

/// Sweeps are begun, in key order from `from`, for the bindings that have
/// none in progress: the first such binding has its top-level groups asked
/// for. With none left the first pass begins.
pub open spec fn spec_seed_from(v: SweepView, from: nat, now: int) -> (SweepView, ActionView)
    decreases v.entries.len() - from,
{
    if from >= v.entries.len() {
        spec_begin_pass(v)
    } else if v.entries[from as int].1.sweep_start is None {
        (
            SweepView {
                phase: Phase::Seeding {
                    entry: from as usize,
                    started: Timestamp { unix_nanos: now as i128 },
                },
                ..v
            },
            ActionView::ListCreatorGroups { creator_id: v.entries[from as int].1.creator_id },
        )
    } else {
        spec_seed_from(v, from + 1, now)
    }
}

/// The driver after a transition of the walk of the `entry`-th binding.
pub open spec fn stepped(
    v: SweepView,
    entry: int,
    after: BindingView,
    at: Option<nat>,
) -> SweepView {
    SweepView {
        entries: v.entries.update(entry, (v.entries[entry].0, after)),
        walk: lineage_to(after.todo_groups, at),
        ..v
    }
}

/// A step of the `entry`-th binding is over: a checkpoint is due, and the
/// pass goes on behind that binding once it is written.
pub open spec fn spec_commit_step(v: SweepView, entry: int) -> (SweepView, ActionView) {
    (SweepView { phase: Phase::Committing { next: (entry + 1) as usize }, ..v }, commit())
}

/// What follows a transition of the walk of the `entry`-th binding: the
/// listing it asks for; or the capture of the first replay it found; or,
/// the step having found nothing, the checkpoint that follows every step.
pub open spec fn spec_halt(v: SweepView, entry: int, out: StepView) -> (SweepView, ActionView) {
    match out {
        StepView::ListReplays { group_id } => (
            SweepView { phase: Phase::Walking { entry: entry as usize }, ..v },
            ActionView::ListReplays { group_id },
        ),
        StepView::ListChildren { group_id } => (
            SweepView { phase: Phase::Walking { entry: entry as usize }, ..v },
            ActionView::ListChildren { group_id },
        ),
        StepView::Found { lineage, replays } => {
            let found = SweepView {
                phase: Phase::Capturing { entry: entry as usize, next: 0 },
                lineage,
                replays,
                ..v
            };
            (found, capture_of(found, entry, 0))
        },
        StepView::Idle => spec_commit_step(v, entry),
    }
}

/// The first binding at or behind the `from`-th whose frontier is not
/// empty takes a step; `None` where there is no such binding.
pub open spec fn spec_step_from(v: SweepView, from: nat) -> Option<(SweepView, ActionView)>
    decreases v.entries.len() - from,
{
    if from >= v.entries.len() {
        None
    } else if v.entries[from as int].1.is_sweep_complete() {
        spec_step_from(v, from + 1)
    } else {
        let (after, at, out) = spec_start(v.entries[from as int].1);
        Some(spec_halt(stepped(v, from as int, after, at), from as int, out))
    }
}

/// A pass over the bindings begins: the first binding whose frontier is
/// not empty takes a step. Where every frontier is empty every sweep is
/// ended, and the last checkpoint is due.
pub open spec fn spec_begin_pass(v: SweepView) -> (SweepView, ActionView) {
    match spec_step_from(v, 0) {
        Some(halted) => halted,
        None => (SweepView { entries: finished(v.entries), phase: Phase::Closing, ..v }, commit()),
    }
}

/// The pass goes on at the `from`-th binding: the next binding whose
/// frontier is not empty takes a step. Where none is left in this pass,
/// the next pass begins.
pub open spec fn spec_go_on(v: SweepView, from: nat) -> (SweepView, ActionView) {
    match spec_step_from(v, from) {
        Some(halted) => halted,
        None => spec_begin_pass(v),
    }
}

/// A listing reaches the walk of the `entry`-th binding, and the walk goes on.
pub open spec fn spec_listing(v: SweepView, entry: nat, input: StepInputView) -> Option<
    (SweepView, ActionView),
> {
    if entry < v.entries.len() {
        let binding = v.entries[entry as int].1;
        match spec_next(binding, position(binding.todo_groups, v.walk), input, v.caller) {
            Some((after, at, out)) => Some(
                spec_halt(stepped(v, entry as int, after, at), entry as int, out),
            ),
            None => None,
        }
    } else {
        None
    }
}

/// One transition of the driver: the driver after the event and the action
/// it answers with; `None` where the event is not the one awaited.
///
/// The driver pings first. Then it begins a sweep for every binding that
/// has none in progress, with `now` as its start. Then it makes passes
/// over the bindings in key order, one step of each binding whose frontier
/// is not empty per pass. What a step finds is captured replay by replay;
/// then, and after a step that found nothing, a checkpoint is asked for,
/// and only when it is written the pass goes on. When every frontier is
/// empty the driver ends every sweep, asks for a last checkpoint, and
/// finishes.
pub open spec fn spec_advance(v: SweepView, event: EventView, now: int) -> Option<
    (SweepView, ActionView),
> {
    match (v.phase, event) {
        (Phase::Created, EventView::Start) => Some(
            (SweepView { phase: Phase::Pinging, ..v }, ActionView::Ping),
        ),
        (Phase::Pinging, EventView::Pinged(id)) => Some(
            spec_seed_from(SweepView { caller: id, ..v }, 0, now),
        ),
        (Phase::Seeding { entry, started }, EventView::CreatorGroups(list)) => {
            if entry < v.entries.len() {
                let (key, binding) = v.entries[entry as int];
                let begun = binding.start_sweep(started.unix_nanos as int, listed_groups(list));
                Some(
                    spec_seed_from(
                        SweepView { entries: v.entries.update(entry as int, (key, begun)), ..v },
                        (entry + 1) as nat,
                        now,
                    ),
                )
            } else {
                None
            }
        },
        (Phase::Walking { entry }, EventView::Replays(list)) => spec_listing(
            v,
            entry as nat,
            StepInputView::Replays(list),
        ),
        (Phase::Walking { entry }, EventView::Children(list)) => spec_listing(
            v,
            entry as nat,
            StepInputView::Children(list),
        ),
        (Phase::Capturing { entry, next }, EventView::Emitted) => {
            if entry >= v.entries.len() {
                None
            } else if next + 1 < v.replays.len() {
                Some(
                    (
                        SweepView { phase: Phase::Capturing { entry, next: (next + 1) as usize }, ..v },
                        capture_of(v, entry as int, next + 1),
                    ),
                )
            } else {
                Some(
                    spec_commit_step(
                        SweepView { lineage: Seq::empty(), replays: Seq::empty(), ..v },
                        entry as int,
                    ),
                )
            }
        },
        (Phase::Committing { next }, EventView::Committed) => Some(spec_go_on(v, next as nat)),
        (Phase::Closing, EventView::Committed) => Some(
            (SweepView { phase: Phase::Finished, ..v }, ActionView::Finish),
        ),
        _ => None,
    }
}

/// The parts of the driver.
struct Core {
    state: State,
    indices: Vec<u32>,
    caller: String,
    phase: Phase,
    walk: Walk,
    lineage: Vec<ParentGroup>,
    replays: Vec<ReplaySummary>,
}

impl View for Core {
    type V = SweepView;

    closed spec fn view(&self) -> SweepView {
        SweepView {
            entries: self.state.entries(),
            indices: self.indices@,
            caller: self.caller@,
            phase: self.phase,
            walk: self.walk@,
            lineage: lineage_view(self.lineage@),
            replays: replays_view(self.replays@),
        }
    }
}

/// A copy of a lineage.
fn copy_lineage(lineage: &Vec<ParentGroup>) -> (copy: Vec<ParentGroup>)
    ensures
        lineage_view(copy@) == lineage_view(lineage@),
{
    let mut copy: Vec<ParentGroup> = Vec::new();
    let mut i: usize = 0;
    while i < lineage.len()
        invariant
            i <= lineage.len(),
            lineage_view(copy@) == lineage_view(lineage@).take(i as int),
        decreases lineage.len() - i,
    {
        let ghost held = lineage_view(copy@);
        copy.push(ParentGroup { id: lineage[i].id.clone(), name: lineage[i].name.clone() });
        assert(lineage_view(copy@) =~= held.push(lineage@[i as int]@));
        assert(lineage_view(lineage@).take(i + 1) =~= held.push(lineage@[i as int]@));
        i += 1;
    }
    assert(lineage_view(lineage@).take(lineage.len() as int) =~= lineage_view(lineage@));
    copy
}

impl Core {
    /// Every entry of the state has its number.
    spec fn numbered(&self) -> bool {
        self.indices@.len() == self.state.entries().len()
    }

    /// The parts of a driver that has done nothing yet.
    fn new(state: State, indices: Vec<u32>) -> (sweep: Core)
        requires
            indices@.len() == state.entries().len(),
        ensures
            sweep.numbered(),
            sweep@ == (SweepView {
                entries: state.entries(),
                indices: indices@,
                caller: Seq::empty(),
                phase: Phase::Created,
                walk: Seq::empty(),
                lineage: Seq::empty(),
                replays: Seq::empty(),
            }),
    {
        let sweep = Core {
            state,
            indices,
            caller: String::new(),
            phase: Phase::Created,
            walk: Walk::new(),
            lineage: Vec::new(),
            replays: Vec::new(),
        };
        assert(lineage_view(sweep.lineage@) =~= Seq::empty());
        assert(replays_view(sweep.replays@) =~= Seq::empty());
        sweep
    }

    /// The action that captures the `next`-th replay of the batch.
    fn capture(&self, entry: usize, next: usize) -> (action: Action)
        requires
            self.numbered(),
            entry < self@.entries.len(),
            next < self@.replays.len(),
        ensures
            action@ == capture_of(self@, entry as int, next as int),
    {
        Action::Capture {
            binding: self.indices[entry],
            lineage: copy_lineage(&self.lineage),
            replay_id: self.replays[next].id.clone(),
        }
    }

    /// Asks for the checkpoint that follows a step of the `entry`-th binding.
    fn commit_step(&mut self, entry: usize) -> (action: Action)
        requires
            old(self).numbered(),
            entry < old(self)@.entries.len(),
        ensures
            final(self).numbered(),
            (final(self)@, action@) == spec_commit_step(old(self)@, entry as int),
    {
        let bindings = self.state.len();
        assert(entry < bindings);
        self.phase = Phase::Committing { next: entry + 1 };
        Action::Commit { merge_patch: false }
    }

    /// Answers what a step asks for or found; or, where it found nothing,
    /// asks for the checkpoint that follows it.
    fn halt(&mut self, entry: usize, step: Step) -> (action: Action)
        requires
            old(self).numbered(),
            entry < old(self)@.entries.len(),
            step@ matches StepView::Found { lineage, replays } ==> replays.len() > 0,
        ensures
            final(self).numbered(),
            (final(self)@, action@) == spec_halt(old(self)@, entry as int, step@),
    {
        match step {
            Step::ListReplays { group_id } => {
                self.phase = Phase::Walking { entry };
                Action::ListReplays { group_id }
            },
            Step::ListChildren { group_id } => {
                self.phase = Phase::Walking { entry };
                Action::ListChildren { group_id }
            },
            Step::Found { lineage, replays } => {
                self.phase = Phase::Capturing { entry, next: 0 };
                self.lineage = lineage;
                self.replays = replays;
                self.capture(entry, 0)
            },
            Step::Idle => self.commit_step(entry),
        }
    }

    /// Lets the first binding at or behind the `from`-th whose frontier is
    /// not empty take a step.
    fn step_from(&mut self, from: usize) -> (halted: Option<Action>)
        requires
            old(self).numbered(),
        ensures
            final(self).numbered(),
            match spec_step_from(old(self)@, from as nat) {
                Some((after, action)) => halted matches Some(a) && a@ == action && final(self)@
                    == after,
                None => halted is None && final(self)@ == old(self)@,
            },
    {
        let mut i = from;
        while i < self.state.len()
            invariant
                self.numbered(),
                self@ == old(self)@,
                spec_step_from(self@, i as nat) == spec_step_from(old(self)@, from as nat),
            decreases self@.entries.len() - i,
        {
            if !self.state.binding_at(i).is_sweep_complete() {
                let stepped = self.state.step_at(
                    i,
                    &mut self.walk,
                    StepInput::Start,
                    self.caller.as_str(),
                );
                if let Ok(step) = stepped {
                    return Some(self.halt(i, step));
                }
            }
            i += 1;
        }
        None
    }

    /// Begins a pass, or ends every sweep if no frontier has anything left.
    fn begin_pass(&mut self) -> (action: Action)
        requires
            old(self).numbered(),
        ensures
            final(self).numbered(),
            (final(self)@, action@) == spec_begin_pass(old(self)@),
    {
        match self.step_from(0) {
            Some(action) => action,
            None => {
                self.state.finish_sweeps();
                self.phase = Phase::Closing;
                Action::Commit { merge_patch: false }
            },
        }
    }

    /// Goes on with the pass at the `from`-th binding, or begins the next.
    fn go_on(&mut self, from: usize) -> (action: Action)
        requires
            old(self).numbered(),
        ensures
            final(self).numbered(),
            (final(self)@, action@) == spec_go_on(old(self)@, from as nat),
    {
        match self.step_from(from) {
            Some(action) => action,
            None => self.begin_pass(),
        }
    }

    /// Begins the sweeps that are due, from the `from`-th binding on.
    fn seed_from(&mut self, from: usize, now: Timestamp) -> (action: Action)
        requires
            old(self).numbered(),
        ensures
            final(self).numbered(),
            (final(self)@, action@) == spec_seed_from(
                old(self)@,
                from as nat,
                now.unix_nanos as int,
            ),
    {
        let mut i = from;
        while i < self.state.len()
            invariant
                self@ == old(self)@,
                self.numbered(),
                spec_seed_from(self@, i as nat, now.unix_nanos as int) == spec_seed_from(
                    old(self)@,
                    from as nat,
                    now.unix_nanos as int,
                ),
            decreases self@.entries.len() - i,
        {
            let binding = self.state.binding_at(i);
            if binding.sweep_start.is_none() {
                let creator_id = binding.creator_id.clone();
                self.phase = Phase::Seeding { entry: i, started: now };
                return Action::ListCreatorGroups { creator_id };
            }
            i += 1;
        }
        self.begin_pass()
    }

    /// Hands a listing to the walk of the `entry`-th binding.
    fn listing(&mut self, entry: usize, input: StepInput) -> (res: Result<Action, OutOfTurn>)
        requires
            old(self).numbered(),
        ensures
            final(self).numbered(),
            match spec_listing(old(self)@, entry as nat, input@) {
                Some((after, action)) => res matches Ok(a) && a@ == action && final(self)@ == after,
                None => res is Err && final(self)@ == old(self)@,
            },
    {
        if entry >= self.state.len() {
            return Err(OutOfTurn);
        }
        match self.state.step_at(entry, &mut self.walk, input, self.caller.as_str()) {
            Ok(step) => Ok(self.halt(entry, step)),
            Err(refused) => Err(refused),
        }
    }

    /// One transition, with `now` as the start of any sweep that it begins.
    fn advance_at(&mut self, event: Event, now: Timestamp) -> (res: Result<Action, OutOfTurn>)
        requires
            old(self).numbered(),
        ensures
            final(self).numbered(),
            match spec_advance(old(self)@, event@, now.unix_nanos as int) {
                Some((after, action)) => res matches Ok(a) && a@ == action && final(self)@ == after,
                None => res is Err && final(self)@ == old(self)@,
            },
    {
        match (self.phase, event) {
            (Phase::Created, Event::Start) => {
                self.phase = Phase::Pinging;
                Ok(Action::Ping)
            },
            (Phase::Pinging, Event::Pinged(ping)) => {
                self.caller = ping.steam_id;
                Ok(self.seed_from(0, now))
            },
            (Phase::Seeding { entry, started }, Event::CreatorGroups(list)) => {
                if entry < self.state.len() {
                    self.state.start_sweep_at(entry, started, pending_groups(list));
                    Ok(self.seed_from(entry + 1, now))
                } else {
                    Err(OutOfTurn)
                }
            },
            (Phase::Walking { entry }, Event::Replays(list)) => self.listing(
                entry,
                StepInput::Replays(list),
            ),
            (Phase::Walking { entry }, Event::Children(list)) => self.listing(
                entry,
                StepInput::Children(list),
            ),
            (Phase::Capturing { entry, next }, Event::Emitted) => {
                if entry >= self.state.len() {
                    Err(OutOfTurn)
                } else if self.replays.len() > 0 && next < self.replays.len() - 1 {
                    self.phase = Phase::Capturing { entry, next: next + 1 };
                    Ok(self.capture(entry, next + 1))
                } else {
                    self.lineage = Vec::new();
                    self.replays = Vec::new();
                    assert(lineage_view(self.lineage@) =~= Seq::empty());
                    assert(replays_view(self.replays@) =~= Seq::empty());
                    Ok(self.commit_step(entry))
                }
            },
            (Phase::Committing { next }, Event::Committed) => Ok(self.go_on(next)),
            (Phase::Closing, Event::Committed) => {
                self.phase = Phase::Finished;
                Ok(Action::Finish)
            },
            _ => Err(OutOfTurn),
        }
    }
}

/// The driver of one sweep over all bindings.
pub struct Sweep {
    core: Core,
}

impl View for Sweep {
    type V = SweepView;

    closed spec fn view(&self) -> SweepView {
        self.core@
    }
}

impl Sweep {
    /// Every entry of the state has its number.
    #[verifier::type_invariant]
    closed spec fn numbered(&self) -> bool {
        self.core.numbered()
    }

    /// A driver that has done nothing yet, over a state whose entries are
    /// numbered by `indices`.
    pub(crate) fn new(state: State, indices: Vec<u32>) -> (sweep: Sweep)
        requires
            indices@.len() == state.entries().len(),
        ensures
            sweep@ == (SweepView {
                entries: state.entries(),
                indices: indices@,
                caller: Seq::empty(),
                phase: Phase::Created,
                walk: Seq::empty(),
                lineage: Seq::empty(),
                replays: Seq::empty(),
            }),
    {
        Sweep { core: Core::new(state, indices) }
    }

    /// The state as it stands: what a checkpoint holds.
    pub fn state(&self) -> (state: &State)
        ensures
            state.entries() == self@.entries,
    {
        &self.core.state
    }

    /// Where the driver stands.
    pub fn phase(&self) -> (phase: Phase)
        ensures
            phase == self@.phase,
    {
        self.core.phase
    }

    /// Who the caller is: empty until the ping answered.
    pub fn caller(&self) -> (caller: &String)
        ensures
            caller@ == self@.caller,
    {
        &self.core.caller
    }

    /// The binding whose walk waits for a listing, if one does.
    pub fn waiting_binding(&self) -> (binding: Option<&BindingState>)
        ensures
            match self@.phase {
                Phase::Walking { entry } if entry < self@.entries.len() => binding matches Some(b)
                    && b@ == self@.entries[entry as int].1,
                _ => binding is None,
            },
    {
        match self.core.phase {
            Phase::Walking { entry } => {
                if entry < self.core.state.len() {
                    Some(self.core.state.binding_at(entry))
                } else {
                    None
                }
            },
            _ => None,
        }
    }

    /// One transition of the driver, with `now` as the start of any sweep
    /// that it begins. An event that is not the one awaited is refused,
    /// and nothing changes.
    pub fn advance_at(&mut self, event: Event, now: Timestamp) -> (res: Result<
        Action,
        OutOfTurn,
    >)
        ensures
            match spec_advance(old(self)@, event@, now.unix_nanos as int) {
                Some((after, action)) => res matches Ok(a) && a@ == action && final(self)@ == after,
                None => res is Err && final(self)@ == old(self)@,
            },
    {
        proof {
            use_type_invariant(&*self);
        }
        let mut core = Core::new(State::new(), Vec::new());
        core::mem::swap(&mut core, &mut self.core);
        let res = core.advance_at(event, now);
        self.core = core;
        res
    }

    /// One transition of the driver. A sweep that it begins starts at the
    /// instant the clock gives when this is called.
    pub fn advance(&mut self, event: Event) -> (res: Result<Action, OutOfTurn>)
        ensures
            exists|now: int| #[trigger]
                spec_advance(old(self)@, event@, now) == match res {
                    Ok(action) => Some((final(self)@, action@)),
                    Err(_) => None::<(SweepView, ActionView)>,
                },
            res is Err ==> final(self)@ == old(self)@,
    {
        let now = utc_now();
        let ghost before = self@;
        let ghost happened = event@;
        let res = self.advance_at(event, now);
        proof {
            let at = now.unix_nanos as int;
            assert(spec_advance(before, happened, at) == match res {
                Ok(action) => Some((self@, action@)),
                Err(_) => None::<(SweepView, ActionView)>,
            });
        }
        res
    }
}

/// No checkpoint is asked for while replays of a batch wait to be
/// captured: as long as any is left, the only event taken is that the one
/// before it went out, and the answer is the capture of the next. So what
/// a checkpoint marks as listed was written out before it.
pub proof fn captures_come_before_commit(v: SweepView, event: EventView, now: int)
    requires
        v.phase matches Phase::Capturing { entry, next } && next + 1 < v.replays.len(),
    ensures
        match spec_advance(v, event, now) {
            Some((after, action)) => {
                &&& event is Emitted
                &&& action == capture_of(v, v.phase->Capturing_entry as int, v.phase->Capturing_next + 1)
                &&& after.entries == v.entries
                &&& after.replays == v.replays
            },
            None => true,
        },
{
}

/// A step that finds replays is answered with the capture of the first of
/// them, never with a checkpoint.
pub proof fn found_replays_are_captured(v: SweepView, entry: int, out: StepView)
    requires
        out is Found,
    ensures
        spec_halt(v, entry, out).1 is Capture,
        spec_halt(v, entry, out).0.phase == (Phase::Capturing { entry: entry as usize, next: 0 }),
{
}

/// A checkpoint follows every step. A step that found nothing is answered
/// with a checkpoint; so is the news that the last replay of a batch went
/// out. In both cases the state is the one the step left, and the pass
/// waits behind the binding that took the step.
pub proof fn checkpoint_follows_every_step(v: SweepView, entry: usize, now: int)
    requires
        entry < v.entries.len(),
    ensures
        spec_halt(v, entry as int, StepView::Idle) == (
            SweepView { phase: Phase::Committing { next: (entry + 1) as usize }, ..v },
            commit(),
        ),
        v.phase matches Phase::Capturing { entry: e, next } && e == entry && next + 1
            >= v.replays.len() ==> spec_advance(v, EventView::Emitted, now) == Some(
            (
                SweepView {
                    phase: Phase::Committing { next: (entry + 1) as usize },
                    lineage: Seq::empty(),
                    replays: Seq::empty(),
                    ..v
                },
                commit(),
            ),
        ),
{
}

/// The pass goes on only when the checkpoint is written: while one is
/// awaited, no other event is taken.
pub proof fn pass_waits_for_checkpoint(v: SweepView, event: EventView, now: int)
    requires
        v.phase is Committing || v.phase is Closing,
        !(event is Committed),
    ensures
        spec_advance(v, event, now) is None,
{
}

/// No binding from the `from`-th on takes a step exactly when each of
/// them has an empty frontier.
pub proof fn lemma_no_step(v: SweepView, from: nat)
    ensures
        spec_step_from(v, from) is None <==> forall|i: int|
            from <= i < v.entries.len() ==> (#[trigger] v.entries[i]).1.is_sweep_complete(),
    decreases v.entries.len() - from,
{
    if from < v.entries.len() {
        lemma_no_step(v, from + 1);
        if v.entries[from as int].1.is_sweep_complete() {
            assert forall|i: int| from <= i < v.entries.len() && (forall|j: int|
                from + 1 <= j < v.entries.len() ==> (#[trigger] v.entries[j]).1.is_sweep_complete())
                implies (#[trigger] v.entries[i]).1.is_sweep_complete() by {
                if i > from {
                    assert(v.entries[i].1.is_sweep_complete());
                }
            }
        }
    }
}

/// The sweeps are ended, and the last checkpoint asked for, exactly when a
/// pass begins with every frontier empty. Then each binding has the start
/// of its sweep as its watermark and no sweep in progress.
pub proof fn sweeps_end_when_all_complete(v: SweepView)
    ensures
        all_complete(v.entries) ==> spec_begin_pass(v) == (
            SweepView { entries: finished(v.entries), phase: Phase::Closing, ..v },
            commit(),
        ),
        !all_complete(v.entries) ==> spec_begin_pass(v) == spec_step_from(v, 0)->0
            && spec_step_from(v, 0) is Some,
{
    lemma_no_step(v, 0);
}

/// What a step of a pass answers is never a checkpoint that merges.
proof fn lemma_step_from_never_merges(v: SweepView, from: nat)
    ensures
        spec_step_from(v, from) matches Some((_, ActionView::Commit { merge_patch }))
            ==> !merge_patch,
    decreases v.entries.len() - from,
{
    if from < v.entries.len() && v.entries[from as int].1.is_sweep_complete() {
        lemma_step_from_never_merges(v, from + 1);
    }
}

/// What the seeding answers is never a checkpoint that merges.
proof fn lemma_seed_never_merges(v: SweepView, from: nat, now: int)
    ensures
        spec_seed_from(v, from, now).1 matches ActionView::Commit { merge_patch } ==> !merge_patch,
    decreases v.entries.len() - from,
{
    lemma_step_from_never_merges(v, 0);
    if from < v.entries.len() && v.entries[from as int].1.sweep_start is Some {
        lemma_seed_never_merges(v, from + 1, now);
    }
}

/// Every checkpoint that the driver asks for replaces the last one: none
/// is a patch to be merged.
pub proof fn checkpoints_never_merge(v: SweepView, event: EventView, now: int)
    ensures
        spec_advance(v, event, now) matches Some((_, ActionView::Commit { merge_patch }))
            ==> !merge_patch,
{
    match (v.phase, event) {
        (Phase::Pinging, EventView::Pinged(id)) => {
            lemma_seed_never_merges(SweepView { caller: id, ..v }, 0, now);
        },
        (Phase::Seeding { entry, started }, EventView::CreatorGroups(list)) => {
            if entry < v.entries.len() {
                let (key, binding) = v.entries[entry as int];
                let begun = binding.start_sweep(started.unix_nanos as int, listed_groups(list));
                lemma_seed_never_merges(
                    SweepView { entries: v.entries.update(entry as int, (key, begun)), ..v },
                    (entry + 1) as nat,
                    now,
                );
            }
        },
        (Phase::Committing { next }, EventView::Committed) => {
            lemma_step_from_never_merges(v, next as nat);
            lemma_step_from_never_merges(v, 0);
        },
        _ => {},
    }
}

} // verus!
