//! Whole runs of the driver: what a sequence of events leads to.

use crate::fetcher::{GroupSummaryView, ReplayView};
use crate::pull::{
    info_of, ingestible, spec_next, spec_should_ingest, spec_start, StepInputView, StepView,
};
use crate::state::{listed_groups, pending_of, BindingView, GroupView, Timestamp};
use crate::sweep::{
    commit, spec_advance, spec_seed_from, spec_step_from, ActionView, EventView, Phase, SweepView,
};
use crate::walk::{lineage_of, position, replace_at};
use vstd::prelude::*;

verus! {

/// The driver after a sequence of events, each with the instant at which
/// it is told of it, and the actions it answered with; `None` where one
/// of the events is out of turn.
pub open spec fn spec_run(v: SweepView, events: Seq<(EventView, int)>) -> Option<
    (SweepView, Seq<ActionView>),
>
    decreases events.len(),
{
    if events.len() == 0 {
        Some((v, Seq::empty()))
    } else {
        match spec_run(v, events.drop_last()) {
            Some((so_far, actions)) => match spec_advance(
                so_far,
                events.last().0,
                events.last().1,
            ) {
                Some((after, action)) => Some((after, actions.push(action))),
                None => None,
            },
            None => None,
        }
    }
}

/// One more event after a run.
pub proof fn lemma_run_on(
    v: SweepView,
    events: Seq<(EventView, int)>,
    event: EventView,
    now: int,
)
    ensures
        spec_run(v, events.push((event, now))) == match spec_run(v, events) {
            Some((so_far, actions)) => match spec_advance(so_far, event, now) {
                Some((after, action)) => Some((after, actions.push(action))),
                None => None,
            },
            None => None,
        },
{
    assert(events.push((event, now)).drop_last() =~= events);
}

/// A driver over one binding.
pub open spec fn single(
    key: Seq<char>,
    binding: BindingView,
    index: u32,
    caller: Seq<char>,
    phase: Phase,
) -> SweepView {
    SweepView {
        entries: seq![(key, binding)],
        indices: seq![index],
        caller,
        phase,
        walk: Seq::empty(),
        lineage: Seq::empty(),
        replays: Seq::empty(),
    }
}

/// A queue of one group that waits for its replays is left as it is by
/// the start of a step, which asks for those replays.
proof fn lemma_start_one_group(b: BindingView, g: GroupView)
    requires
        b.todo_groups == seq![g],
        g.must_fetch_replays,
    ensures
        spec_start(b) == (b, Some(0nat), StepView::ListReplays { group_id: g.id }),
        lineage_of(b.todo_groups, 0) == seq![info_of(g)],
{
    reveal_with_fuel(Seq::filter, 2);
    assert(seq![g].drop_last() =~= Seq::<GroupView>::empty());
    assert(pending_of(seq![g]) =~= seq![g]);
}

/// A queue of one group that is done is emptied by the start of a step,
/// which finds nothing.
proof fn lemma_start_done_group(b: BindingView, g: GroupView)
    requires
        b.todo_groups == seq![g],
        g.is_done(),
    ensures
        spec_start(b) == (
            BindingView { todo_groups: Seq::empty(), ..b },
            None::<nat>,
            StepView::Idle,
        ),
{
    crate::pull::start_with_every_group_done(b);
}

/// A driver over one binding, with all its parts.
pub open spec fn stage(
    key: Seq<char>,
    binding: BindingView,
    index: u32,
    caller: Seq<char>,
    phase: Phase,
    walk: Seq<(Seq<char>, Seq<char>)>,
    lineage: Seq<(Seq<char>, Seq<char>)>,
    replays: Seq<ReplayView>,
) -> SweepView {
    SweepView {
        entries: seq![(key, binding)],
        indices: seq![index],
        caller,
        phase,
        walk,
        lineage,
        replays,
    }
}

/// The listing of one group with replays of its own and none below it
/// begins the sweep of a binding that had none, and the first step asks
/// for the replays of that group.
proof fn lemma_seeded_and_stepped(
    key: Seq<char>,
    b: BindingView,
    index: u32,
    caller: Seq<char>,
    summary: GroupSummaryView,
    started: int,
    now: int,
)
    requires
        b.todo_groups.len() == 0,
        i128::MIN <= started <= i128::MAX,
        GroupView::from_summary(summary).must_fetch_replays,
    ensures
        ({
            let g = GroupView::from_summary(summary);
            let begun = BindingView { sweep_start: Some(started), todo_groups: seq![g], ..b };
            spec_advance(
                stage(
                    key,
                    b,
                    index,
                    caller,
                    Phase::Seeding { entry: 0, started: Timestamp { unix_nanos: started as i128 } },
                    Seq::empty(),
                    Seq::empty(),
                    Seq::empty(),
                ),
                EventView::CreatorGroups(seq![summary]),
                now,
            ) == Some(
                (
                    stage(
                        key,
                        begun,
                        index,
                        caller,
                        Phase::Walking { entry: 0 },
                        seq![info_of(g)],
                        Seq::empty(),
                        Seq::empty(),
                    ),
                    ActionView::ListReplays { group_id: g.id },
                ),
            )
        }),
{
    let g = GroupView::from_summary(summary);
    let begun = BindingView { sweep_start: Some(started), todo_groups: seq![g], ..b };
    let list = seq![summary];
    let made = list.map_values(|gs: GroupSummaryView| GroupView::from_summary(gs));
    reveal_with_fuel(Seq::filter, 2);
    reveal_with_fuel(spec_seed_from, 2);
    reveal_with_fuel(spec_step_from, 2);
    assert(made =~= seq![g]);
    assert(seq![g].drop_last() =~= Seq::<GroupView>::empty());
    assert(pending_of(seq![g]) =~= seq![g]);
    assert(listed_groups(list) == seq![g]);
    assert(b.todo_groups + seq![g] =~= seq![g]);
    assert(b.start_sweep(started, listed_groups(list)) == begun);
    lemma_start_one_group(begun, g);
    let v = stage(
        key,
        b,
        index,
        caller,
        Phase::Seeding { entry: 0, started: Timestamp { unix_nanos: started as i128 } },
        Seq::empty(),
        Seq::empty(),
        Seq::empty(),
    );
    let seeded = SweepView { entries: v.entries.update(0, (key, begun)), ..v };
    assert(seeded.entries =~= seq![(key, begun)]);
    assert(seeded.entries.update(0, (key, begun)) =~= seq![(key, begun)]);
}

/// Listed replays that are all to be captured end the step of the group
/// that waited for them: the group stops waiting, and the first of the
/// replays is captured under the lineage of the group.
proof fn lemma_found(
    key: Seq<char>,
    b: BindingView,
    index: u32,
    caller: Seq<char>,
    g: GroupView,
    first: ReplayView,
    second: ReplayView,
    now: int,
)
    requires
        b.todo_groups == seq![g],
        g.must_fetch_replays,
        spec_should_ingest(b.last_completed_sweep, first, caller),
        spec_should_ingest(b.last_completed_sweep, second, caller),
    ensures
        ({
            let listed = GroupView { must_fetch_replays: false, ..g };
            spec_advance(
                stage(
                    key,
                    b,
                    index,
                    caller,
                    Phase::Walking { entry: 0 },
                    seq![info_of(g)],
                    Seq::empty(),
                    Seq::empty(),
                ),
                EventView::Replays(seq![first, second]),
                now,
            ) == Some(
                (
                    stage(
                        key,
                        BindingView { todo_groups: seq![listed], ..b },
                        index,
                        caller,
                        Phase::Capturing { entry: 0, next: 0 },
                        Seq::empty(),
                        seq![info_of(g)],
                        seq![first, second],
                    ),
                    ActionView::Capture {
                        binding: index,
                        lineage: seq![info_of(g)],
                        replay_id: first.id,
                    },
                ),
            )
        }),
{
    let listed = GroupView { must_fetch_replays: false, ..g };
    let list = seq![first, second];
    let keep = ingestible(b.last_completed_sweep, caller);
    reveal_with_fuel(Seq::filter, 3);
    assert(list.drop_last() =~= seq![first]);
    assert(seq![first].drop_last() =~= Seq::<ReplayView>::empty());
    assert(list.filter(keep) =~= list);
    assert(lineage_of(b.todo_groups, 0) =~= seq![info_of(g)]);
    assert(position(b.todo_groups, seq![info_of(g)]) == Some(0nat));
    assert(replace_at(b.todo_groups, 0, listed) =~= seq![listed]);
    let v = stage(
        key,
        b,
        index,
        caller,
        Phase::Walking { entry: 0 },
        seq![info_of(g)],
        Seq::empty(),
        Seq::empty(),
    );
    let after = BindingView { todo_groups: seq![listed], ..b };
    assert(spec_next(b, Some(0nat), StepInputView::Replays(list), caller) == Some(
        (after, None::<nat>, StepView::Found { lineage: seq![info_of(g)], replays: list }),
    ));
    assert(v.entries.update(0, (key, after)) =~= seq![(key, after)]);
}

/// After the checkpoint that follows the capture, the one group, now
/// done, is dropped by a step that finds nothing, and a checkpoint follows.
proof fn lemma_pruned(
    key: Seq<char>,
    b: BindingView,
    index: u32,
    caller: Seq<char>,
    g: GroupView,
    now: int,
)
    requires
        b.todo_groups == seq![g],
        g.is_done(),
    ensures
        spec_advance(
            stage(
                key,
                b,
                index,
                caller,
                Phase::Committing { next: 1 },
                Seq::empty(),
                Seq::empty(),
                Seq::empty(),
            ),
            EventView::Committed,
            now,
        ) == Some(
            (
                stage(
                    key,
                    BindingView { todo_groups: Seq::empty(), ..b },
                    index,
                    caller,
                    Phase::Committing { next: 1 },
                    Seq::empty(),
                    Seq::empty(),
                    Seq::empty(),
                ),
                commit(),
            ),
        ),
{
    reveal_with_fuel(spec_step_from, 2);
    lemma_start_done_group(b, g);
    let v = stage(
        key,
        b,
        index,
        caller,
        Phase::Committing { next: 1 },
        Seq::empty(),
        Seq::empty(),
        Seq::empty(),
    );
    let after = BindingView { todo_groups: Seq::empty(), ..b };
    assert(v.entries.update(0, (key, after)) =~= seq![(key, after)]);
}

/// With the frontier empty, the next pass ends the sweep: its start
/// becomes the watermark, and the last checkpoint is asked for.
proof fn lemma_closed(key: Seq<char>, b: BindingView, index: u32, caller: Seq<char>, now: int)
    requires
        b.todo_groups.len() == 0,
    ensures
        spec_advance(
            stage(
                key,
                b,
                index,
                caller,
                Phase::Committing { next: 1 },
                Seq::empty(),
                Seq::empty(),
                Seq::empty(),
            ),
            EventView::Committed,
            now,
        ) == Some(
            (
                stage(
                    key,
                    b.finish_sweep(),
                    index,
                    caller,
                    Phase::Closing,
                    Seq::empty(),
                    Seq::empty(),
                    Seq::empty(),
                ),
                commit(),
            ),
        ),
{
    reveal_with_fuel(spec_step_from, 3);
    let v = stage(
        key,
        b,
        index,
        caller,
        Phase::Committing { next: 1 },
        Seq::empty(),
        Seq::empty(),
        Seq::empty(),
    );
    assert(crate::state::finished(v.entries) =~= seq![(key, b.finish_sweep())]);
}

/// The events of the first sweep of one group with two replays of its own.
pub open spec fn first_sweep_events(
    caller: Seq<char>,
    summary: GroupSummaryView,
    first: ReplayView,
    second: ReplayView,
    started: int,
) -> Seq<(EventView, int)> {
    seq![
        (EventView::Start, started),
        (EventView::Pinged(caller), started),
        (EventView::CreatorGroups(seq![summary]), started),
        (EventView::Replays(seq![first, second]), started),
        (EventView::Emitted, started),
        (EventView::Emitted, started),
        (EventView::Committed, started),
        (EventView::Committed, started),
        (EventView::Committed, started),
    ]
}

/// The first sweep of a creator with one group, which has replays of its
/// own and none below it. The binding has never been swept; the listing
/// of the group gives two replays that the caller may see. Then the
/// driver pings, lists the creator's groups, lists the replays of the
/// group, captures the two in their order under the lineage of the group,
/// asks for a checkpoint, drops the group in a step that finds nothing,
/// asks for a checkpoint again, ends the sweep, asks for the last
/// checkpoint, and finishes. In the end the frontier is empty, no sweep
/// is in progress, and the watermark is the instant at which the sweep
/// began.
pub proof fn first_sweep_of_one_group(
    key: Seq<char>,
    collection: Seq<char>,
    creator: Seq<char>,
    index: u32,
    caller: Seq<char>,
    summary: GroupSummaryView,
    first: ReplayView,
    second: ReplayView,
    started: int,
)
    requires
        i128::MIN <= started <= i128::MAX,
        summary.direct_replays matches Some(n) && n > 0,
        !(summary.indirect_replays matches Some(n) && n > 0),
        first.public() || first.uploader == caller,
        second.public() || second.uploader == caller,
    ensures
        ({
            let g = GroupView::from_summary(summary);
            let swept = BindingView {
                last_completed_sweep: Some(started),
                ..BindingView::empty(collection, creator)
            };
            let lineage = seq![(summary.id, summary.name)];
            spec_run(
                stage(
                    key,
                    BindingView::empty(collection, creator),
                    index,
                    Seq::empty(),
                    Phase::Created,
                    Seq::empty(),
                    Seq::empty(),
                    Seq::empty(),
                ),
                first_sweep_events(caller, summary, first, second, started),
            ) == Some(
                (
                    stage(
                        key,
                        swept,
                        index,
                        caller,
                        Phase::Finished,
                        Seq::empty(),
                        Seq::empty(),
                        Seq::empty(),
                    ),
                    seq![
                        ActionView::Ping,
                        ActionView::ListCreatorGroups { creator_id: creator },
                        ActionView::ListReplays { group_id: summary.id },
                        ActionView::Capture { binding: index, lineage, replay_id: first.id },
                        ActionView::Capture { binding: index, lineage, replay_id: second.id },
                        commit(),
                        commit(),
                        commit(),
                        ActionView::Finish,
                    ],
                ),
            )
        }),
{
    let none = Seq::<(Seq<char>, Seq<char>)>::empty();
    let no_replays = Seq::<ReplayView>::empty();
    let g = GroupView::from_summary(summary);
    let listed = GroupView { must_fetch_replays: false, ..g };
    let lineage = seq![info_of(g)];
    let batch = seq![first, second];
    let b0 = BindingView::empty(collection, creator);
    let b1 = BindingView { sweep_start: Some(started), todo_groups: seq![g], ..b0 };
    let b2 = BindingView { todo_groups: seq![listed], ..b1 };
    let b3 = BindingView { todo_groups: Seq::empty(), ..b1 };
    let b4 = BindingView { last_completed_sweep: Some(started), ..b0 };
    let at = Timestamp { unix_nanos: started as i128 };
    let v0 = stage(key, b0, index, Seq::empty(), Phase::Created, none, none, no_replays);
    let v1 = stage(key, b0, index, Seq::empty(), Phase::Pinging, none, none, no_replays);
    let v2 = stage(key, b0, index, caller, Phase::Seeding { entry: 0, started: at }, none, none, no_replays);
    let v3 = stage(key, b1, index, caller, Phase::Walking { entry: 0 }, lineage, none, no_replays);
    let v4 = stage(key, b2, index, caller, Phase::Capturing { entry: 0, next: 0 }, none, lineage, batch);
    let v5 = stage(key, b2, index, caller, Phase::Capturing { entry: 0, next: 1 }, none, lineage, batch);
    let v6 = stage(key, b2, index, caller, Phase::Committing { next: 1 }, none, none, no_replays);
    let v7 = stage(key, b3, index, caller, Phase::Committing { next: 1 }, none, none, no_replays);
    let v8 = stage(key, b4, index, caller, Phase::Closing, none, none, no_replays);
    let v9 = stage(key, b4, index, caller, Phase::Finished, none, none, no_replays);
    let events = first_sweep_events(caller, summary, first, second, started);

    assert(spec_advance(v0, EventView::Start, started) == Some((v1, ActionView::Ping)));
    assert(spec_advance(v1, EventView::Pinged(caller), started) == Some(
        (v2, ActionView::ListCreatorGroups { creator_id: creator }),
    )) by {
        reveal_with_fuel(spec_seed_from, 2);
    }
    lemma_seeded_and_stepped(key, b0, index, caller, summary, started, started);
    lemma_found(key, b1, index, caller, g, first, second, started);
    assert(spec_advance(v4, EventView::Emitted, started) == Some(
        (v5, ActionView::Capture { binding: index, lineage, replay_id: second.id }),
    ));
    assert(spec_advance(v5, EventView::Emitted, started) == Some((v6, commit())));
    lemma_pruned(key, b2, index, caller, listed, started);
    lemma_closed(key, b3, index, caller, started);
    assert(b3.finish_sweep() == b4);
    assert(spec_advance(v8, EventView::Committed, started) == Some((v9, ActionView::Finish)));

    let e0 = Seq::<(EventView, int)>::empty();
    let e1 = e0.push(events[0]);
    let e2 = e1.push(events[1]);
    let e3 = e2.push(events[2]);
    let e4 = e3.push(events[3]);
    let e5 = e4.push(events[4]);
    let e6 = e5.push(events[5]);
    let e7 = e6.push(events[6]);
    let e8 = e7.push(events[7]);
    let e9 = e8.push(events[8]);
    assert(e9 =~= events);
    let a0 = Seq::<ActionView>::empty();
    let a1 = a0.push(ActionView::Ping);
    let a2 = a1.push(ActionView::ListCreatorGroups { creator_id: creator });
    let a3 = a2.push(ActionView::ListReplays { group_id: summary.id });
    let a4 = a3.push(ActionView::Capture { binding: index, lineage, replay_id: first.id });
    let a5 = a4.push(ActionView::Capture { binding: index, lineage, replay_id: second.id });
    let a6 = a5.push(commit());
    let a7 = a6.push(commit());
    let a8 = a7.push(commit());
    let a9 = a8.push(ActionView::Finish);
    assert(spec_run(v0, e0) == Some((v0, a0)));
    lemma_run_on(v0, e0, events[0].0, events[0].1);
    assert(spec_run(v0, e1) == Some((v1, a1)));
    lemma_run_on(v0, e1, events[1].0, events[1].1);
    assert(spec_run(v0, e2) == Some((v2, a2)));
    lemma_run_on(v0, e2, events[2].0, events[2].1);
    assert(spec_run(v0, e3) == Some((v3, a3)));
    lemma_run_on(v0, e3, events[3].0, events[3].1);
    assert(spec_run(v0, e4) == Some((v4, a4)));
    lemma_run_on(v0, e4, events[4].0, events[4].1);
    assert(spec_run(v0, e5) == Some((v5, a5)));
    lemma_run_on(v0, e5, events[5].0, events[5].1);
    assert(spec_run(v0, e6) == Some((v6, a6)));
    lemma_run_on(v0, e6, events[6].0, events[6].1);
    assert(spec_run(v0, e7) == Some((v7, a7)));
    lemma_run_on(v0, e7, events[7].0, events[7].1);
    assert(spec_run(v0, e8) == Some((v8, a8)));
    lemma_run_on(v0, e8, events[8].0, events[8].1);
    assert(spec_run(v0, e9) == Some((v9, a9)));
    assert(a9 =~= seq![
        ActionView::Ping,
        ActionView::ListCreatorGroups { creator_id: creator },
        ActionView::ListReplays { group_id: summary.id },
        ActionView::Capture { binding: index, lineage, replay_id: first.id },
        ActionView::Capture { binding: index, lineage, replay_id: second.id },
        commit(),
        commit(),
        commit(),
        ActionView::Finish,
    ]);
}

} // verus!
