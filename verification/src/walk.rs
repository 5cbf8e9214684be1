//! The walk down the tree of groups: where it stands, where it stops,
//! and what it prunes on the way.
//!
//! A walk always enters the first child, so a depth says where it stands.
//! Nothing here lists anything: the walk stops wherever a group has
//! something to list, and says so.

use crate::pull::{info_of, lineage_info};
use crate::state::{
    groups_view, is_pending, lemma_group_view, lineage_view, pending_of, prune,
    GroupView, ParentGroup, TodoGroup,
};
use std::collections::VecDeque;
use vstd::prelude::*;
use vstd::string::*;

verus! {

/// A walk of `depth` steps down from the front of `groups`, each into the
/// first child, stays inside the tree.
pub open spec fn path_ok(groups: Seq<GroupView>, depth: nat) -> bool
    decreases depth,
{
    groups.len() > 0 && (depth > 0 ==> path_ok(groups[0].children, (depth - 1) as nat))
}

/// The group that such a walk ends at.
pub open spec fn node_at(groups: Seq<GroupView>, depth: nat) -> GroupView
    decreases depth,
{
    if depth == 0 {
        groups[0]
    } else {
        node_at(groups[0].children, (depth - 1) as nat)
    }
}

/// `groups` with the group at the end of the walk replaced by `node`.
pub open spec fn replace_at(groups: Seq<GroupView>, depth: nat, node: GroupView) -> Seq<GroupView>
    decreases depth,
{
    if depth == 0 {
        groups.update(0, node)
    } else {
        groups.update(
            0,
            GroupView {
                children: replace_at(groups[0].children, (depth - 1) as nat, node),
                ..groups[0]
            },
        )
    }
}

/// The groups that the walk passes, from the front of `groups` to where it ends.
pub open spec fn lineage_of(groups: Seq<GroupView>, depth: nat) -> Seq<(Seq<char>, Seq<char>)>
    decreases depth,
{
    if depth == 0 {
        seq![info_of(groups[0])]
    } else {
        seq![info_of(groups[0])] + lineage_of(groups[0].children, (depth - 1) as nat)
    }
}

/// What a group asks of the walk that stands at it.
#[derive(Debug, Clone, Copy, PartialEq, Eq, Structural)]
pub enum Need {
    /// Its own replays are not listed yet: they come first.
    Replays,
    /// Its replays are listed, its children are not.
    Children,
    /// Both are listed.
    Nothing,
}

/// What a group needs: its replays first, then its children.
pub open spec fn need_of(node: GroupView) -> Need {
    if node.must_fetch_replays {
        Need::Replays
    } else if node.must_fetch_children {
        Need::Children
    } else {
        Need::Nothing
    }
}

/// Replacing the group at the end of a walk keeps the walk, and changes
/// nothing above it.
pub proof fn lemma_replace(groups: Seq<GroupView>, depth: nat, node: GroupView)
    requires
        path_ok(groups, depth),
    ensures
        replace_at(groups, depth, node).len() == groups.len(),
        path_ok(replace_at(groups, depth, node), depth),
        node_at(replace_at(groups, depth, node), depth) == node,
        info_of(node) == info_of(node_at(groups, depth)) ==> lineage_of(
            replace_at(groups, depth, node),
            depth,
        ) == lineage_of(groups, depth),
    decreases depth,
{
    if depth > 0 {
        lemma_replace(groups[0].children, (depth - 1) as nat, node);
    }
}

/// Putting back the group that is there changes nothing.
pub proof fn lemma_replace_same(groups: Seq<GroupView>, depth: nat)
    requires
        path_ok(groups, depth),
    ensures
        replace_at(groups, depth, node_at(groups, depth)) == groups,
    decreases depth,
{
    if depth > 0 {
        lemma_replace_same(groups[0].children, (depth - 1) as nat);
    }
    assert(replace_at(groups, depth, node_at(groups, depth)) =~= groups);
}

/// One more step down leads to the first child of where the walk stood.
pub proof fn lemma_descend(groups: Seq<GroupView>, depth: nat)
    requires
        path_ok(groups, depth),
    ensures
        path_ok(groups, depth + 1) <==> node_at(groups, depth).children.len() > 0,
        node_at(groups, depth + 1) == node_at(groups, depth).children[0],
        lineage_of(groups, depth + 1) == lineage_of(groups, depth).push(
            info_of(node_at(groups, depth).children[0]),
        ),
        lineage_of(groups, depth).len() == depth + 1,
    decreases depth,
{
    reveal_with_fuel(path_ok, 2);
    reveal_with_fuel(node_at, 2);
    reveal_with_fuel(lineage_of, 2);
    if depth > 0 {
        lemma_descend(groups[0].children, (depth - 1) as nat);
    }
    assert(lineage_of(groups, depth + 1) =~= lineage_of(groups, depth).push(
        info_of(node_at(groups, depth).children[0]),
    ));
}

/// Where any group of a queue still has work, the first of those that
/// `pending_of` keeps is the leftmost of them: every group before it is done.
pub proof fn lemma_first_pending(groups: Seq<GroupView>) -> (j: int)
    requires
        pending_of(groups).len() > 0,
    ensures
        0 <= j < groups.len(),
        groups[j] == pending_of(groups)[0],
        !groups[j].is_done(),
        forall|i: int| 0 <= i < j ==> (#[trigger] groups[i]).is_done(),
    decreases groups.len(),
{
    reveal(Seq::filter);
    let front = groups.drop_last();
    if pending_of(front).len() > 0 {
        let j = lemma_first_pending(front);
        assert forall|i: int| 0 <= i < j implies (#[trigger] groups[i]).is_done() by {
            assert(front[i].is_done());
        }
        j
    } else {
        lemma_none_pending(front);
        assert forall|i: int| 0 <= i < groups.len() - 1 implies (#[trigger] groups[i]).is_done() by {
            assert(front[i].is_done());
        }
        groups.len() - 1
    }
}

/// Where no group of a queue is kept, every group of it is done.
pub proof fn lemma_none_pending(groups: Seq<GroupView>)
    requires
        pending_of(groups).len() == 0,
    ensures
        forall|i: int| 0 <= i < groups.len() ==> (#[trigger] groups[i]).is_done(),
{
    assert forall|i: int| 0 <= i < groups.len() implies (#[trigger] groups[i]).is_done() by {
        if !groups[i].is_done() {
            groups.lemma_filter_contains(is_pending(), i);
            assert(pending_of(groups).contains(groups[i]));
        }
    }
}

/// The walk from `depth` on, as far as it goes without listing anything.
/// At a group that still has something to list it stops. Else it drops the
/// children that are done; if none is left it stops, the group being
/// exhausted; else it steps into the first child and goes on from there.
/// The result is the tree after the pruning and the depth where the walk stopped.
pub open spec fn spec_settle(groups: Seq<GroupView>, depth: nat) -> (Seq<GroupView>, nat)
    decreases node_at(groups, depth),
    when path_ok(groups, depth)
    via settle_decreases
{
    let node = node_at(groups, depth);
    if node.must_fetch_replays || node.must_fetch_children {
        (groups, depth)
    } else {
        let kids = pending_of(node.children);
        let pruned = replace_at(groups, depth, GroupView { children: kids, ..node });
        if kids.len() == 0 {
            (pruned, depth)
        } else {
            spec_settle(pruned, depth + 1)
        }
    }
}

/// The walk goes on only into a child of the group it stood at.
#[via_fn]
proof fn settle_decreases(groups: Seq<GroupView>, depth: nat) {
    let node = node_at(groups, depth);
    if !(node.must_fetch_replays || node.must_fetch_children) {
        let kids = pending_of(node.children);
        let pruned = replace_at(groups, depth, GroupView { children: kids, ..node });
        if kids.len() > 0 {
            lemma_step_into(groups, depth);
        }
    }
}

/// Pruning the children of the group at `depth` and stepping into the first
/// one that is left leads to a child of that group.
pub proof fn lemma_step_into(groups: Seq<GroupView>, depth: nat)
    requires
        path_ok(groups, depth),
        pending_of(node_at(groups, depth).children).len() > 0,
    ensures
        ({
            let node = node_at(groups, depth);
            let kids = pending_of(node.children);
            let pruned = replace_at(groups, depth, GroupView { children: kids, ..node });
            &&& path_ok(pruned, depth + 1)
            &&& node_at(pruned, depth + 1) == kids[0]
            &&& lineage_of(pruned, depth + 1) == lineage_of(groups, depth).push(info_of(kids[0]))
            &&& decreases_to!(node => kids[0])
        }),
{
    let node = node_at(groups, depth);
    let kids = pending_of(node.children);
    let trimmed = GroupView { children: kids, ..node };
    let pruned = replace_at(groups, depth, trimmed);
    lemma_replace(groups, depth, trimmed);
    lemma_descend(pruned, depth);
    let j = lemma_first_pending(node.children);
    assert(decreases_to!(node => node.children[j]));
}

/// Where a lineage stands in `groups`: the depth of its last entry if it
/// names, entry by entry, the groups of a walk down from the front of
/// `groups`; `None` if it is empty or names anything else.
pub open spec fn position(groups: Seq<GroupView>, lineage: Seq<(Seq<char>, Seq<char>)>) -> Option<nat> {
    let depth = (lineage.len() - 1) as nat;
    if lineage.len() > 0 && path_ok(groups, depth) && lineage == lineage_of(groups, depth) {
        Some(depth)
    } else {
        None
    }
}

/// The lineage of a walk that stands at `at`; empty where it stands nowhere.
pub open spec fn lineage_to(groups: Seq<GroupView>, at: Option<nat>) -> Seq<(Seq<char>, Seq<char>)> {
    match at {
        Some(depth) => lineage_of(groups, depth),
        None => Seq::empty(),
    }
}

/// A lineage stands in `groups` when its first entry names the first group
/// and the rest stands in that group's children.
proof fn lemma_position_unfold(groups: Seq<GroupView>, lineage: Seq<(Seq<char>, Seq<char>)>)
    requires
        lineage.len() > 0,
    ensures
        position(groups, lineage) is Some <==> {
            &&& groups.len() > 0
            &&& lineage[0] == info_of(groups[0])
            &&& lineage.len() > 1 ==> position(groups[0].children, lineage.skip(1)) is Some
        },
        lineage.len() > 1 ==> node_at(groups, (lineage.len() - 1) as nat) == node_at(
            groups[0].children,
            (lineage.len() - 2) as nat,
        ),
{
    let depth = (lineage.len() - 1) as nat;
    if groups.len() > 0 {
        if depth == 0 {
            assert(lineage == lineage_of(groups, 0) <==> lineage[0] == info_of(groups[0])) by {
                if lineage[0] == info_of(groups[0]) {
                    assert(lineage =~= lineage_of(groups, 0));
                }
            }
        } else {
            let rest = lineage.skip(1);
            let below = lineage_of(groups[0].children, (depth - 1) as nat);
            if path_ok(groups[0].children, (depth - 1) as nat) {
                lemma_descend(groups[0].children, (depth - 1) as nat);
            }
            if lineage == lineage_of(groups, depth) {
                assert(rest =~= below);
            }
            if lineage[0] == info_of(groups[0]) && rest == below {
                assert(lineage =~= seq![info_of(groups[0])] + below);
            }
        }
    }
}

/// The group that a lineage stands at, if it stands anywhere in `groups`.
pub(crate) fn locate<'a>(
    groups: &'a VecDeque<TodoGroup>,
    lineage: &Vec<ParentGroup>,
) -> (found: Option<&'a TodoGroup>)
    ensures
        match position(groups_view(groups@), lineage_view(lineage@)) {
            Some(depth) => found matches Some(node) && node@ == node_at(
                groups_view(groups@),
                depth,
            ),
            None => found is None,
        },
{
    if lineage.len() == 0 {
        return None;
    }
    let ghost names = lineage_view(lineage@);
    let ghost last = (lineage.len() - 1) as nat;
    let mut level: &VecDeque<TodoGroup> = groups;
    let mut i: usize = 0;
    proof {
        assert(names.skip(0) =~= names);
    }
    loop
        invariant
            names == lineage_view(lineage@),
            last == lineage.len() - 1,
            i < lineage.len(),
            position(groups_view(groups@), names) is Some <==> position(
                groups_view(level@),
                names.skip(i as int),
            ) is Some,
            node_at(groups_view(groups@), last) == node_at(
                groups_view(level@),
                (last - i) as nat,
            ),
        decreases lineage.len() - i,
    {
        proof {
            lemma_position_unfold(groups_view(level@), names.skip(i as int));
            assert(names.skip(i as int).skip(1) =~= names.skip(i + 1));
        }
        if level.len() == 0 {
            return None;
        }
        let head = &level[0];
        proof {
            lemma_group_view(*head);
        }
        if !(head.id == lineage[i].id && head.name == lineage[i].name) {
            return None;
        }
        if i + 1 == lineage.len() {
            return Some(head);
        }
        level = &head.children;
        i += 1;
    }
}

/// Replacing the group at the end of a walk twice is replacing it once.
pub proof fn lemma_replace_twice(
    groups: Seq<GroupView>,
    depth: nat,
    first: GroupView,
    second: GroupView,
)
    requires
        path_ok(groups, depth),
    ensures
        replace_at(replace_at(groups, depth, first), depth, second) == replace_at(
            groups,
            depth,
            second,
        ),
    decreases depth,
{
    if depth > 0 {
        lemma_replace_twice(groups[0].children, (depth - 1) as nat, first, second);
    }
    assert(replace_at(replace_at(groups, depth, first), depth, second) =~= replace_at(
        groups,
        depth,
        second,
    ));
}

/// A group without id, name or work: what stands in for a group that is
/// taken out of the tree for a moment.
pub open spec fn hollow() -> GroupView {
    GroupView {
        id: Seq::empty(),
        name: Seq::empty(),
        must_fetch_children: false,
        must_fetch_replays: false,
        children: Seq::empty(),
    }
}

/// Swaps the group at the end of a walk with `node`.
fn swap_node(groups: &mut VecDeque<TodoGroup>, depth: usize, node: &mut TodoGroup)
    requires
        path_ok(groups_view(old(groups)@), depth as nat),
    ensures
        final(node)@ == node_at(groups_view(old(groups)@), depth as nat),
        groups_view(final(groups)@) == replace_at(
            groups_view(old(groups)@),
            depth as nat,
            old(node)@,
        ),
    decreases depth,
{
    let ghost before = groups@;
    if let Some(first) = groups.pop_front() {
        let mut first = first;
        let ghost rest = groups@;
        proof {
            lemma_group_view(first);
        }
        let ghost stood = first@;
        if depth == 0 {
            core::mem::swap(&mut first, node);
        } else {
            swap_node(&mut first.children, depth - 1, node);
        }
        proof {
            lemma_group_view(first);
        }
        groups.push_front(first);
        proof {
            assert(groups@ =~= before.update(0, first));
            assert(groups_view(groups@) =~= groups_view(before).update(0, first@));
            if depth > 0 {
                assert(first@ == (GroupView {
                    children: replace_at(stood.children, (depth - 1) as nat, old(node)@),
                    ..stood
                }));
            }
        }
    }
}

/// Takes the group at the end of a walk out of the tree, and leaves a
/// hollow group in its place.
pub(crate) fn take_node(groups: &mut VecDeque<TodoGroup>, depth: usize) -> (node: TodoGroup)
    requires
        path_ok(groups_view(old(groups)@), depth as nat),
    ensures
        node@ == node_at(groups_view(old(groups)@), depth as nat),
        groups_view(final(groups)@) == replace_at(groups_view(old(groups)@), depth as nat, hollow()),
        path_ok(groups_view(final(groups)@), depth as nat),
{
    let mut node = TodoGroup {
        id: String::new(),
        name: String::new(),
        must_fetch_children: false,
        must_fetch_replays: false,
        children: VecDeque::new(),
    };
    proof {
        lemma_group_view(node);
        assert(node@.children =~= Seq::empty());
        lemma_replace(groups_view(groups@), depth as nat, hollow());
    }
    swap_node(groups, depth, &mut node);
    node
}

/// Puts a group where the walk ends, in place of the group that is there.
pub(crate) fn put_node(groups: &mut VecDeque<TodoGroup>, depth: usize, node: TodoGroup)
    requires
        path_ok(groups_view(old(groups)@), depth as nat),
    ensures
        groups_view(final(groups)@) == replace_at(groups_view(old(groups)@), depth as nat, node@),
{
    let mut node = node;
    swap_node(groups, depth, &mut node);
}

/// Walks on from where `lineage` stands until a group has something to
/// list or is exhausted, pruning on the way, and reports what the group it
/// stops at needs, with that group's id.
pub(crate) fn settle(groups: &mut VecDeque<TodoGroup>, lineage: &mut Vec<ParentGroup>) -> (stop: (
    Need,
    String,
))
    requires
        position(groups_view(old(groups)@), lineage_view(old(lineage)@)) is Some,
    ensures
        ({
            let (settled, depth) = spec_settle(
                groups_view(old(groups)@),
                (old(lineage).len() - 1) as nat,
            );
            &&& groups_view(final(groups)@) == settled
            &&& path_ok(settled, depth)
            &&& lineage_view(final(lineage)@) == lineage_of(settled, depth)
            &&& stop.0 == need_of(node_at(settled, depth))
            &&& stop.1@ == node_at(settled, depth).id
        }),
{
    loop
        invariant
            position(groups_view(groups@), lineage_view(lineage@)) is Some,
            spec_settle(groups_view(groups@), (lineage.len() - 1) as nat) == spec_settle(
                groups_view(old(groups)@),
                (old(lineage).len() - 1) as nat,
            ),
        decreases node_at(groups_view(groups@), (lineage.len() - 1) as nat),
    {
        let depth = lineage.len() - 1;
        let ghost before = groups_view(groups@);
        let ghost names = lineage_view(lineage@);
        let mut node = take_node(groups, depth);
        let ghost stood = node@;
        let id = node.id.clone();
        proof {
            lemma_group_view(node);
            lemma_replace_same(before, depth as nat);
            lemma_replace_twice(before, depth as nat, hollow(), stood);
        }
        if node.must_fetch_replays {
            put_node(groups, depth, node);
            return (Need::Replays, id);
        }
        if node.must_fetch_children {
            put_node(groups, depth, node);
            return (Need::Children, id);
        }
        prune(&mut node.children);
        proof {
            lemma_group_view(node);
            lemma_replace(before, depth as nat, node@);
            lemma_replace_twice(before, depth as nat, hollow(), node@);
        }
        if node.children.len() == 0 {
            put_node(groups, depth, node);
            return (Need::Nothing, id);
        }
        let info = lineage_info(&node.children[0]);
        put_node(groups, depth, node);
        proof {
            lemma_step_into(before, depth as nat);
        }
        lineage.push(info);
        proof {
            assert(lineage_view(lineage@) =~= names.push(info@));
        }
    }
}

/// Where the walk stops: inside the tree, no higher than it set out, and
/// either at a group with something to list or at one that is done.
pub proof fn lemma_settle(groups: Seq<GroupView>, depth: nat)
    requires
        path_ok(groups, depth),
    ensures
        ({
            let (settled, stop) = spec_settle(groups, depth);
            &&& path_ok(settled, stop)
            &&& stop >= depth
            &&& need_of(node_at(settled, stop)) == Need::Nothing ==> node_at(settled, stop).is_done()
        }),
    decreases node_at(groups, depth),
{
    let node = node_at(groups, depth);
    if !(node.must_fetch_replays || node.must_fetch_children) {
        let kids = pending_of(node.children);
        let trimmed = GroupView { children: kids, ..node };
        let pruned = replace_at(groups, depth, trimmed);
        lemma_replace(groups, depth, trimmed);
        if kids.len() > 0 {
            lemma_step_into(groups, depth);
            lemma_settle(pruned, depth + 1);
        }
    }
}

/// The queue that holds the group at the end of the walk: that group is
/// its first, and the groups behind it are the ones still to come at that
/// level.
pub open spec fn level_at(groups: Seq<GroupView>, depth: nat) -> Seq<GroupView>
    decreases depth,
{
    if depth == 0 {
        groups
    } else {
        level_at(groups[0].children, (depth - 1) as nat)
    }
}

/// Replacing the group at the end of a walk changes no group that waits
/// behind the walk, at any level down to where it ends; and the queue
/// below the new group is that of its children.
pub proof fn lemma_replace_frame(groups: Seq<GroupView>, depth: nat, node: GroupView, level: nat)
    requires
        path_ok(groups, depth),
        level <= depth,
    ensures
        level_at(replace_at(groups, depth, node), level).skip(1) == level_at(groups, level).skip(1),
        level_at(groups, depth)[0] == node_at(groups, depth),
        level_at(replace_at(groups, depth, node), depth + 1) == node.children,
    decreases depth,
{
    reveal_with_fuel(level_at, 2);
    let replaced = replace_at(groups, depth, node);
    if depth > 0 {
        if level > 0 {
            lemma_replace_frame(groups[0].children, (depth - 1) as nat, node, (level - 1) as nat);
        } else {
            lemma_replace_frame(groups[0].children, (depth - 1) as nat, node, 0);
            assert(replaced.skip(1) =~= groups.skip(1));
        }
    } else {
        assert(replaced.skip(1) =~= groups.skip(1));
    }
}

/// A step stays below where it set out. Whatever the walk prunes and
/// however deep it goes, the groups that wait behind it are untouched, at
/// the top level and at every level down to the group it set out from;
/// and its lineage still begins with the lineage it had. If it steps down,
/// it steps into the first child that is not done, and the children that
/// wait behind that one are those that are not done, as they were.
pub proof fn settle_stays_below(groups: Seq<GroupView>, depth: nat)
    requires
        path_ok(groups, depth),
    ensures
        ({
            let (settled, stop) = spec_settle(groups, depth);
            let node = node_at(groups, depth);
            &&& stop >= depth
            &&& path_ok(settled, stop)
            &&& forall|level: nat|
                level <= depth ==> (#[trigger] level_at(settled, level)).skip(1) == level_at(
                    groups,
                    level,
                ).skip(1)
            &&& lineage_of(settled, stop).take(depth as int + 1) == lineage_of(groups, depth)
            &&& stop > depth ==> {
                &&& need_of(node) == Need::Nothing
                &&& lineage_of(settled, stop)[depth as int + 1] == info_of(pending_of(node.children)[0])
                &&& level_at(settled, depth + 1).skip(1) == pending_of(node.children).skip(1)
            }
        }),
    decreases node_at(groups, depth),
{
    let node = node_at(groups, depth);
    lemma_descend(groups, depth);
    if node.must_fetch_replays || node.must_fetch_children {
        assert(lineage_of(groups, depth).take(depth as int + 1) =~= lineage_of(groups, depth));
    } else {
        let kids = pending_of(node.children);
        let trimmed = GroupView { children: kids, ..node };
        let pruned = replace_at(groups, depth, trimmed);
        lemma_replace(groups, depth, trimmed);
        assert forall|level: nat| level <= depth implies (#[trigger] level_at(pruned, level)).skip(
            1,
        ) == level_at(groups, level).skip(1) by {
            lemma_replace_frame(groups, depth, trimmed, level);
        }
        if kids.len() == 0 {
            assert(lineage_of(pruned, depth).take(depth as int + 1) =~= lineage_of(groups, depth)) by {
                lemma_descend(pruned, depth);
            }
        } else {
            lemma_step_into(groups, depth);
            settle_stays_below(pruned, depth + 1);
            let (settled, stop) = spec_settle(pruned, depth + 1);
            lemma_replace_frame(groups, depth, trimmed, depth);
            assert forall|level: nat| level <= depth implies (#[trigger] level_at(
                settled,
                level,
            )).skip(1) == level_at(groups, level).skip(1) by {
                assert(level_at(settled, level).skip(1) == level_at(pruned, level).skip(1));
            }
            let below = lineage_of(pruned, depth + 1);
            lemma_descend(settled, stop);
            lemma_descend(pruned, depth + 1);
            assert(lineage_of(settled, stop).take(depth as int + 2) == below);
            assert(lineage_of(settled, stop).take(depth as int + 1) =~= lineage_of(groups, depth)) by {
                assert(below == lineage_of(groups, depth).push(info_of(kids[0])));
                assert(lineage_of(settled, stop).take(depth as int + 1) =~= below.take(depth as int + 1));
            }
            assert(lineage_of(settled, stop)[depth as int + 1] == below[depth as int + 1]);
            assert(level_at(settled, depth + 1).skip(1) == level_at(pruned, depth + 1).skip(1));
        }
    }
}

/// Some group of the tree that is not done bears the id: a group of the
/// queue, or one anywhere below it.
pub open spec fn has_pending(groups: Seq<GroupView>, id: Seq<char>) -> bool
    decreases groups,
{
    exists|i: int|
        0 <= i < groups.len() && (((#[trigger] groups[i]).id == id && !groups[i].is_done())
            || has_pending(groups[i].children, id))
}

/// What bears an id among the groups that `pending_of` keeps bore it before.
pub proof fn lemma_pending_kept(groups: Seq<GroupView>, id: Seq<char>)
    requires
        has_pending(pending_of(groups), id),
    ensures
        has_pending(groups, id),
{
    let kept = pending_of(groups);
    let i = choose|i: int|
        0 <= i < kept.len() && (((#[trigger] kept[i]).id == id && !kept[i].is_done())
            || has_pending(kept[i].children, id));
    groups.lemma_filter_contains_rev(is_pending(), kept[i]);
    let j = choose|j: int| 0 <= j < groups.len() && groups[j] == kept[i];
    assert((groups[j].id == id && !groups[j].is_done()) || has_pending(groups[j].children, id));
}

/// What bears an id in one of two queues bears it in the two joined, and
/// the other way round.
pub proof fn lemma_pending_joined(a: Seq<GroupView>, b: Seq<GroupView>, id: Seq<char>)
    requires
        has_pending(a + b, id),
    ensures
        has_pending(a, id) || has_pending(b, id),
{
    let both = a + b;
    let i = choose|i: int|
        0 <= i < both.len() && (((#[trigger] both[i]).id == id && !both[i].is_done())
            || has_pending(both[i].children, id));
    if i < a.len() {
        assert(both[i] == a[i]);
        assert((a[i].id == id && !a[i].is_done()) || has_pending(a[i].children, id));
    } else {
        assert(both[i] == b[i - a.len()]);
        assert((b[i - a.len()].id == id && !b[i - a.len()].is_done()) || has_pending(
            b[i - a.len()].children,
            id,
        ));
    }
}

/// The group at the end of a walk, if it is not done, and every group
/// below it that is not done, are groups of the tree that are not done.
pub proof fn lemma_pending_on_path(groups: Seq<GroupView>, depth: nat, id: Seq<char>)
    requires
        path_ok(groups, depth),
        (node_at(groups, depth).id == id && !node_at(groups, depth).is_done()) || has_pending(
            node_at(groups, depth).children,
            id,
        ),
    ensures
        has_pending(groups, id),
    decreases depth,
{
    if depth > 0 {
        lemma_pending_on_path(groups[0].children, (depth - 1) as nat, id);
    }
    assert((groups[0].id == id && !groups[0].is_done()) || has_pending(groups[0].children, id));
}

/// What bears an id after the group at the end of a walk was replaced
/// bore it before, or is the new group, or is below the new group.
pub proof fn lemma_pending_replaced(
    groups: Seq<GroupView>,
    depth: nat,
    node: GroupView,
    id: Seq<char>,
)
    requires
        path_ok(groups, depth),
        has_pending(replace_at(groups, depth, node), id),
    ensures
        has_pending(groups, id) || (node.id == id && !node.is_done()) || has_pending(
            node.children,
            id,
        ),
    decreases depth,
{
    let replaced = replace_at(groups, depth, node);
    let i = choose|i: int|
        0 <= i < replaced.len() && (((#[trigger] replaced[i]).id == id && !replaced[i].is_done())
            || has_pending(replaced[i].children, id));
    if i > 0 {
        assert(replaced[i] == groups[i]);
        assert((groups[i].id == id && !groups[i].is_done()) || has_pending(groups[i].children, id));
    } else if depth > 0 {
        let below = replace_at(groups[0].children, (depth - 1) as nat, node);
        assert(replaced[0].children == below);
        if has_pending(below, id) {
            lemma_pending_replaced(groups[0].children, (depth - 1) as nat, node, id);
            if has_pending(groups[0].children, id) {
                assert((groups[0].id == id && !groups[0].is_done()) || has_pending(
                    groups[0].children,
                    id,
                ));
            }
        } else {
            assert(groups[0].id == id);
            assert(path_ok(groups[0].children, (depth - 1) as nat));
            assert(groups[0].children.len() > 0);
            assert(!groups[0].is_done());
            assert((groups[0].id == id && !groups[0].is_done()) || has_pending(
                groups[0].children,
                id,
            ));
        }
    }
}

/// The group that a walk stops at to have something listed is a group
/// that was in the tree, and not done, when the walk set out.
pub proof fn lemma_settle_pending(groups: Seq<GroupView>, depth: nat)
    requires
        path_ok(groups, depth),
    ensures
        ({
            let (settled, stop) = spec_settle(groups, depth);
            need_of(node_at(settled, stop)) != Need::Nothing ==> has_pending(
                groups,
                node_at(settled, stop).id,
            )
        }),
    decreases node_at(groups, depth),
{
    let node = node_at(groups, depth);
    if node.must_fetch_replays || node.must_fetch_children {
        lemma_pending_on_path(groups, depth, node.id);
    } else {
        let kids = pending_of(node.children);
        let trimmed = GroupView { children: kids, ..node };
        let pruned = replace_at(groups, depth, trimmed);
        lemma_replace(groups, depth, trimmed);
        if kids.len() > 0 {
            lemma_step_into(groups, depth);
            lemma_settle_pending(pruned, depth + 1);
            let (settled, stop) = spec_settle(pruned, depth + 1);
            let id = node_at(settled, stop).id;
            if need_of(node_at(settled, stop)) != Need::Nothing {
                lemma_pending_replaced(groups, depth, trimmed, id);
                if !has_pending(groups, id) {
                    if has_pending(kids, id) {
                        lemma_pending_kept(node.children, id);
                    }
                    lemma_pending_on_path(groups, depth, id);
                }
            }
        }
    }
}

} // verus!
