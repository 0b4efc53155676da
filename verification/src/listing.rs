//! What a walk writes, told for a whole tree at once.
//!
//! [`listing`] says what the listing of a tree is: the lines, from the
//! first to the last, and how it ends. The laws of this module show that a
//! walk that is answered from the tree writes exactly that, and ends.

use crate::args::Context;
use crate::arrange::{
    arrangement, lemma_arrangement_exists, lemma_arrangement_total, tally, total,
};
use crate::walk::{
    filter_for, lemma_paused_advanced, lemma_paused_entered, lemma_step, paused, sorter_for, Level,
    Outcome, Phase, Signal, Walk,
};
use crate::entry::{dotted, Slot};
use crate::filter::{keeps, Filter};
use crate::order::Sorter;
use vstd::prelude::*;

verus! {

/// One child of a directory, with what reading it gives should it be read.
pub struct Branch {
    pub slot: Slot,
    pub below: Tree,
}

/// What reading a directory gives, all the way down.
pub enum Tree {
    /// The directory cannot be read, and why.
    Unreadable { fault: Seq<char> },
    /// The children of the directory, in the order of enumeration.
    Listed { branches: Seq<Branch> },
}

impl Tree {
    /// What the enumeration of the directory gives.
    pub open spec fn rows(self) -> Seq<Slot> {
        match self {
            Tree::Unreadable { .. } => Seq::empty(),
            Tree::Listed { branches } => Seq::new(branches.len(), |i: int| branches[i].slot),
        }
    }

    /// What is reported when the directory is read.
    pub open spec fn signal(self) -> Signal {
        match self {
            Tree::Unreadable { fault } => Signal::Unreadable(fault),
            Tree::Listed { .. } => Signal::Listed(self.rows()),
        }
    }

    /// Whether the directory has a child at the position.
    pub open spec fn holds(self, at: int) -> bool {
        self is Listed && 0 <= at < self->branches.len()
    }

    /// What reading the child at the position gives.
    pub open spec fn child(self, at: int) -> Tree {
        if self.holds(at) {
            self->branches[at].below
        } else {
            Tree::Unreadable { fault: Seq::empty() }
        }
    }

    /// No directory of the tree has more children than a machine can count.
    pub open spec fn sound(self) -> bool
        decreases self,
    {
        match self {
            Tree::Unreadable { .. } => true,
            Tree::Listed { branches } => branches.len() <= usize::MAX && forall|i: int|
                0 <= i < branches.len() ==> (#[trigger] branches[i]).below.sound(),
        }
    }
}

/// What is written for a directory from its `i`-th shown row on, and `then`
/// after it.
///
/// `order` is how the rows of the directory are shown, and `above` holds a
/// flag for each ancestor below the root. An enumeration error ends the
/// listing. An entry gets its line, with the flags of its ancestors and its
/// own, and then what lies below it.
pub open spec fn rows_listing(
    filter: Option<Filter>,
    sorter: Option<Sorter>,
    tree: Tree,
    order: Seq<usize>,
    i: int,
    above: Seq<bool>,
    then: Seq<Outcome>,
) -> Seq<Outcome>
    decreases tree, 0nat, 2 * (order.len() - i) + 1,
{
    if i >= order.len() || !tree.holds(order[i] as int) {
        then
    } else {
        match tree->branches[order[i] as int].slot {
            Err(fault) => seq![Outcome::Abort(fault@)],
            Ok(entry) => seq![Outcome::Line { levels: above.push(i + 1 < order.len()), entry }]
                + below_listing(filter, sorter, tree, order, i, above, then),
        }
    }
}

/// What is written after the line of the `i`-th shown row of a directory.
///
/// An entry of unknown type ends the listing. A directory is listed, one
/// level deeper, before the rows that follow it; any other entry is followed
/// by them at once.
pub open spec fn below_listing(
    filter: Option<Filter>,
    sorter: Option<Sorter>,
    tree: Tree,
    order: Seq<usize>,
    i: int,
    above: Seq<bool>,
    then: Seq<Outcome>,
) -> Seq<Outcome>
    decreases tree, 0nat, 2 * (order.len() - i),
{
    if i >= order.len() || !tree.holds(order[i] as int) {
        then
    } else {
        let branch = tree->branches[order[i] as int];
        match branch.slot {
            Err(_) => then,
            Ok(entry) => match entry.is_dir {
                Err(fault) => seq![Outcome::Abort(fault@)],
                Ok(is_dir) => {
                    let rest = rows_listing(filter, sorter, tree, order, i + 1, above, then);
                    if is_dir {
                        dir_listing(
                            filter,
                            sorter,
                            branch.below,
                            above.push(i + 1 < order.len()),
                            rest,
                        )
                    } else {
                        rest
                    }
                },
            },
        }
    }
}

/// What is written for the directory `tree`, whose own line is written, and
/// `then` after it: nothing more where it cannot be read, and else its rows
/// as they are arranged.
pub open spec fn dir_listing(
    filter: Option<Filter>,
    sorter: Option<Sorter>,
    tree: Tree,
    above: Seq<bool>,
    then: Seq<Outcome>,
) -> Seq<Outcome>
    decreases tree, 1nat, 0int,
{
    match tree {
        Tree::Unreadable { fault } => seq![Outcome::Abort(fault)],
        Tree::Listed { .. } => rows_listing(
            filter,
            sorter,
            tree,
            arrangement(tree.rows(), filter, sorter),
            0,
            above,
            then,
        ),
    }
}

/// The listing of a tree: the line of the root, the lines of what is shown
/// below it, depth first, and how it ends.
pub open spec fn listing(args: Context, tree: Tree) -> Seq<Outcome> {
    seq![Outcome::Root] + dir_listing(
        filter_for(args.all, args.direction_only),
        sorter_for(args.sort, args.reverse),
        tree,
        Seq::empty(),
        seq![Outcome::Finish],
    )
}

/// The directory that is reached from the root through the entries in
/// progress of the levels.
pub open spec fn inner(root: Tree, stack: Seq<Level>) -> Tree
    decreases stack.len(),
{
    if stack.len() == 0 {
        root
    } else {
        inner(root, stack.drop_last()).child(stack.last().at())
    }
}

/// Whether the levels hold what the tree gives: each the rows of the
/// directory that is reached through the levels before it.
pub open spec fn tracks(root: Tree, stack: Seq<Level>) -> bool
    decreases stack.len(),
{
    stack.len() == 0 || {
        let outer = stack.drop_last();
        &&& tracks(root, outer)
        &&& inner(root, outer) is Listed
        &&& stack.last().rows == inner(root, outer).rows()
    }
}

/// What is written once the directory that is reached through the levels is
/// done with: the rows that follow the entry in progress of the last level,
/// then those that follow in the level before it, and so on.
pub open spec fn afterwards(
    filter: Option<Filter>,
    sorter: Option<Sorter>,
    root: Tree,
    stack: Seq<Level>,
) -> Seq<Outcome>
    decreases stack.len(),
{
    if stack.len() == 0 {
        seq![Outcome::Finish]
    } else {
        let outer = stack.drop_last();
        rows_listing(
            filter,
            sorter,
            inner(root, outer),
            stack.last().order,
            stack.last().next + 1,
            Walk::flags(outer),
            afterwards(filter, sorter, root, outer),
        )
    }
}

/// What a walk of the tree has yet to write.
pub open spec fn remaining(root: Tree, walk: Walk) -> Seq<Outcome> {
    let outer = walk.stack.drop_last();
    match walk.phase {
        Phase::Fresh => seq![Outcome::Root] + dir_listing(
            walk.filter,
            walk.sorter,
            root,
            Seq::empty(),
            seq![Outcome::Finish],
        ),
        Phase::Shown if walk.stack.len() > 0 => below_listing(
            walk.filter,
            walk.sorter,
            inner(root, outer),
            walk.stack.last().order,
            walk.stack.last().next,
            Walk::flags(outer),
            afterwards(walk.filter, walk.sorter, root, outer),
        ),
        Phase::Shown | Phase::Wait => dir_listing(
            walk.filter,
            walk.sorter,
            inner(root, walk.stack),
            Walk::flags(walk.stack),
            afterwards(walk.filter, walk.sorter, root, walk.stack),
        ),
        Phase::Finished => seq![Outcome::Finish],
        Phase::Aborted => seq![Outcome::Abort(walk.fault)],
    }
}

/// What the tree answers to a walk: what reading the directory gives, while
/// the walk waits for one.
pub open spec fn answer(root: Tree, walk: Walk) -> Signal {
    if walk.phase == Phase::Wait {
        inner(root, walk.stack).signal()
    } else {
        Signal::Resume
    }
}

/// Every directory of a sound tree is sound.
proof fn lemma_inner_sound(root: Tree, stack: Seq<Level>)
    requires
        root.sound(),
    ensures
        inner(root, stack).sound(),
    decreases stack.len(),
{
    if stack.len() > 0 {
        lemma_inner_sound(root, stack.drop_last());
    }
}

/// The flags of some levels are those of all but the last, and its own.
proof fn lemma_flags_push(stack: Seq<Level>)
    requires
        stack.len() > 0,
    ensures
        Walk::flags(stack) == Walk::flags(stack.drop_last()).push(stack.last().continues()),
{
    assert(Walk::flags(stack) =~= Walk::flags(stack.drop_last()).push(stack.last().continues()));
}

/// Turning to the next slot writes what the listing has next.
proof fn lemma_turn_listing(root: Tree, walk: Walk, stack: Seq<Level>)
    requires
        paused(stack, walk.filter, walk.sorter),
        tracks(root, stack),
        stack.len() > 0,
    ensures
        ({
            let outer = stack.drop_last();
            let ahead = rows_listing(
                walk.filter,
                walk.sorter,
                inner(root, outer),
                stack.last().order,
                stack.last().next,
                Walk::flags(outer),
                afterwards(walk.filter, walk.sorter, root, outer),
            );
            let (next, out) = walk.turn(stack);
            &&& tracks(root, next.stack)
            &&& match out {
                Outcome::Finish | Outcome::Abort(_) => ahead == seq![out],
                Outcome::Line { .. } => ahead == seq![out] + remaining(root, next),
                _ => false,
            }
        }),
    decreases stack.len(),
{
    let outer = stack.drop_last();
    let top = stack.last();
    let tree = inner(root, outer);
    assert(top.wf(walk.filter, walk.sorter));
    if top.pending() {
        assert(top.order[top.next] < top.rows.len());
        assert(tree.holds(top.at()));
        assert(tree->branches[top.at()].slot == top.current());
        if top.current() is Ok {
            lemma_flags_push(stack);
        }
    } else if stack.len() == 1 {
        assert(outer.len() == 0);
    } else {
        let parent = outer.last();
        let next = outer.drop_last().push(parent.advanced());
        assert(tracks(root, outer));
        assert(stack[stack.len() - 2] == parent);
        assert(stack.drop_last().drop_last() == outer.drop_last());
        assert(next.drop_last() =~= outer.drop_last());
        assert(parent.wf(walk.filter, walk.sorter) && parent.pending());
        assert forall|k: int| 0 <= k < next.len() implies (#[trigger] next[k]).wf(
            walk.filter,
            walk.sorter,
        ) by {
            if k < next.len() - 1 {
                assert(next[k] == stack[k]);
            }
        }
        assert forall|k: int| 0 <= k < next.len() - 1 implies (#[trigger] next[k]).pending()
            && next[k].current() is Ok by {
            assert(next[k] == stack[k]);
        }
        lemma_turn_listing(root, walk, next);
    }
}

/// A step of a walk that is answered from the tree writes what the listing
/// has next.
///
/// What the walk has yet to write stays as it is over a step that asks for
/// a directory, loses its first line to a step that writes one, and is the
/// end itself at the step that ends the walk.
pub proof fn lemma_step_writes_listing(root: Tree, walk: Walk)
    requires
        root.sound(),
        walk.wf(),
        tracks(root, walk.stack),
    ensures
        ({
            let (next, out) = walk.step(answer(root, walk));
            &&& next.wf()
            &&& tracks(root, next.stack)
            &&& match out {
                Outcome::Read(_) => walk.phase == Phase::Shown && next.phase == Phase::Wait
                    && remaining(root, next) == remaining(root, walk),
                Outcome::Root | Outcome::Line { .. } => remaining(root, walk) == seq![out]
                    + remaining(root, next),
                Outcome::Finish | Outcome::Abort(_) => remaining(root, walk) == seq![out],
            }
        }),
{
    let stack = walk.stack;
    let tree = inner(root, stack);
    lemma_inner_sound(root, stack);
    lemma_step(walk, answer(root, walk));
    if stack.len() == 0 {
        assert(Walk::flags(stack) =~= Seq::empty());
    }
    match walk.phase {
        Phase::Fresh => {},
        Phase::Shown => {
            if stack.len() > 0 {
                let outer = stack.drop_last();
                let top = stack.last();
                assert(top.wf(walk.filter, walk.sorter) && top.pending() && top.current() is Ok);
                assert(top.order[top.next] < top.rows.len());
                assert(inner(root, outer).holds(top.at()));
                assert(inner(root, outer)->branches[top.at()].slot == top.current());
                let entry = top.current().unwrap();
                if entry.is_dir == Ok::<bool, String>(true) {
                    lemma_flags_push(stack);
                } else if entry.is_dir == Ok::<bool, String>(false) {
                    let next = outer.push(top.advanced());
                    assert(next.drop_last() =~= outer);
                    lemma_paused_advanced(walk);
                    lemma_turn_listing(root, walk, next);
                }
            }
        },
        Phase::Wait => {
            if let Tree::Listed { branches } = tree {
                let rows = tree.rows();
                lemma_arrangement_exists(rows, walk.filter, walk.sorter);
                let level = Level {
                    rows,
                    order: arrangement(rows, walk.filter, walk.sorter),
                    next: 0,
                };
                let next = stack.push(level);
                assert(next.drop_last() =~= stack);
                lemma_paused_entered(walk, level);
                lemma_turn_listing(root, walk, next);
            }
        },
        Phase::Finished => {},
        Phase::Aborted => {},
    }
}

/// What a walk writes in its next `steps` steps when it is answered from the
/// tree: the outcome of each step but those that ask for a directory.
pub open spec fn written(root: Tree, walk: Walk, steps: nat) -> Seq<Outcome>
    decreases steps,
{
    if steps == 0 {
        Seq::empty()
    } else {
        let (next, out) = walk.step(answer(root, walk));
        match out {
            Outcome::Finish | Outcome::Abort(_) => seq![out],
            Outcome::Read(_) => written(root, next, (steps - 1) as nat),
            _ => seq![out] + written(root, next, (steps - 1) as nat),
        }
    }
}

/// Whether a walk that is answered from the tree ends within `steps` steps.
pub open spec fn ends(root: Tree, walk: Walk, steps: nat) -> bool
    decreases steps,
{
    steps > 0 && {
        let (next, out) = walk.step(answer(root, walk));
        out is Finish || out is Abort || ends(root, next, (steps - 1) as nat)
    }
}

/// Whatever a walk has written is the beginning of what it had to write, and
/// all of it once the walk has ended.
pub proof fn lemma_written_is_remaining(root: Tree, walk: Walk, steps: nat)
    requires
        root.sound(),
        walk.wf(),
        tracks(root, walk.stack),
    ensures
        written(root, walk, steps).is_prefix_of(remaining(root, walk)),
        ends(root, walk, steps) ==> written(root, walk, steps) == remaining(root, walk),
    decreases steps,
{
    if steps > 0 {
        lemma_step_writes_listing(root, walk);
        let (next, out) = walk.step(answer(root, walk));
        if !(out is Finish || out is Abort) {
            lemma_written_is_remaining(root, next, (steps - 1) as nat);
            let rest = written(root, next, (steps - 1) as nat);
            if !(out is Read) {
                assert((seq![out] + rest).is_prefix_of(seq![out] + remaining(root, next))) by {
                    assert((seq![out] + remaining(root, next)).subrange(0, rest.len() as int + 1) =~= seq![out]
                        + remaining(root, next).subrange(0, rest.len() as int));
                }
            }
        }
    }
}

/// A walk ends within two steps for each outcome that it has yet to write.
proof fn lemma_ends(root: Tree, walk: Walk, steps: nat)
    requires
        root.sound(),
        walk.wf(),
        tracks(root, walk.stack),
        steps >= 2 * remaining(root, walk).len() - if walk.phase == Phase::Wait {
            1int
        } else {
            0int
        },
    ensures
        ends(root, walk, steps),
    decreases steps,
{
    lemma_step_writes_listing(root, walk);
    let (next, out) = walk.step(answer(root, walk));
    if out is Read {
        lemma_step_writes_listing(root, next);
    }
    assert(remaining(root, walk).len() >= 1);
    if !(out is Finish || out is Abort) {
        lemma_ends(root, next, (steps - 1) as nat);
    }
}

/// A walk writes the listing of the tree that it is answered from.
///
/// From its first step on, the walk of a tree writes the lines of the
/// listing one by one, and it ends, as the listing does, within two steps
/// for each outcome of the listing.
pub proof fn lemma_walk_writes_listing(args: Context, root: Tree, steps: nat)
    requires
        root.sound(),
        steps >= 2 * listing(args, root).len(),
    ensures
        ends(root, Walk::start(args), steps),
        written(root, Walk::start(args), steps) == listing(args, root),
{
    let walk = Walk::start(args);
    assert(remaining(root, walk) == listing(args, root));
    lemma_ends(root, walk, steps);
    lemma_written_is_remaining(root, walk, steps);
}

/// The number of lines that the child at position `x` of a directory gives
/// rise to: its own, and where it is a directory those of what is shown
/// below it.
pub open spec fn reach_at(filter: Option<Filter>, tree: Tree, x: int) -> nat
    decreases tree, 0nat, 0nat,
{
    if !tree.holds(x) {
        0
    } else {
        let branch = tree->branches[x];
        match branch.slot {
            Err(_) => 0,
            Ok(entry) => 1 + if entry.is_dir == Ok::<bool, String>(true) {
                reach(filter, branch.below)
            } else {
                0nat
            },
        }
    }
}

/// The number of lines that the first `n` children of a directory give
/// rise to: those of each child that the filter keeps.
pub open spec fn reach_among(filter: Option<Filter>, tree: Tree, n: nat) -> nat
    decreases tree, 0nat, n,
{
    if n == 0 {
        0
    } else {
        reach_among(filter, tree, (n - 1) as nat) + if tree.holds(n - 1) && keeps(
            filter,
            tree->branches[n - 1].slot,
        ) {
            reach_at(filter, tree, n - 1)
        } else {
            0nat
        }
    }
}

/// The number of entries below the root of a tree that the filter keeps
/// and that are reached through directories that it keeps.
pub open spec fn reach(filter: Option<Filter>, tree: Tree) -> nat
    decreases tree, 1nat, 0nat,
{
    match tree {
        Tree::Unreadable { .. } => 0,
        Tree::Listed { branches } => reach_among(filter, tree, branches.len()),
    }
}

/// What each child of a directory weighs in lines.
pub open spec fn weights(filter: Option<Filter>, tree: Tree) -> spec_fn(int) -> nat {
    |x: int| reach_at(filter, tree, x)
}

/// Whether no outcome is an error.
pub open spec fn unbroken(outcomes: Seq<Outcome>) -> bool {
    forall|k: int| 0 <= k < outcomes.len() ==> !((#[trigger] outcomes[k]) is Abort)
}

/// The lines of the first children of a directory are those of the children
/// that the filter keeps, weighed one by one.
proof fn lemma_reach_is_tally(filter: Option<Filter>, tree: Tree, n: nat)
    requires
        tree is Listed,
        n <= tree->branches.len(),
    ensures
        reach_among(filter, tree, n) == tally(tree.rows(), filter, weights(filter, tree), n as int),
    decreases n,
{
    if n > 0 {
        lemma_reach_is_tally(filter, tree, (n - 1) as nat);
        assert(tree.rows()[n - 1] == tree->branches[n - 1].slot);
    }
}

/// Where no error is met, the rows of a directory from the `i`-th shown on
/// write one line for each entry that they give rise to, and `then` after
/// them.
proof fn lemma_rows_count(
    filter: Option<Filter>,
    sorter: Option<Sorter>,
    tree: Tree,
    order: Seq<usize>,
    i: int,
    above: Seq<bool>,
    then: Seq<Outcome>,
)
    requires
        tree.sound(),
        tree is Listed,
        0 <= i <= order.len(),
        forall|k: int| 0 <= k < order.len() ==> (#[trigger] order[k]) < tree->branches.len(),
        unbroken(rows_listing(filter, sorter, tree, order, i, above, then)),
    ensures
        ({
            let out = rows_listing(filter, sorter, tree, order, i, above, then);
            let n = total(order.skip(i), weights(filter, tree));
            &&& out.len() == n + then.len()
            &&& out.skip(n as int) == then
            &&& forall|k: int| 0 <= k < n ==> (#[trigger] out[k]) is Line
        }),
    decreases tree, 0nat, order.len() - i,
{
    let out = rows_listing(filter, sorter, tree, order, i, above, then);
    let weight = weights(filter, tree);
    let n = total(order.skip(i), weight);
    if i >= order.len() {
        assert(order.skip(i).len() == 0);
        assert(out.skip(0) =~= then);
    } else {
        let at = order[i] as int;
        assert(tree.holds(at));
        let branch = tree->branches[at];
        assert(order.skip(i)[0] == order[i]);
        assert(order.skip(i).skip(1) =~= order.skip(i + 1));
        let later = total(order.skip(i + 1), weight);
        match branch.slot {
            Err(fault) => {
                assert(out[0] is Abort);
            },
            Ok(entry) => {
                let below = below_listing(filter, sorter, tree, order, i, above, then);
                let rest = rows_listing(filter, sorter, tree, order, i + 1, above, then);
                assert forall|k: int| 0 <= k < below.len() implies !((#[trigger] below[k]) is Abort) by {
                    assert(out[k + 1] == below[k]);
                }
                match entry.is_dir {
                    Err(fault) => {
                        assert(below[0] is Abort);
                    },
                    Ok(is_dir) => {
                        let r: nat = if is_dir {
                            reach(filter, branch.below)
                        } else {
                            0
                        };
                        if is_dir {
                            lemma_dir_count(
                                filter,
                                sorter,
                                branch.below,
                                above.push(i + 1 < order.len()),
                                rest,
                            );
                        } else {
                            assert(below.skip(0) =~= rest);
                        }
                        assert(below.skip(r as int) == rest);
                        assert forall|k: int| 0 <= k < rest.len() implies !((#[trigger] rest[k]) is Abort) by {
                            assert(below.skip(r as int)[k] == below[r + k]);
                        }
                        lemma_rows_count(filter, sorter, tree, order, i + 1, above, then);
                        assert(n == 1 + r + later);
                        assert(out.skip(n as int) =~= then) by {
                            assert forall|j: int| 0 <= j < then.len() implies out[n + j] == then[j] by {
                                assert(out[n + j] == below[r + later + j]);
                                assert(below.skip(r as int)[later + j] == below[r + later + j]);
                                assert(rest.skip(later as int)[j] == rest[later + j]);
                            }
                        }
                        assert forall|k: int| 0 <= k < n implies (#[trigger] out[k]) is Line by {
                            if k > 0 {
                                assert(out[k] == below[k - 1]);
                                if k > r {
                                    assert(below.skip(r as int)[k - 1 - r] == below[k - 1]);
                                    assert(rest[k - 1 - r] is Line);
                                } else {
                                    assert(below[k - 1] is Line);
                                }
                            }
                        }
                    },
                }
            },
        }
    }
}

/// Where no error is met, a directory writes one line for each entry that
/// it gives rise to, and `then` after them.
proof fn lemma_dir_count(
    filter: Option<Filter>,
    sorter: Option<Sorter>,
    tree: Tree,
    above: Seq<bool>,
    then: Seq<Outcome>,
)
    requires
        tree.sound(),
        unbroken(dir_listing(filter, sorter, tree, above, then)),
    ensures
        ({
            let out = dir_listing(filter, sorter, tree, above, then);
            let n = reach(filter, tree);
            &&& out.len() == n + then.len()
            &&& out.skip(n as int) == then
            &&& forall|k: int| 0 <= k < n ==> (#[trigger] out[k]) is Line
        }),
    decreases tree, 1nat, 0int,
{
    let out = dir_listing(filter, sorter, tree, above, then);
    match tree {
        Tree::Unreadable { fault } => {
            assert(out[0] is Abort);
        },
        Tree::Listed { branches } => {
            let rows = tree.rows();
            lemma_arrangement_exists(rows, filter, sorter);
            let order = arrangement(rows, filter, sorter);
            assert(order.skip(0) =~= order);
            lemma_rows_count(filter, sorter, tree, order, 0, above, then);
            lemma_arrangement_total(rows, filter, sorter, order, weights(filter, tree));
            lemma_reach_is_tally(filter, tree, branches.len());
        },
    }
}

/// Only the last outcome that a walk writes can be its end or an error.
pub proof fn lemma_written_shape(root: Tree, walk: Walk, steps: nat)
    ensures
        forall|k: int|
            0 <= k < written(root, walk, steps).len() - 1 ==> {
                let out = #[trigger] written(root, walk, steps)[k];
                out is Root || out is Line
            },
    decreases steps,
{
    if steps > 0 {
        let (next, out) = walk.step(answer(root, walk));
        if !(out is Finish || out is Abort) {
            lemma_written_shape(root, next, (steps - 1) as nat);
            let rest = written(root, next, (steps - 1) as nat);
            if !(out is Read) {
                assert forall|k: int| 0 <= k < written(root, walk, steps).len() - 1 implies {
                    let o = #[trigger] written(root, walk, steps)[k];
                    o is Root || o is Line
                } by {
                    if k > 0 {
                        assert(written(root, walk, steps)[k] == rest[k - 1]);
                    }
                }
            }
        }
    }
}

/// A listing that ends well has one line for each entry that is reached.
///
/// Where the walk of a tree meets no error, what it writes is the line of
/// the root, then one line for each entry below the root that the filter
/// keeps and that is reached through directories that it keeps, and then
/// the end.
pub proof fn lemma_listing_counts(args: Context, root: Tree)
    requires
        root.sound(),
        listing(args, root).last() is Finish,
    ensures
        ({
            let n = reach(filter_for(args.all, args.direction_only), root);
            &&& listing(args, root).len() == n + 2
            &&& listing(args, root)[0] is Root
            &&& forall|k: int| 1 <= k <= n ==> (#[trigger] listing(args, root)[k]) is Line
        }),
{
    let filter = filter_for(args.all, args.direction_only);
    let sorter = sorter_for(args.sort, args.reverse);
    let all = listing(args, root);
    let below = dir_listing(filter, sorter, root, Seq::empty(), seq![Outcome::Finish]);
    let steps = (2 * all.len()) as nat;
    lemma_walk_writes_listing(args, root, steps);
    lemma_written_shape(root, Walk::start(args), steps);
    assert forall|k: int| 0 <= k < below.len() implies !((#[trigger] below[k]) is Abort) by {
        assert(all[k + 1] == below[k]);
    }
    lemma_dir_count(filter, sorter, root, Seq::empty(), seq![Outcome::Finish]);
    assert forall|k: int| 1 <= k <= reach(filter, root) implies (#[trigger] all[k]) is Line by {
        assert(all[k] == below[k - 1]);
    }
}

/// Every line that a walk writes is for an entry that the filter keeps.
proof fn lemma_written_lines(root: Tree, walk: Walk, steps: nat)
    requires
        root.sound(),
        walk.wf(),
        tracks(root, walk.stack),
    ensures
        forall|k: int|
            0 <= k < written(root, walk, steps).len() ==> ((#[trigger] written(
                root,
                walk,
                steps,
            )[k]) matches Outcome::Line { levels, entry } ==> levels.len() > 0 && keeps(
                walk.filter,
                Ok(entry),
            )),
    decreases steps,
{
    if steps > 0 {
        lemma_step_writes_listing(root, walk);
        lemma_inner_sound(root, walk.stack);
        lemma_step(walk, answer(root, walk));
        let (next, out) = walk.step(answer(root, walk));
        if !(out is Finish || out is Abort) {
            assert(next.filter == walk.filter);
            lemma_written_lines(root, next, (steps - 1) as nat);
            let rest = written(root, next, (steps - 1) as nat);
            if out is Line {
                let top = next.stack.last();
                assert(top.wf(next.filter, next.sorter) && top.pending());
                assert(keeps(next.filter, top.rows[top.order[top.next] as int]));
                assert(next.continuation().len() == next.stack.len());
            }
            if !(out is Read) {
                assert forall|k: int| 0 <= k < written(root, walk, steps).len() implies ((
                #[trigger] written(root, walk, steps)[k]) matches Outcome::Line { levels, entry }
                    ==> levels.len() > 0 && keeps(walk.filter, Ok(entry))) by {
                    if k > 0 {
                        assert(written(root, walk, steps)[k] == rest[k - 1]);
                    }
                }
            }
        }
    }
}

/// Every line of a listing, at whatever depth, is for an entry that the
/// filter keeps: a directory where only directories are listed, and an
/// entry without a dot in front unless all entries are listed.
pub proof fn lemma_listing_shows_what_is_kept(args: Context, root: Tree, k: int)
    requires
        root.sound(),
        0 <= k < listing(args, root).len(),
        listing(args, root)[k] is Line,
    ensures
        ({
            let filter = filter_for(args.all, args.direction_only);
            let entry = listing(args, root)[k]->entry;
            &&& listing(args, root)[k]->levels.len() > 0
            &&& keeps(filter, Ok(entry))
            &&& !args.all ==> !dotted(entry.name@)
            &&& !args.all && args.direction_only ==> entry.is_dir == Ok::<bool, String>(true)
        }),
{
    let steps = (2 * listing(args, root).len()) as nat;
    lemma_walk_writes_listing(args, root, steps);
    lemma_written_lines(root, Walk::start(args), steps);
}

} // verus!
