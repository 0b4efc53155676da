//! The walk over a tree as a machine: its states, its steps, and what holds
//! of them.

use crate::args::{Charset, Context, SortArgs};
use crate::arrange::{arrangement, arranges, lemma_arrangement_exists};
use crate::dir::Event;
use crate::entry::{dotted, Entry, Slot};
use crate::filter::{keeps, Filter};
use crate::order::Sorter;
use vstd::prelude::*;

verus! {

/// What an event says, in the terms of the walk.
pub enum Signal {
    /// Nothing.
    Resume,
    /// The children of the directory that was asked for.
    Listed(Seq<Slot>),
    /// Why the directory that was asked for could not be read.
    Unreadable(Seq<char>),
}

/// Where a walk stands between two steps.
#[derive(Debug, Clone, Copy, PartialEq, Eq, Structural)]
pub enum Phase {
    /// Nothing is written yet.
    Fresh,
    /// A line is written: the root's, or that of the entry in progress.
    Shown,
    /// A directory is being read: the root, or the entry in progress.
    Wait,
    /// The walk is over.
    Finished,
    /// The walk stopped at an error.
    Aborted,
}

/// One directory of a walk that is under way.
pub struct Level {
    /// What its enumeration gave.
    pub rows: Seq<Slot>,
    /// The positions in `rows` of what is shown, in the order shown.
    pub order: Seq<usize>,
    /// How many of them are done with.
    pub next: int,
}

impl Level {
    /// The level shows its rows as the filter and sorter have them.
    pub open spec fn wf(self, filter: Option<Filter>, sorter: Option<Sorter>) -> bool {
        &&& arranges(self.rows, filter, sorter, self.order)
        &&& 0 <= self.next <= self.order.len()
    }

    /// Whether an entry of the level is still to be done with.
    pub open spec fn pending(self) -> bool {
        self.next < self.order.len()
    }

    /// The position in `rows` of the slot in progress.
    pub open spec fn at(self) -> int {
        self.order[self.next] as int
    }

    /// The slot in progress.
    pub open spec fn current(self) -> Slot {
        self.rows[self.at()]
    }

    /// Whether a later sibling follows the slot in progress.
    pub open spec fn continues(self) -> bool {
        self.next + 1 < self.order.len()
    }

    /// The level once the slot in progress is done with.
    pub open spec fn advanced(self) -> Level {
        Level { next: self.next + 1, ..self }
    }
}

/// What a step of the walk gives.
pub enum Outcome {
    /// The line of the root.
    Root,
    /// The line of an entry. `levels` is the continuation stack at that
    /// moment: one flag for each ancestor below the root and one for the
    /// entry, each telling whether a later sibling follows at that level.
    Line { levels: Seq<bool>, entry: Entry },
    /// A directory to read, by the bytes of its path.
    Read(Seq<u8>),
    /// The end.
    Finish,
    /// An error.
    Abort(Seq<char>),
}

/// The state of a walk.
pub struct Walk {
    pub dir: Seq<u8>,
    pub full_name: bool,
    pub charset: Charset,
    pub sorter: Option<Sorter>,
    pub filter: Option<Filter>,
    pub phase: Phase,
    /// The directories under way, the root first. Each but the last has an
    /// entry in progress, which is the directory that comes after it.
    pub stack: Seq<Level>,
    /// The error that the walk stopped at.
    pub fault: Seq<char>,
}

impl Walk {
    /// The state before the first step.
    pub open spec fn start(args: Context) -> Walk {
        Walk {
            dir: args.root(),
            full_name: args.full,
            charset: args.charset,
            sorter: sorter_for(args.sort, args.reverse),
            filter: filter_for(args.all, args.direction_only),
            phase: Phase::Fresh,
            stack: Seq::empty(),
            fault: Seq::empty(),
        }
    }

    /// The state is one that a walk can be in. Every level shows its rows
    /// as the filter and sorter have them. While a line is shown or a
    /// directory is read, every level has an entry in progress; at other
    /// times no directory is under way.
    pub open spec fn wf(self) -> bool {
        &&& forall|k: int|
            0 <= k < self.stack.len() ==> (#[trigger] self.stack[k]).wf(self.filter, self.sorter)
        &&& match self.phase {
            Phase::Shown | Phase::Wait => forall|k: int|
                0 <= k < self.stack.len() ==> (#[trigger] self.stack[k]).pending()
                    && self.stack[k].current() is Ok,
            _ => self.stack.len() == 0,
        }
    }

    /// The continuation stack: for each directory under way, whether a
    /// later sibling follows the entry in progress there.
    pub open spec fn continuation(self) -> Seq<bool> {
        Self::flags(self.stack)
    }

    /// For each of the levels, whether a later sibling follows the entry in
    /// progress there.
    pub open spec fn flags(stack: Seq<Level>) -> Seq<bool> {
        Seq::new(stack.len(), |k: int| stack[k].continues())
    }

    /// The walk stopped at an error.
    pub open spec fn halt(self, fault: Seq<char>) -> (Walk, Outcome) {
        (Walk { phase: Phase::Aborted, stack: Seq::empty(), fault, ..self }, Outcome::Abort(fault))
    }

    /// Leaves every directory that has nothing left to show. Whenever one
    /// is left, its parent is done with the entry that led there.
    pub open spec fn unwind(stack: Seq<Level>) -> Seq<Level>
        decreases stack.len(),
    {
        if stack.len() == 0 || stack.last().pending() {
            stack
        } else if stack.len() == 1 {
            Seq::empty()
        } else {
            Self::unwind(stack.drop_last().drop_last().push(stack[stack.len() - 2].advanced()))
        }
    }

    /// Turns to the next slot, with `stack` as the directories under way:
    /// the walk is over when none is left to show, stops when the next slot
    /// is an error, and else shows the entry.
    pub open spec fn turn(self, stack: Seq<Level>) -> (Walk, Outcome) {
        let rest = Self::unwind(stack);
        if rest.len() == 0 {
            (Walk { phase: Phase::Finished, stack: rest, ..self }, Outcome::Finish)
        } else {
            match rest.last().current() {
                Err(fault) => self.halt(fault@),
                Ok(entry) => {
                    let next = Walk { phase: Phase::Shown, stack: rest, ..self };
                    (next, Outcome::Line { levels: next.continuation(), entry })
                },
            }
        }
    }

    /// The directory that is read next: the root, or the entry in progress.
    pub open spec fn target(self) -> Seq<u8> {
        if self.stack.len() == 0 {
            self.dir
        } else {
            self.stack.last().current().unwrap().path@
        }
    }

    /// One step of the walk.
    ///
    /// The first step shows the root, and the second reads it. Once a
    /// directory is read it comes on top of the stack, and the walk turns to
    /// its first slot. Once an entry is shown, the walk reads it if it is a
    /// directory, stops if its type is unknown, and else turns to the slot
    /// after it. A directory that cannot be read stops the walk. An event
    /// counts only while the walk waits for a directory: at other times any
    /// event resumes, and resuming while it waits asks for the directory
    /// again.
    pub open spec fn step(self, event: Signal) -> (Walk, Outcome) {
        match self.phase {
            Phase::Fresh => (Walk { phase: Phase::Shown, ..self }, Outcome::Root),
            Phase::Shown => if self.stack.len() == 0 {
                (Walk { phase: Phase::Wait, ..self }, Outcome::Read(self.dir))
            } else {
                let entry = self.stack.last().current().unwrap();
                match entry.is_dir {
                    Err(fault) => self.halt(fault@),
                    Ok(true) => (Walk { phase: Phase::Wait, ..self }, Outcome::Read(entry.path@)),
                    Ok(false) => self.turn(
                        self.stack.drop_last().push(self.stack.last().advanced()),
                    ),
                }
            },
            Phase::Wait => match event {
                Signal::Listed(rows) => self.turn(
                    self.stack.push(
                        Level {
                            rows,
                            order: arrangement(rows, self.filter, self.sorter),
                            next: 0,
                        },
                    ),
                ),
                Signal::Unreadable(fault) => self.halt(fault),
                Signal::Resume => (self, Outcome::Read(self.target())),
            },
            Phase::Finished => (self, Outcome::Finish),
            Phase::Aborted => (self, Outcome::Abort(self.fault)),
        }
    }
}

/// The filter that the options ask for: none where all entries are listed,
/// else directories only where asked for, else whatever has no dot in front.
pub open spec fn filter_for(all: bool, dir_only: bool) -> Option<Filter> {
    if all {
        None
    } else if dir_only {
        Some(Filter::Directories)
    } else {
        Some(Filter::Visible)
    }
}

/// The sorter that the options ask for: none without a sort key.
pub open spec fn sorter_for(sort: Option<SortArgs>, reverse: bool) -> Option<Sorter> {
    match sort {
        None => None,
        Some(key) => Some(Sorter { key, reverse }),
    }
}

/// Whether the levels show their rows as the filter and sorter have them,
/// and each but the last has an entry in progress.
pub open spec fn paused(stack: Seq<Level>, filter: Option<Filter>, sorter: Option<Sorter>) -> bool {
    &&& forall|k: int| 0 <= k < stack.len() ==> (#[trigger] stack[k]).wf(filter, sorter)
    &&& forall|k: int|
        0 <= k < stack.len() - 1 ==> (#[trigger] stack[k]).pending() && stack[k].current() is Ok
}

/// Unwinding keeps the levels as they should be, and stops at a level that
/// has a slot left.
proof fn lemma_unwind(stack: Seq<Level>, filter: Option<Filter>, sorter: Option<Sorter>)
    requires
        paused(stack, filter, sorter),
    ensures
        paused(Walk::unwind(stack), filter, sorter),
        Walk::unwind(stack).len() > 0 ==> Walk::unwind(stack).last().pending(),
    decreases stack.len(),
{
    if stack.len() == 0 || stack.last().pending() {
    } else if stack.len() == 1 {
    } else {
        let parent = stack[stack.len() - 2];
        let next = stack.drop_last().drop_last().push(parent.advanced());
        assert(parent.wf(filter, sorter) && parent.pending());
        assert forall|k: int| 0 <= k < next.len() implies (#[trigger] next[k]).wf(filter, sorter) by {
            if k < next.len() - 1 {
                assert(next[k] == stack[k]);
            }
        }
        assert forall|k: int| 0 <= k < next.len() - 1 implies (#[trigger] next[k]).pending()
            && next[k].current() is Ok by {
            assert(next[k] == stack[k]);
        }
        lemma_unwind(next, filter, sorter);
    }
}

/// A walk that turns to the next slot stays a walk, and the entry that it
/// shows is the one in progress on top of the stack.
proof fn lemma_turn(walk: Walk, stack: Seq<Level>)
    requires
        paused(stack, walk.filter, walk.sorter),
    ensures
        walk.turn(stack).0.wf(),
        walk.turn(stack).1 matches Outcome::Line { levels, entry } ==> {
            let next = walk.turn(stack).0;
            &&& next.phase == Phase::Shown
            &&& next.stack.len() > 0
            &&& levels == next.continuation()
            &&& next.stack.last().current() == Ok::<Entry, String>(entry)
        },
        !(walk.turn(stack).1 is Root),
        !(walk.turn(stack).1 is Read),
{
    lemma_unwind(stack, walk.filter, walk.sorter);
    let rest = Walk::unwind(stack);
    if rest.len() > 0 {
        if let Ok(entry) = rest.last().current() {
            let next = walk.turn(stack).0;
            assert forall|k: int| 0 <= k < next.stack.len() implies (#[trigger] next.stack[k]).pending()
                && next.stack[k].current() is Ok by {
                if k < rest.len() - 1 {
                    assert(rest[k].pending());
                }
            }
        }
    }
}

/// The levels stay as they should be when one more directory is entered.
pub proof fn lemma_paused_entered(walk: Walk, level: Level)
    requires
        walk.wf(),
        walk.phase == Phase::Shown || walk.phase == Phase::Wait,
        level.wf(walk.filter, walk.sorter),
    ensures
        paused(walk.stack.push(level), walk.filter, walk.sorter),
{
    let stack = walk.stack.push(level);
    assert forall|k: int| 0 <= k < stack.len() implies (#[trigger] stack[k]).wf(
        walk.filter,
        walk.sorter,
    ) by {
        if k < stack.len() - 1 {
            assert(stack[k] == walk.stack[k]);
        }
    }
    assert forall|k: int| 0 <= k < stack.len() - 1 implies (#[trigger] stack[k]).pending()
        && stack[k].current() is Ok by {
        assert(stack[k] == walk.stack[k]);
    }
}

/// The levels stay as they should be when the last is done with its entry
/// in progress.
pub proof fn lemma_paused_advanced(walk: Walk)
    requires
        walk.wf(),
        walk.phase == Phase::Shown || walk.phase == Phase::Wait,
        walk.stack.len() > 0,
    ensures
        paused(
            walk.stack.drop_last().push(walk.stack.last().advanced()),
            walk.filter,
            walk.sorter,
        ),
{
    let top = walk.stack.last();
    let stack = walk.stack.drop_last().push(top.advanced());
    assert(top.pending() && top.wf(walk.filter, walk.sorter));
    assert forall|k: int| 0 <= k < stack.len() implies (#[trigger] stack[k]).wf(
        walk.filter,
        walk.sorter,
    ) by {
        if k < stack.len() - 1 {
            assert(stack[k] == walk.stack[k]);
        }
    }
    assert forall|k: int| 0 <= k < stack.len() - 1 implies (#[trigger] stack[k]).pending()
        && stack[k].current() is Ok by {
        assert(stack[k] == walk.stack[k]);
    }
}

/// A step leaves a walk a walk.
pub proof fn lemma_step_keeps_wf(walk: Walk, event: Event)
    requires
        walk.wf(),
    ensures
        walk.step(event@).0.wf(),
{
    lemma_countable(event);
    lemma_step(walk, event@);
}

/// A directory that was read has no more children than can be counted.
proof fn lemma_countable(event: Event)
    ensures
        event@ matches Signal::Listed(rows) ==> rows.len() <= usize::MAX,
{
    if let Event::Listed(rows) = event {
        assert(rows@.len() == rows.len());
    }
}

/// What a step does, in terms of the stack that it leaves.
pub proof fn lemma_step(walk: Walk, event: Signal)
    requires
        walk.wf(),
        event matches Signal::Listed(rows) ==> rows.len() <= usize::MAX,
    ensures
        walk.step(event).0.wf(),
        walk.step(event).1 matches Outcome::Line { levels, entry } ==> {
            let next = walk.step(event).0;
            &&& next.phase == Phase::Shown
            &&& next.stack.len() > 0
            &&& levels == next.continuation()
            &&& next.stack.last().current() == Ok::<Entry, String>(entry)
        },
        walk.step(event).1 is Read ==> {
            &&& walk.step(event).1 == Outcome::Read(walk.target())
            &&& walk.phase == Phase::Shown || walk.phase == Phase::Wait
        },
{
    match walk.phase {
        Phase::Shown => {
            if walk.stack.len() > 0 {
                let top = walk.stack.last();
                assert(top.pending() && top.current() is Ok && top.wf(walk.filter, walk.sorter));
                let entry = top.current().unwrap();
                if entry.is_dir == Ok::<bool, String>(false) {
                    lemma_paused_advanced(walk);
                    lemma_turn(walk, walk.stack.drop_last().push(top.advanced()));
                }
            }
        },
        Phase::Wait => {
            if let Signal::Listed(rows) = event {
                lemma_arrangement_exists(rows, walk.filter, walk.sorter);
                let level = Level {
                    rows,
                    order: arrangement(rows, walk.filter, walk.sorter),
                    next: 0,
                };
                lemma_paused_entered(walk, level);
                lemma_turn(walk, walk.stack.push(level));
            }
        },
        _ => {},
    }
}

/// What holds whenever the line of an entry is written.
///
/// The continuation stack is as long as the entry is deep below the root,
/// and its last flag tells whether a later sibling of this entry, not of an
/// ancestor, follows among what is shown of its directory. The entry is one
/// that the filter keeps: a directory where only directories are listed, and
/// without a dot in front unless all entries are listed.
pub proof fn lemma_line_of_entry(walk: Walk, event: Event)
    requires
        walk.wf(),
        walk.step(event@).1 is Line,
    ensures
        ({
            let next = walk.step(event@).0;
            let levels = walk.step(event@).1->levels;
            let entry = walk.step(event@).1->entry;
            let top = next.stack.last();
            &&& levels.len() == next.stack.len()
            &&& levels.len() > 0
            &&& forall|k: int| 0 <= k < levels.len() ==> levels[k] == (#[trigger] next.stack[k]).continues()
            &&& top.pending() && top.current() == Ok::<Entry, String>(entry)
            &&& levels.last() == (top.next + 1 < top.order.len())
            &&& keeps(walk.filter, Ok(entry))
            &&& walk.filter == Some(Filter::Directories) ==> entry.is_dir == Ok::<bool, String>(true)
            &&& walk.filter is Some ==> !dotted(entry.name@)
        }),
{
    lemma_countable(event);
    lemma_step(walk, event@);
    let next = walk.step(event@).0;
    let top = next.stack.last();
    assert(walk.filter == next.filter && walk.sorter == next.sorter);
    assert(top.wf(next.filter, next.sorter));
    assert(top.pending());
    assert(keeps(next.filter, top.rows[top.order[top.next] as int]));
}

/// A directory is read only when it is the root or the entry just shown,
/// and that entry is known to be a directory.
pub proof fn lemma_reads_directories(walk: Walk, event: Event)
    requires
        walk.wf(),
        walk.step(event@).1 is Read,
    ensures
        walk.step(event@).1 == Outcome::Read(walk.target()),
        walk.phase == Phase::Shown || walk.phase == Phase::Wait,
        walk.stack.len() > 0 ==> walk.stack.last().current() is Ok,
        walk.stack.len() > 0 && walk.phase == Phase::Shown ==> walk.stack.last().current().unwrap().is_dir
            == Ok::<bool, String>(true),
{
    lemma_countable(event);
    lemma_step(walk, event@);
}

} // verus!
