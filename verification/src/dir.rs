//! The connector glyphs, and the printer that carries a walk out step by step.

use crate::args::{Charset, Context, SortArgs};
use crate::arrange::{arrange, arrangement};
use crate::entry::Slot;
use crate::filter::Filter;
use crate::format::{draws, Formatter};
use crate::order::Sorter;
use crate::text::{text, text_of};
use crate::walk::{filter_for, paused, sorter_for, Level, Outcome, Phase, Signal, Walk};
use vstd::prelude::*;
use vstd::slice::slice_to_vec;

verus! {

/// The four glyphs that the connectors of a tree are drawn with.
#[derive(Debug, Clone, Copy, PartialEq, Eq)]
pub struct Symbols {
    /// Runs past an entry to a later sibling of one of its ancestors.
    pub down: &'static str,
    /// Branches off to an entry that has a later sibling.
    pub tee: &'static str,
    /// Branches off to the last entry of a directory.
    pub ell: &'static str,
    /// Leads from the branch to the entry.
    pub right: &'static str,
}

impl Symbols {
    /// The glyphs of a character set.
    pub open spec fn of(charset: Charset) -> Symbols {
        match charset {
            Charset::Utf8 => Symbols {
                down: "\u{2502}",
                tee: "\u{251c}",
                ell: "\u{2514}",
                right: "\u{2500}",
            },
            Charset::Ascii => Symbols { down: "|", tee: "|", ell: "`", right: "-" },
        }
    }

    /// Picks the glyphs of a character set.
    pub fn select(charset: Charset) -> (symbols: Symbols)
        ensures
            symbols == Symbols::of(charset),
    {
        match charset {
            Charset::Utf8 => Symbols {
                down: "\u{2502}",
                tee: "\u{251c}",
                ell: "\u{2514}",
                right: "\u{2500}",
            },
            Charset::Ascii => Symbols { down: "|", tee: "|", ell: "`", right: "-" },
        }
    }
}

/// What the caller reports to the walk.
#[derive(Debug)]
pub enum Event {
    /// Nothing: the walk begins, or the line that was asked for is written.
    Resume,
    /// The directory that was asked for is read: its children, in the order
    /// of enumeration.
    Listed(Vec<Slot>),
    /// The directory that was asked for could not be read, and why.
    Unreadable(String),
}

impl View for Event {
    type V = Signal;

    open spec fn view(&self) -> Signal {
        match self {
            Event::Resume => Signal::Resume,
            Event::Listed(rows) => Signal::Listed(rows@),
            Event::Unreadable(fault) => Signal::Unreadable(fault@),
        }
    }
}

/// What the caller does next.
#[derive(Debug, PartialEq, Eq)]
pub enum Action {
    /// Write the line, then resume.
    Print(String),
    /// Read the directory at the path, given as bytes, then report what came
    /// of it.
    Read(Vec<u8>),
    /// The walk is over.
    Finish,
    /// The walk stops at an error.
    Abort(String),
}

impl Action {
    /// Whether the action carries out the outcome of a step of `walk`. A
    /// line is any way in which the entry is written at its levels.
    pub open spec fn carries(self, outcome: Outcome, walk: Walk) -> bool {
        match outcome {
            Outcome::Root => self matches Action::Print(line) && line@ == text_of(walk.dir),
            Outcome::Line { levels, entry } => self matches Action::Print(line) && draws(
                levels,
                Symbols::of(walk.charset),
                entry,
                walk.full_name,
                line@,
            ),
            Outcome::Read(path) => self matches Action::Read(p) && p@ == path,
            Outcome::Finish => self is Finish,
            Outcome::Abort(fault) => self matches Action::Abort(f) && f@ == fault,
        }
    }
}

/// One directory of a walk that is under way.
struct Frame {
    rows: Vec<Slot>,
    order: Vec<usize>,
    next: usize,
}

impl Frame {
    spec fn level(self) -> Level {
        Level { rows: self.rows@, order: self.order@, next: self.next as int }
    }
}

/// The directories under way, as the frames hold them.
spec fn levels_of(frames: Seq<Frame>) -> Seq<Level> {
    Seq::new(frames.len(), |k: int| frames[k].level())
}

/// Walks a tree and says, step by step, what to write and what to read.
pub struct Printer<'a> {
    dir: &'a [u8],
    full_name: bool,
    charset: Charset,
    sorter: Option<Sorter>,
    filter: Option<Filter>,
    phase: Phase,
    stack: Vec<Frame>,
    levels_continue: Vec<bool>,
    fault: String,
}

impl<'a> View for Printer<'a> {
    type V = Walk;

    closed spec fn view(&self) -> Walk {
        Walk {
            dir: self.dir@,
            full_name: self.full_name,
            charset: self.charset,
            sorter: self.sorter,
            filter: self.filter,
            phase: self.phase,
            stack: levels_of(self.stack@),
            fault: self.fault@,
        }
    }
}

impl<'a> Printer<'a> {
    /// The printer is between two steps of a walk.
    pub closed spec fn wf(&self) -> bool {
        &&& self@.wf()
        &&& self.levels_continue@ == self@.continuation()
    }

    /// The printer is about to turn to the next slot: the top of the stack
    /// has no entry in progress, and the continuation stack ends with its
    /// parent.
    spec fn poised(&self) -> bool {
        let stack = self@.stack;
        &&& paused(stack, self.filter, self.sorter)
        &&& self.levels_continue@.len() == if stack.len() == 0 {
            0
        } else {
            stack.len() - 1
        }
        &&& forall|k: int|
            0 <= k < stack.len() - 1 ==> self.levels_continue@[k] == (#[trigger] stack[k]).continues()
    }

    /// Sets the walk up from the configuration.
    pub fn new(args: &'a Context) -> (printer: Self)
        ensures
            printer.wf(),
            printer@.wf(),
            printer@ == Walk::start(*args),
    {
        let printer = Printer {
            dir: args.dir(),
            full_name: args.full,
            charset: args.charset,
            sorter: Self::build_sorter(&args.sort, args.reverse),
            filter: Self::build_filter(args.all, args.direction_only),
            phase: Phase::Fresh,
            stack: Vec::new(),
            levels_continue: Vec::new(),
            fault: String::new(),
        };
        assert(printer@.stack =~= Seq::empty());
        assert(printer.levels_continue@ =~= printer@.continuation());
        printer
    }

    /// Picks the filter that the options ask for.
    pub fn build_filter(all: bool, dir_only: bool) -> (filter: Option<Filter>)
        ensures
            filter == filter_for(all, dir_only),
    {
        if all {
            return None;
        }
        if dir_only {
            return Some(Filter::Directories);
        }
        Some(Filter::Visible)
    }

    /// Picks the sorter that the options ask for.
    pub fn build_sorter(sort_args: &Option<SortArgs>, reverse: bool) -> (sorter: Option<Sorter>)
        ensures
            sorter == sorter_for(*sort_args, reverse),
    {
        match sort_args {
            None => None,
            Some(key) => Some(Sorter { key: *key, reverse }),
        }
    }

    /// Stops the walk at an error.
    fn halt(&mut self, fault: String) -> (action: Action)
        ensures
            final(self).wf(),
            final(self)@ == old(self)@.halt(fault@).0,
            action.carries(old(self)@.halt(fault@).1, old(self)@),
    {
        self.phase = Phase::Aborted;
        self.stack = Vec::new();
        self.levels_continue = Vec::new();
        self.fault = fault.clone();
        assert(self@.stack =~= Seq::empty());
        assert(self.levels_continue@ =~= self@.continuation());
        Action::Abort(fault)
    }

    /// Turns to the next slot.
    fn turn(&mut self) -> (action: Action)
        requires
            old(self).poised(),
        ensures
            final(self).wf(),
            final(self)@ == old(self)@.turn(old(self)@.stack).0,
            action.carries(old(self)@.turn(old(self)@.stack).1, old(self)@),
    {
        let ghost origin = self@;
        let ghost goal = self@.turn(self@.stack);
        loop
            invariant
                self.poised(),
                origin.turn(self@.stack) == goal,
                self@ == (Walk { stack: self@.stack, ..origin }),
                goal == origin.turn(origin.stack),
                origin == old(self)@,
            decreases self.stack.len(),
        {
            let depth: usize = self.stack.len();
            if depth == 0 {
                self.phase = Phase::Finished;
                assert(self@.stack =~= Seq::empty());
                assert(self.levels_continue@ =~= self@.continuation());
                return Action::Finish;
            }
            let top = &self.stack[depth - 1];
            assert(self@.stack[depth - 1] == top.level());
            if top.next < top.order.len() {
                let at: usize = top.order[top.next];
                match &top.rows[at] {
                    Err(fault) => {
                        let fault = fault.clone();
                        return self.halt(fault);
                    },
                    Ok(entry) => {
                        let more = top.next + 1 < top.order.len();
                        let ghost stack = self@.stack;
                        self.levels_continue.push(more);
                        let symbols = Symbols::select(self.charset);
                        let line = Formatter::new(
                            self.full_name,
                            &self.levels_continue,
                            &symbols,
                            entry,
                        ).fmt();
                        self.phase = Phase::Shown;
                        assert(self@.stack =~= stack);
                        assert(self.levels_continue@ =~= self@.continuation());
                        return Action::Print(line);
                    },
                }
            } else {
                let ghost stack = self@.stack;
                self.stack.pop();
                if self.stack.len() == 0 {
                    self.phase = Phase::Finished;
                    assert(self@.stack =~= Seq::empty());
                    assert(self.levels_continue@ =~= self@.continuation());
                    return Action::Finish;
                }
                self.levels_continue.pop();
                let mut parent = self.stack.pop().unwrap();
                assert(parent.level() == stack[depth - 2]);
                assert(stack[depth - 2].pending());
                assert(parent.next < parent.order.len());
                parent.next = parent.next + 1;
                self.stack.push(parent);
                assert(self@.stack =~= stack.drop_last().drop_last().push(
                    stack[stack.len() - 2].advanced(),
                ));
            }
        }
    }

    /// Takes one step of the walk: brings the state on, and says what the
    /// caller does next.
    pub fn print(&mut self, event: Event) -> (action: Action)
        requires
            old(self).wf(),
        ensures
            final(self).wf(),
            final(self)@.wf(),
            final(self)@ == old(self)@.step(event@).0,
            action.carries(old(self)@.step(event@).1, old(self)@),
    {
        match self.phase {
            Phase::Fresh => {
                self.phase = Phase::Shown;
                assert(self@.stack =~= old(self)@.stack);
                assert(self.levels_continue@ =~= self@.continuation());
                Action::Print(String::from_str(text(self.dir)))
            },
            Phase::Shown => {
                let depth: usize = self.stack.len();
                if depth == 0 {
                    self.phase = Phase::Wait;
                    assert(self@.stack =~= old(self)@.stack);
                    assert(self.levels_continue@ =~= self@.continuation());
                    return Action::Read(slice_to_vec(self.dir));
                }
                let top = &self.stack[depth - 1];
                assert(self@.stack[depth - 1] == top.level());
                let at: usize = top.order[top.next];
                match &top.rows[at] {
                    Err(_) => unreached(),
                    Ok(entry) => match &entry.is_dir {
                        Err(fault) => {
                            let fault = fault.clone();
                            self.halt(fault)
                        },
                        Ok(d) => {
                            if *d {
                                let path = slice_to_vec(entry.path.as_slice());
                                self.phase = Phase::Wait;
                                assert(self@.stack =~= old(self)@.stack);
                                assert(self.levels_continue@ =~= self@.continuation());
                                Action::Read(path)
                            } else {
                                let ghost stack = self@.stack;
                                self.levels_continue.pop();
                                let mut top = self.stack.pop().unwrap();
                                assert(top.level() == stack[depth - 1]);
                                assert(stack[depth - 1].pending());
                                assert(top.next < top.order.len());
                                top.next = top.next + 1;
                                self.stack.push(top);
                                assert(self@.stack =~= stack.drop_last().push(
                                    stack.last().advanced(),
                                ));
                                self.turn()
                            }
                        },
                    },
                }
            },
            Phase::Wait => match event {
                Event::Listed(rows) => {
                    let ghost stack = self@.stack;
                    let order = arrange(&rows, &self.filter, &self.sorter);
                    self.stack.push(Frame { rows, order, next: 0 });
                    assert(self@.stack =~= stack.push(
                        Level {
                            rows: rows@,
                            order: arrangement(rows@, self.filter, self.sorter),
                            next: 0,
                        },
                    ));
                    self.turn()
                },
                Event::Unreadable(fault) => self.halt(fault),
                Event::Resume => {
                    let depth: usize = self.stack.len();
                    if depth == 0 {
                        return Action::Read(slice_to_vec(self.dir));
                    }
                    let top = &self.stack[depth - 1];
                    assert(self@.stack[depth - 1] == top.level());
                    let at: usize = top.order[top.next];
                    match &top.rows[at] {
                        Err(_) => unreached(),
                        Ok(entry) => Action::Read(slice_to_vec(entry.path.as_slice())),
                    }
                },
            },
            Phase::Finished => Action::Finish,
            Phase::Aborted => Action::Abort(self.fault.clone()),
        }
    }
}

} // verus!
