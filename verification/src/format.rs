//! How one line of the tree is written.

use crate::dir::Symbols;
use crate::entry::Entry;
use crate::text::{text, text_of};
use colored::Colorize;
use vstd::prelude::*;

verus! {

/// The character that begins every control sequence of a terminal.
pub const ESC: char = '\u{1b}';

/// The control sequence that ends a colour.
pub open spec fn reset() -> Seq<char> {
    seq![ESC, '[', '0', 'm']
}

/// The control sequence that begins cyan text.
pub open spec fn cyan_on() -> Seq<char> {
    seq![ESC, '[', '3', '6', 'm']
}

/// The control sequence that begins green text.
pub open spec fn green_on() -> Seq<char> {
    seq![ESC, '[', '3', '2', 'm']
}

/// The control sequence that begins blue text.
pub open spec fn blue_on() -> Seq<char> {
    seq![ESC, '[', '3', '4', 'm']
}

/// Whether `out` begins with the sequence `on` and ends with the reset
/// sequence.
pub open spec fn framed(out: Seq<char>, on: Seq<char>) -> bool {
    &&& out.len() >= on.len() + reset().len()
    &&& out.take(on.len() as int) == on
    &&& out.skip(out.len() - reset().len()) == reset()
}

/// Whether `out` is `text` written in the colour that `on` begins.
///
/// Where the environment has colours switched off, that is the text as it
/// stands. Where it has them on, it begins with `on` and ends with the reset
/// sequence, and a text without an escape character stands between the two
/// as it is.
pub open spec fn tinted(out: Seq<char>, text: Seq<char>, on: Seq<char>) -> bool {
    ||| out == text
    ||| framed(out, on) && (text.contains(ESC) || out == on + text + reset())
}

/// Writes a text in cyan, through `colored::Colorize::cyan` and the `Display`
/// of the `ColoredString` that it returns.
///
/// Whether colours are on is for the environment to say, so the contract
/// allows both outcomes: the text unchanged, or what begins with the cyan
/// sequence and ends with the reset sequence. Between the two stands the
/// text; only where it holds an escape character may `colored` have put
/// more sequences into it, and of that the contract says no more. It takes
/// the switch to stay as it is while one text is written.
#[verifier::external_body]
fn cyan(text: &str) -> (out: String)
    ensures
        tinted(out@, text@, cyan_on()),
{
    format!("{}", text.cyan())
}

/// Writes a text in green, through `colored::Colorize::green` and the
/// `Display` of the `ColoredString` that it returns. The contract is that of
/// [`cyan`], with the green sequence.
#[verifier::external_body]
fn green(text: &str) -> (out: String)
    ensures
        tinted(out@, text@, green_on()),
{
    format!("{}", text.green())
}

/// Writes a text in blue, through `colored::Colorize::blue` and the `Display`
/// of the `ColoredString` that it returns. The contract is that of [`cyan`],
/// with the blue sequence.
#[verifier::external_body]
fn blue(text: &str) -> (out: String)
    ensures
        tinted(out@, text@, blue_on()),
{
    format!("{}", text.blue())
}

/// The visual class of an entry.
#[derive(Debug, Clone, Copy, PartialEq, Eq, Structural)]
pub enum Class {
    /// A directory.
    Directory,
    /// A regular file that somebody may execute.
    Executable,
    /// Anything else, and every entry whose metadata could not be read.
    Plain,
}

/// Whether the entry is a regular file with an executable permission bit set.
pub open spec fn executable(entry: Entry) -> bool {
    match entry.metadata {
        Some(metadata) => metadata.is_file && metadata.mode & 0o111 != 0,
        None => false,
    }
}

/// The visual class of an entry. It does not depend on which text is shown.
pub open spec fn class_of(entry: Entry) -> Class {
    match entry.metadata {
        None => Class::Plain,
        Some(metadata) => if executable(entry) {
            Class::Executable
        } else if metadata.is_dir {
            Class::Directory
        } else {
            Class::Plain
        },
    }
}

/// The text that stands for an entry: its path where full paths are asked
/// for, else its name; the bare name where the metadata could not be read.
/// A name or path that is no text stands empty.
pub open spec fn caption(entry: Entry, full_name: bool) -> Seq<char> {
    if full_name && entry.metadata is Some {
        text_of(entry.path@)
    } else {
        text_of(entry.name@)
    }
}

/// Whether `out` is a way in which the entry is written: its caption, in
/// blue for a directory, in green for an executable, plain otherwise.
pub open spec fn labels(entry: Entry, full_name: bool, out: Seq<char>) -> bool {
    let text = caption(entry, full_name);
    match class_of(entry) {
        Class::Plain => out == text,
        Class::Directory => tinted(out, text, blue_on()),
        Class::Executable => tinted(out, text, green_on()),
    }
}

/// One entry, about to be written.
pub struct EntryDisplay<'a> {
    entry: &'a Entry,
    full_name: bool,
}

impl<'a> EntryDisplay<'a> {
    /// The entry that is written.
    pub closed spec fn entry(&self) -> Entry {
        *self.entry
    }

    /// Whether the full path is written in place of the name.
    pub closed spec fn full_name(&self) -> bool {
        self.full_name
    }

    pub fn new(entry: &'a Entry, full_name: bool) -> (display: Self)
        ensures
            display.entry() == *entry,
            display.full_name() == full_name,
    {
        EntryDisplay { entry, full_name }
    }

    /// Whether the entry is a regular file with an executable permission bit
    /// set.
    pub fn executable(&self) -> (x: bool)
        ensures
            x == executable(self.entry()),
    {
        match &self.entry.metadata {
            Some(metadata) => metadata.is_file && metadata.mode & 0o111 != 0,
            None => false,
        }
    }

    /// The visual class of the entry.
    pub fn class(&self) -> (class: Class)
        ensures
            class == class_of(self.entry()),
    {
        match &self.entry.metadata {
            None => Class::Plain,
            Some(metadata) => if self.executable() {
                Class::Executable
            } else if metadata.is_dir {
                Class::Directory
            } else {
                Class::Plain
            },
        }
    }

    /// The text that stands for the entry, before any colour.
    pub fn caption(&self) -> (text: &'a str)
        ensures
            text@ == caption(self.entry(), self.full_name()),
    {
        if self.full_name && self.entry.metadata.is_some() {
            text(self.entry.path.as_slice())
        } else {
            text(self.entry.name.as_slice())
        }
    }

    /// Writes the entry: its caption in the colour of its class.
    pub fn fmt(&self) -> (out: String)
        ensures
            labels(self.entry(), self.full_name(), out@),
    {
        let text = self.caption();
        match self.class() {
            Class::Executable => green(text),
            Class::Directory => blue(text),
            Class::Plain => String::from_str(text),
        }
    }
}

/// The connectors as they are written: each glyph in cyan, and a blank in
/// cyan for a level that does not go on.
#[derive(Debug, PartialEq, Eq)]
pub struct Strokes {
    pub down: String,
    pub blank: String,
    pub tee: String,
    pub ell: String,
    pub right: String,
}

impl Strokes {
    /// Whether the strokes are a way in which the glyphs are written.
    pub open spec fn renders(self, symbols: Symbols) -> bool {
        &&& tinted(self.down@, symbols.down@, cyan_on())
        &&& tinted(self.blank@, seq![' '], cyan_on())
        &&& tinted(self.tee@, symbols.tee@, cyan_on())
        &&& tinted(self.ell@, symbols.ell@, cyan_on())
        &&& tinted(self.right@, symbols.right@, cyan_on())
    }

    /// Writes the glyphs in cyan.
    pub fn paint(symbols: &Symbols) -> (strokes: Strokes)
        ensures
            strokes.renders(*symbols),
    {
        proof {
            reveal_strlit(" ");
            assert(" "@ =~= seq![' ']);
        }
        Strokes {
            down: cyan(symbols.down),
            blank: cyan(" "),
            tee: cyan(symbols.tee),
            ell: cyan(symbols.ell),
            right: cyan(symbols.right),
        }
    }
}

/// What stands between two levels of the prefix.
pub open spec fn gap() -> Seq<char> {
    seq![' ', ' ', ' ']
}

/// The part of a prefix that the ancestors of an entry take up. For each of
/// them, from the root down: the vertical stroke where a later sibling of
/// the ancestor is still to come, else the blank; a gap after either.
pub open spec fn stem(levels: Seq<bool>, strokes: Strokes) -> Seq<char>
    decreases levels.len(),
{
    if levels.len() == 0 {
        Seq::empty()
    } else {
        stem(levels.drop_last(), strokes) + (if levels.last() {
            strokes.down@
        } else {
            strokes.blank@
        }) + gap()
    }
}

/// The connector that leads to an entry: the branch where a later sibling
/// follows, else the corner; then the horizontal stroke twice and a space.
pub open spec fn joint(continues: bool, strokes: Strokes) -> Seq<char> {
    (if continues {
        strokes.tee@
    } else {
        strokes.ell@
    }) + strokes.right@ + strokes.right@ + seq![' ']
}

/// What stands before an entry on its line. `levels` holds one flag for each
/// ancestor below the root and one for the entry, each telling whether a
/// later sibling follows at that level.
pub open spec fn prefix(levels: Seq<bool>, strokes: Strokes) -> Seq<char> {
    if levels.len() == 0 {
        Seq::empty()
    } else {
        stem(levels.drop_last(), strokes) + joint(levels.last(), strokes)
    }
}

/// A line of the tree: the prefix, then the entry as it is written.
pub open spec fn line_text(levels: Seq<bool>, strokes: Strokes, label: Seq<char>) -> Seq<char> {
    prefix(levels, strokes) + label
}

/// Whether each stroke is one character wide, as the glyphs of both
/// character sets are where nothing is coloured.
pub open spec fn slim(strokes: Strokes) -> bool {
    &&& strokes.down@.len() == 1
    &&& strokes.blank@.len() == 1
    &&& strokes.tee@.len() == 1
    &&& strokes.ell@.len() == 1
    &&& strokes.right@.len() == 1
}

/// With strokes of one character, every ancestor takes four characters of
/// the stem: its stroke and the gap.
proof fn lemma_stem_cells(levels: Seq<bool>, strokes: Strokes)
    requires
        slim(strokes),
    ensures
        stem(levels, strokes).len() == 4 * levels.len(),
        forall|k: int|
            0 <= k < levels.len() ==> {
                &&& stem(levels, strokes)[4 * k] == if #[trigger] levels[k] {
                    strokes.down@[0]
                } else {
                    strokes.blank@[0]
                }
                &&& stem(levels, strokes)[4 * k + 1] == ' '
                &&& stem(levels, strokes)[4 * k + 2] == ' '
                &&& stem(levels, strokes)[4 * k + 3] == ' '
            },
    decreases levels.len(),
{
    if levels.len() > 0 {
        let above = levels.drop_last();
        lemma_stem_cells(above, strokes);
        assert forall|k: int| 0 <= k < levels.len() implies {
            &&& stem(levels, strokes)[4 * k] == if #[trigger] levels[k] {
                strokes.down@[0]
            } else {
                strokes.blank@[0]
            }
            &&& stem(levels, strokes)[4 * k + 1] == ' '
            &&& stem(levels, strokes)[4 * k + 2] == ' '
            &&& stem(levels, strokes)[4 * k + 3] == ' '
        } by {
            if k < above.len() {
                assert(above[k] == levels[k]);
            }
        }
    }
}

/// The shape of a prefix, for strokes of one character.
///
/// The prefix takes four characters for each level. For every ancestor these
/// are the vertical stroke, where a later sibling of the ancestor is still
/// to come, or else the blank, and three spaces. For the entry itself they
/// are the branch, where a later sibling follows, or else the corner, then
/// the horizontal stroke twice and a space.
pub proof fn lemma_prefix_cells(levels: Seq<bool>, strokes: Strokes)
    requires
        slim(strokes),
        levels.len() > 0,
    ensures
        prefix(levels, strokes).len() == 4 * levels.len(),
        forall|k: int|
            0 <= k < levels.len() - 1 ==> {
                &&& prefix(levels, strokes)[4 * k] == if #[trigger] levels[k] {
                    strokes.down@[0]
                } else {
                    strokes.blank@[0]
                }
                &&& prefix(levels, strokes)[4 * k + 1] == ' '
                &&& prefix(levels, strokes)[4 * k + 2] == ' '
                &&& prefix(levels, strokes)[4 * k + 3] == ' '
            },
        ({
            let at = 4 * (levels.len() - 1);
            &&& prefix(levels, strokes)[at] == if levels.last() {
                strokes.tee@[0]
            } else {
                strokes.ell@[0]
            }
            &&& prefix(levels, strokes)[at + 1] == strokes.right@[0]
            &&& prefix(levels, strokes)[at + 2] == strokes.right@[0]
            &&& prefix(levels, strokes)[at + 3] == ' '
        }),
{
    let above = levels.drop_last();
    lemma_stem_cells(above, strokes);
    assert forall|k: int| 0 <= k < levels.len() - 1 implies {
        &&& prefix(levels, strokes)[4 * k] == if #[trigger] levels[k] {
            strokes.down@[0]
        } else {
            strokes.blank@[0]
        }
        &&& prefix(levels, strokes)[4 * k + 1] == ' '
        &&& prefix(levels, strokes)[4 * k + 2] == ' '
        &&& prefix(levels, strokes)[4 * k + 3] == ' '
    } by {
        assert(above[k] == levels[k]);
    }
}

/// Puts a line together from the strokes and the entry as they are written.
pub fn compose(levels: &Vec<bool>, strokes: &Strokes, label: &str) -> (line: String)
    ensures
        line@ == line_text(levels@, *strokes, label@),
{
    let mut line = String::new();
    let depth: usize = levels.len();
    if depth > 0 {
        let mut k: usize = 0;
        assert(levels@.take(0) =~= Seq::<bool>::empty());
        while k < depth - 1
            invariant
                depth == levels.len(),
                k <= depth - 1,
                line@ == stem(levels@.take(k as int), *strokes),
            decreases depth - 1 - k,
        {
            if levels[k] {
                line.append(strokes.down.as_str());
            } else {
                line.append(strokes.blank.as_str());
            }
            line.append("   ");
            proof {
                reveal_strlit("   ");
                assert("   "@ =~= gap());
                assert(levels@.take(k + 1).drop_last() =~= levels@.take(k as int));
            }
            k += 1;
        }
        if levels[depth - 1] {
            line.append(strokes.tee.as_str());
        } else {
            line.append(strokes.ell.as_str());
        }
        line.append(strokes.right.as_str());
        line.append(strokes.right.as_str());
        line.append(" ");
        proof {
            reveal_strlit(" ");
            assert(" "@ =~= seq![' ']);
            assert(levels@.take(depth - 1) =~= levels@.drop_last());
            assert(line@ =~= prefix(levels@, *strokes));
        }
    }
    line.append(label);
    line
}

/// Whether `line` is a way in which an entry at the given levels is written.
pub open spec fn draws(
    levels: Seq<bool>,
    symbols: Symbols,
    entry: Entry,
    full_name: bool,
    line: Seq<char>,
) -> bool {
    exists|strokes: Strokes, label: Seq<char>|
        #![trigger line_text(levels, strokes, label)]
        strokes.renders(symbols) && labels(entry, full_name, label) && line == line_text(
            levels,
            strokes,
            label,
        )
}

/// One line of the tree, about to be written.
pub struct Formatter<'a> {
    full_name: bool,
    level_status: &'a Vec<bool>,
    symbols: &'a Symbols,
    entry: &'a Entry,
}

impl<'a> Formatter<'a> {
    /// Whether the full path is written in place of the name.
    pub closed spec fn full_name(&self) -> bool {
        self.full_name
    }

    /// For each level down to the entry's own, whether a later sibling
    /// follows there.
    pub closed spec fn levels(&self) -> Seq<bool> {
        self.level_status@
    }

    /// The glyphs in use.
    pub closed spec fn symbols(&self) -> Symbols {
        *self.symbols
    }

    /// The entry that is written.
    pub closed spec fn entry(&self) -> Entry {
        *self.entry
    }

    pub fn new(
        full_name: bool,
        level_status: &'a Vec<bool>,
        symbols: &'a Symbols,
        entry: &'a Entry,
    ) -> (formatter: Self)
        ensures
            formatter.full_name() == full_name,
            formatter.levels() == level_status@,
            formatter.symbols() == *symbols,
            formatter.entry() == *entry,
    {
        Self { full_name, level_status, symbols, entry }
    }

    /// Writes the line: the prefix in cyan, then the entry.
    pub fn fmt(&self) -> (line: String)
        ensures
            draws(self.levels(), self.symbols(), self.entry(), self.full_name(), line@),
    {
        let strokes = Strokes::paint(self.symbols);
        let label = EntryDisplay::new(self.entry, self.full_name).fmt();
        let line = compose(self.level_status, &strokes, label.as_str());
        assert(line@ == line_text(self.levels(), strokes, label@));
        line
    }
}

} // verus!
