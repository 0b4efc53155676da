use dirtree::args::{Charset, Context};
use dirtree::dir::{Action, Event, Printer, Symbols};
use dirtree::entry::{Entry, Metadata};
use dirtree::format::{EntryDisplay, Formatter, Strokes};

fn coloured() {
    colored::control::set_override(true);
}

fn metadata(is_dir: bool, is_file: bool, mode: u32) -> Option<Metadata> {
    Some(Metadata { is_dir, is_file, size: 0, mode, created: None, modified: None })
}

fn entry(name: &str, is_dir: bool, metadata: Option<Metadata>) -> Entry {
    Entry { name: name.as_bytes().to_vec(), path: format!("top/{}", name).into_bytes(), is_dir: Ok(is_dir), metadata }
}

#[test]
fn directory_is_written_in_blue() {
    coloured();
    let directory = entry("src", true, metadata(true, false, 0o755));
    assert_eq!(EntryDisplay::new(&directory, false).fmt(), "\u{1b}[34msrc\u{1b}[0m");
    assert_eq!(EntryDisplay::new(&directory, true).fmt(), "\u{1b}[34mtop/src\u{1b}[0m");
}

#[test]
fn executable_is_written_in_green() {
    coloured();
    let program = entry("run", false, metadata(false, true, 0o755));
    assert_eq!(EntryDisplay::new(&program, false).fmt(), "\u{1b}[32mrun\u{1b}[0m");
    assert_eq!(EntryDisplay::new(&program, true).fmt(), "\u{1b}[32mtop/run\u{1b}[0m");
}

#[test]
fn plain_entry_is_written_without_colour() {
    coloured();
    let file = entry("notes", false, metadata(false, true, 0o644));
    assert_eq!(EntryDisplay::new(&file, false).fmt(), "notes");
    let unknown = entry("src", true, None);
    assert_eq!(EntryDisplay::new(&unknown, true).fmt(), "src");
}

#[test]
fn strokes_are_written_in_cyan() {
    coloured();
    let strokes = Strokes::paint(&Symbols::select(Charset::Ascii));
    assert_eq!(strokes.down, "\u{1b}[36m|\u{1b}[0m");
    assert_eq!(strokes.blank, "\u{1b}[36m \u{1b}[0m");
    assert_eq!(strokes.tee, "\u{1b}[36m|\u{1b}[0m");
    assert_eq!(strokes.ell, "\u{1b}[36m`\u{1b}[0m");
    assert_eq!(strokes.right, "\u{1b}[36m-\u{1b}[0m");
    let strokes = Strokes::paint(&Symbols::select(Charset::Utf8));
    assert_eq!(strokes.down, "\u{1b}[36m\u{2502}\u{1b}[0m");
    assert_eq!(strokes.right, "\u{1b}[36m\u{2500}\u{1b}[0m");
}

#[test]
fn line_is_written_in_colour() {
    coloured();
    let symbols = Symbols::select(Charset::Ascii);
    let directory = entry("src", true, metadata(true, false, 0o755));
    assert_eq!(
        Formatter::new(false, &vec![true, false], &symbols, &directory).fmt(),
        "\u{1b}[36m|\u{1b}[0m   \u{1b}[36m`\u{1b}[0m\u{1b}[36m-\u{1b}[0m\u{1b}[36m-\u{1b}[0m \u{1b}[34msrc\u{1b}[0m"
    );
    assert_eq!(
        Formatter::new(false, &vec![false, true], &symbols, &directory).fmt(),
        "\u{1b}[36m \u{1b}[0m   \u{1b}[36m|\u{1b}[0m\u{1b}[36m-\u{1b}[0m\u{1b}[36m-\u{1b}[0m \u{1b}[34msrc\u{1b}[0m"
    );
}

#[test]
fn walk_writes_in_colour_but_for_the_root() {
    coloured();
    let args = Context {
        dir: Some(b"top".to_vec()),
        charset: Charset::Ascii,
        sort: None,
        reverse: false,
        all: false,
        direction_only: false,
        full: false,
    };
    let mut printer = Printer::new(&args);
    assert_eq!(printer.print(Event::Resume), Action::Print("top".to_string()));
    assert_eq!(printer.print(Event::Resume), Action::Read(b"top".to_vec()));
    let rows = vec![Ok(entry("run", false, metadata(false, true, 0o700)))];
    assert_eq!(
        printer.print(Event::Listed(rows)),
        Action::Print(
            "\u{1b}[36m`\u{1b}[0m\u{1b}[36m-\u{1b}[0m\u{1b}[36m-\u{1b}[0m \u{1b}[32mrun\u{1b}[0m".to_string()
        )
    );
    assert_eq!(printer.print(Event::Resume), Action::Finish);
}
