use dirtree::args::{Charset, Context, SortArgs};
use dirtree::dir::{Action, Event, Printer};
use dirtree::entry::{Entry, Metadata, Slot};

fn context() -> Context {
    Context {
        dir: Some(b"root".to_vec()),
        charset: Charset::Utf8,
        sort: None,
        reverse: false,
        all: false,
        direction_only: false,
        full: false,
    }
}

fn ascii() -> Context {
    Context { charset: Charset::Ascii, ..context() }
}

fn file(dir: &str, name: &str, size: u64) -> Slot {
    Ok(Entry {
        name: name.as_bytes().to_vec(),
        path: format!("{}/{}", dir, name).into_bytes(),
        is_dir: Ok(false),
        metadata: Some(Metadata {
            is_dir: false,
            is_file: true,
            size,
            mode: 0o644,
            created: Some(0),
            modified: Some(0),
        }),
    })
}

fn folder(dir: &str, name: &str) -> Slot {
    Ok(Entry {
        name: name.as_bytes().to_vec(),
        path: format!("{}/{}", dir, name).into_bytes(),
        is_dir: Ok(true),
        metadata: Some(Metadata {
            is_dir: true,
            is_file: false,
            size: 4096,
            mode: 0o755,
            created: Some(0),
            modified: Some(0),
        }),
    })
}

/// Runs a walk over a tree held in memory and collects what it writes.
fn run(
    context: &Context,
    read: &dyn Fn(&str) -> Result<Vec<Slot>, String>,
) -> (Vec<String>, Option<String>) {
    colored::control::set_override(false);
    let mut printer = Printer::new(context);
    let mut lines = Vec::new();
    let mut event = Event::Resume;
    for _ in 0..10_000 {
        match printer.print(event) {
            Action::Print(line) => {
                lines.push(line);
                event = Event::Resume;
            }
            Action::Read(path) => {
                event = match read(std::str::from_utf8(&path).unwrap()) {
                    Ok(rows) => Event::Listed(rows),
                    Err(fault) => Event::Unreadable(fault),
                };
            }
            Action::Finish => return (lines, None),
            Action::Abort(fault) => return (lines, Some(fault)),
        }
    }
    panic!("the walk does not end");
}

fn sample(path: &str) -> Result<Vec<Slot>, String> {
    match path {
        "root" => Ok(vec![file("root", "a", 1), folder("root", "b"), file("root", ".hidden", 2)]),
        "root/b" => Ok(vec![file("root/b", "c", 3)]),
        other => Err(format!("{}: no such directory", other)),
    }
}

fn deep(path: &str) -> Result<Vec<Slot>, String> {
    match path {
        "root" => Ok(vec![folder("root", "x"), file("root", "w", 1)]),
        "root/x" => Ok(vec![folder("root/x", "y"), folder("root/x", "v")]),
        "root/x/y" => Ok(vec![file("root/x/y", "z", 1)]),
        "root/x/v" => Ok(vec![]),
        other => Err(format!("{}: no such directory", other)),
    }
}

fn strings(lines: &[&str]) -> Vec<String> {
    lines.iter().map(|line| line.to_string()).collect()
}

#[test]
fn default_run_lists_visible_entries_and_descends() {
    let (lines, fault) = run(&context(), &sample);
    assert_eq!(fault, None);
    assert_eq!(
        lines,
        strings(&[
            "root",
            "\u{251c}\u{2500}\u{2500} a",
            "\u{2514}\u{2500}\u{2500} b",
            "    \u{2514}\u{2500}\u{2500} c",
        ])
    );
}

#[test]
fn default_run_writes_one_line_for_each_visible_entry() {
    let read = |path: &str| match path {
        "root" => Ok(vec![
            file("root", ".a", 1),
            file("root", "b", 1),
            file("root", ".c", 1),
            file("root", "d", 1),
            file("root", "e", 1),
        ]),
        other => Err(other.to_string()),
    };
    let (lines, fault) = run(&ascii(), &read);
    assert_eq!(fault, None);
    assert_eq!(lines, strings(&["root", "|-- b", "|-- d", "`-- e"]));
    assert!(lines.iter().skip(1).all(|line| !line[4..].starts_with('.')));
}

#[test]
fn show_all_lists_hidden_entries() {
    let args = Context { all: true, ..ascii() };
    let (lines, fault) = run(&args, &sample);
    assert_eq!(fault, None);
    assert_eq!(lines, strings(&["root", "|-- a", "|-- b", "|   `-- c", "`-- .hidden"]));
}

#[test]
fn show_all_wins_over_directories_only() {
    let args = Context { all: true, direction_only: true, ..ascii() };
    let (lines, _) = run(&args, &sample);
    assert_eq!(lines, strings(&["root", "|-- a", "|-- b", "|   `-- c", "`-- .hidden"]));
}

#[test]
fn directories_only_lists_directories() {
    let read = |path: &str| match path {
        "root" => Ok(vec![
            file("root", "a", 1),
            folder("root", "b"),
            folder("root", ".git"),
            folder("root", "d"),
        ]),
        "root/b" => Ok(vec![file("root/b", "c", 3), folder("root/b", "e")]),
        "root/b/e" => Ok(vec![]),
        "root/d" => Ok(vec![file("root/d", "f", 3)]),
        other => Err(other.to_string()),
    };
    let args = Context { direction_only: true, ..ascii() };
    let (lines, fault) = run(&args, &read);
    assert_eq!(fault, None);
    assert_eq!(lines, strings(&["root", "|-- b", "|   `-- e", "`-- d"]));
}

#[test]
fn directories_only_drops_entries_of_unknown_type() {
    let read = |path: &str| match path {
        "root" => Ok(vec![
            Ok(Entry {
                name: b"odd".to_vec(),
                path: b"root/odd".to_vec(),
                is_dir: Err("gone".to_string()),
                metadata: None,
            }),
            folder("root", "b"),
        ]),
        "root/b" => Ok(vec![]),
        other => Err(other.to_string()),
    };
    let args = Context { direction_only: true, ..ascii() };
    let (lines, fault) = run(&args, &read);
    assert_eq!(fault, None);
    assert_eq!(lines, strings(&["root", "`-- b"]));
}

#[test]
fn continuation_stack_draws_every_ancestor() {
    let (lines, fault) = run(&ascii(), &deep);
    assert_eq!(fault, None);
    assert_eq!(
        lines,
        strings(&["root", "|-- x", "|   |-- y", "|   |   `-- z", "|   `-- v", "`-- w"])
    );
}

#[test]
fn last_child_of_last_child_has_blank_ancestors() {
    let read = |path: &str| match path {
        "root" => Ok(vec![folder("root", "x")]),
        "root/x" => Ok(vec![folder("root/x", "y")]),
        "root/x/y" => Ok(vec![file("root/x/y", "z", 1)]),
        other => Err(other.to_string()),
    };
    let (lines, _) = run(&context(), &read);
    assert_eq!(
        lines,
        strings(&[
            "root",
            "\u{2514}\u{2500}\u{2500} x",
            "    \u{2514}\u{2500}\u{2500} y",
            "        \u{2514}\u{2500}\u{2500} z",
        ])
    );
}

#[test]
fn utf8_prefix_marks_pending_ancestors() {
    let (lines, _) = run(&context(), &deep);
    assert_eq!(lines[3], "\u{2502}   \u{2502}   \u{2514}\u{2500}\u{2500} z");
    assert_eq!(lines[4], "\u{2502}   \u{2514}\u{2500}\u{2500} v");
}

#[test]
fn full_paths_are_shown_when_asked_for() {
    let args = Context { full: true, ..ascii() };
    let (lines, _) = run(&args, &sample);
    assert_eq!(lines, strings(&["root", "|-- root/a", "`-- root/b", "    `-- root/b/c"]));
}

#[test]
fn root_defaults_to_the_current_directory() {
    let args = Context { dir: None, ..ascii() };
    let mut printer = Printer::new(&args);
    assert_eq!(printer.print(Event::Resume), Action::Print(".".to_string()));
    assert_eq!(printer.print(Event::Resume), Action::Read(b".".to_vec()));
}

#[test]
fn empty_root_ends_after_its_line() {
    let read = |_: &str| Ok(vec![]);
    let (lines, fault) = run(&context(), &read);
    assert_eq!(fault, None);
    assert_eq!(lines, strings(&["root"]));
}

#[test]
fn root_with_hidden_entries_only_ends_after_its_line() {
    let read = |_: &str| Ok(vec![file("root", ".a", 1), folder("root", ".b")]);
    let (lines, fault) = run(&context(), &read);
    assert_eq!(fault, None);
    assert_eq!(lines, strings(&["root"]));
}

#[test]
fn unreadable_root_stops_the_walk() {
    let read = |_: &str| Err("permission denied".to_string());
    let (lines, fault) = run(&context(), &read);
    assert_eq!(lines, strings(&["root"]));
    assert_eq!(fault, Some("permission denied".to_string()));
}

#[test]
fn unreadable_subdirectory_stops_the_walk_after_its_line() {
    let read = |path: &str| match path {
        "root" => Ok(vec![folder("root", "locked"), file("root", "z", 1)]),
        _ => Err("permission denied".to_string()),
    };
    let (lines, fault) = run(&ascii(), &read);
    assert_eq!(lines, strings(&["root", "|-- locked"]));
    assert_eq!(fault, Some("permission denied".to_string()));
}

#[test]
fn enumeration_error_surfaces_where_it_stands() {
    let read = |_: &str| Ok(vec![file("root", "a", 1), Err("stale handle".to_string()), file("root", "z", 1)]);
    let (lines, fault) = run(&ascii(), &read);
    assert_eq!(lines, strings(&["root", "|-- a"]));
    assert_eq!(fault, Some("stale handle".to_string()));
}

#[test]
fn enumeration_error_is_kept_by_every_filter() {
    let read = |_: &str| Ok(vec![Err("stale handle".to_string())]);
    for (all, direction_only) in [(false, false), (false, true), (true, false)] {
        let args = Context { all, direction_only, ..ascii() };
        let (lines, fault) = run(&args, &read);
        assert_eq!(lines, strings(&["root"]));
        assert_eq!(fault, Some("stale handle".to_string()));
    }
}

#[test]
fn enumeration_error_sorts_after_every_entry() {
    let read = |_: &str| Ok(vec![Err("stale handle".to_string()), file("root", "z", 1), file("root", "a", 1)]);
    for reverse in [false, true] {
        let args = Context { sort: Some(SortArgs::Filename), reverse, ..ascii() };
        let (lines, fault) = run(&args, &read);
        let (first, second) = if reverse { ("|-- z", "|-- a") } else { ("|-- a", "|-- z") };
        assert_eq!(lines, strings(&["root", first, second]));
        assert_eq!(fault, Some("stale handle".to_string()));
    }
}

#[test]
fn unknown_type_stops_the_walk_after_the_line() {
    let read = |_: &str| {
        Ok(vec![
            Ok(Entry {
                name: b"odd".to_vec(),
                path: b"root/odd".to_vec(),
                is_dir: Err("gone".to_string()),
                metadata: None,
            }),
            file("root", "z", 1),
        ])
    };
    let (lines, fault) = run(&ascii(), &read);
    assert_eq!(lines, strings(&["root", "|-- odd"]));
    assert_eq!(fault, Some("gone".to_string()));
}

#[test]
fn sort_by_name_orders_each_level() {
    let read = |path: &str| match path {
        "root" => Ok(vec![file("root", "b", 1), folder("root", "a"), file("root", "C", 1)]),
        "root/a" => Ok(vec![file("root/a", "2", 1), file("root/a", "10", 1)]),
        other => Err(other.to_string()),
    };
    let args = Context { sort: Some(SortArgs::Filename), ..ascii() };
    let (lines, _) = run(&args, &read);
    assert_eq!(lines, strings(&["root", "|-- C", "|-- a", "|   |-- 10", "|   `-- 2", "`-- b"]));
    let args = Context { sort: Some(SortArgs::Filename), reverse: true, ..ascii() };
    let (lines, _) = run(&args, &read);
    assert_eq!(lines, strings(&["root", "|-- b", "|-- a", "|   |-- 2", "|   `-- 10", "`-- C"]));
}

#[test]
fn no_sort_key_keeps_enumeration_order() {
    let read = |_: &str| Ok(vec![file("root", "b", 1), file("root", "a", 1), file("root", "c", 1)]);
    let (lines, _) = run(&ascii(), &read);
    assert_eq!(lines, strings(&["root", "|-- b", "|-- a", "`-- c"]));
    let args = Context { reverse: true, ..ascii() };
    let (lines, _) = run(&args, &read);
    assert_eq!(lines, strings(&["root", "|-- b", "|-- a", "`-- c"]));
}

#[test]
fn walking_twice_writes_the_same() {
    for sort in [None, Some(SortArgs::Filename), Some(SortArgs::Size)] {
        let args = Context { sort, all: true, ..context() };
        let first = run(&args, &deep);
        let second = run(&args, &deep);
        assert_eq!(first, second);
    }
}

#[test]
fn resuming_while_waiting_asks_again() {
    let args = ascii();
    let mut printer = Printer::new(&args);
    assert_eq!(printer.print(Event::Resume), Action::Print("root".to_string()));
    assert_eq!(printer.print(Event::Resume), Action::Read(b"root".to_vec()));
    assert_eq!(printer.print(Event::Resume), Action::Read(b"root".to_vec()));
    assert_eq!(
        printer.print(Event::Listed(vec![folder("root", "b")])),
        Action::Print("`-- b".to_string())
    );
    assert_eq!(printer.print(Event::Resume), Action::Read(b"root/b".to_vec()));
    assert_eq!(printer.print(Event::Resume), Action::Read(b"root/b".to_vec()));
    assert_eq!(printer.print(Event::Listed(vec![])), Action::Finish);
}

#[test]
fn report_that_was_not_asked_for_resumes() {
    colored::control::set_override(false);
    let args = ascii();
    let mut printer = Printer::new(&args);
    assert_eq!(
        printer.print(Event::Listed(vec![file("root", "stray", 1)])),
        Action::Print("root".to_string())
    );
    assert_eq!(printer.print(Event::Unreadable("stray".to_string())), Action::Read(b"root".to_vec()));
    assert_eq!(
        printer.print(Event::Listed(vec![file("root", "a", 1), file("root", "b", 1)])),
        Action::Print("|-- a".to_string())
    );
    assert_eq!(
        printer.print(Event::Listed(vec![file("root", "stray", 1)])),
        Action::Print("`-- b".to_string())
    );
    assert_eq!(printer.print(Event::Unreadable("stray".to_string())), Action::Finish);
}

#[test]
fn finished_walk_stays_finished() {
    let args = ascii();
    let mut printer = Printer::new(&args);
    printer.print(Event::Resume);
    printer.print(Event::Resume);
    assert_eq!(printer.print(Event::Listed(vec![])), Action::Finish);
    assert_eq!(printer.print(Event::Resume), Action::Finish);
    assert_eq!(printer.print(Event::Listed(vec![file("root", "a", 1)])), Action::Finish);
}

#[test]
fn aborted_walk_repeats_its_error() {
    let args = ascii();
    let mut printer = Printer::new(&args);
    printer.print(Event::Resume);
    printer.print(Event::Resume);
    assert_eq!(printer.print(Event::Unreadable("denied".to_string())), Action::Abort("denied".to_string()));
    assert_eq!(printer.print(Event::Resume), Action::Abort("denied".to_string()));
    assert_eq!(printer.print(Event::Listed(vec![])), Action::Abort("denied".to_string()));
}

#[test]
fn large_directory_is_sorted_by_size() {
    let read = |_: &str| {
        let rows: Vec<Slot> = (0..500u64).map(|i| file("root", &format!("f{}", i), (i * 7919) % 500)).collect();
        Ok(rows)
    };
    let args = Context { sort: Some(SortArgs::Size), ..ascii() };
    let (lines, fault) = run(&args, &read);
    assert_eq!(fault, None);
    assert_eq!(lines.len(), 501);
    for size in 0..500u64 {
        let name = format!("f{}", (0..500u64).find(|i| (i * 7919) % 500 == size).unwrap());
        let branch = if size == 499 { "`" } else { "|" };
        assert_eq!(lines[size as usize + 1], format!("{}-- {}", branch, name));
    }
}

#[test]
fn long_chain_of_directories_is_walked() {
    let read = |path: &str| {
        let depth = path.matches('/').count();
        if depth < 300 {
            Ok(vec![folder(path, "d")])
        } else {
            Ok(vec![file(path, "leaf", 1)])
        }
    };
    let (lines, fault) = run(&ascii(), &read);
    assert_eq!(fault, None);
    assert_eq!(lines.len(), 302);
    assert_eq!(lines[1], "`-- d");
    assert_eq!(lines[300], format!("{}`-- d", " ".repeat(4 * 299)));
    assert_eq!(lines[301], format!("{}`-- leaf", " ".repeat(4 * 300)));
}

#[test]
fn directory_whose_name_is_no_text_is_read_by_its_bytes() {
    colored::control::set_override(false);
    let args = Context { dir: Some(vec![b'r', 0xff]), ..ascii() };
    let mut printer = Printer::new(&args);
    assert_eq!(printer.print(Event::Resume), Action::Print(String::new()));
    assert_eq!(printer.print(Event::Resume), Action::Read(vec![b'r', 0xff]));
    let odd = Entry {
        name: vec![0xfe],
        path: vec![b'r', 0xff, b'/', 0xfe],
        is_dir: Ok(true),
        metadata: None,
    };
    assert_eq!(printer.print(Event::Listed(vec![Ok(odd)])), Action::Print("`-- ".to_string()));
    assert_eq!(printer.print(Event::Resume), Action::Read(vec![b'r', 0xff, b'/', 0xfe]));
    assert_eq!(
        printer.print(Event::Listed(vec![file("x", "leaf", 1)])),
        Action::Print("    `-- leaf".to_string())
    );
    assert_eq!(printer.print(Event::Resume), Action::Finish);
}

#[test]
fn entry_named_with_a_single_dot_is_not_listed_by_default() {
    let read = |_: &str| Ok(vec![file("root", ".", 1), file("root", "a", 1)]);
    let (lines, _) = run(&ascii(), &read);
    assert_eq!(lines, strings(&["root", "`-- a"]));
    let args = Context { all: true, ..ascii() };
    let (lines, _) = run(&args, &read);
    assert_eq!(lines, strings(&["root", "|-- .", "`-- a"]));
}
