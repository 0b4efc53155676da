use dirtree::args::{Charset, Context, SortArgs};
use dirtree::dir::Printer;
use dirtree::filter::Filter;
use dirtree::order::Sorter;

fn context(dir: Option<&str>) -> Context {
    Context {
        dir: dir.map(|path| path.as_bytes().to_vec()),
        charset: Charset::Utf8,
        sort: None,
        reverse: false,
        all: false,
        direction_only: false,
        full: false,
    }
}

#[test]
fn dir_is_the_configured_directory() {
    assert_eq!(context(Some("/var/log")).dir(), b"/var/log");
    assert_eq!(context(Some("")).dir(), b"");
    assert_eq!(context(Some("a/../b")).dir(), b"a/../b");
}

#[test]
fn dir_defaults_to_the_current_directory() {
    assert_eq!(context(None).dir(), b".");
}

#[test]
fn filter_follows_the_options() {
    assert_eq!(Printer::build_filter(false, false), Some(Filter::Visible));
    assert_eq!(Printer::build_filter(false, true), Some(Filter::Directories));
    assert_eq!(Printer::build_filter(true, false), None);
    assert_eq!(Printer::build_filter(true, true), None);
}

#[test]
fn sorter_follows_the_options() {
    assert_eq!(Printer::build_sorter(&None, false), None);
    assert_eq!(Printer::build_sorter(&None, true), None);
    for key in [SortArgs::Filename, SortArgs::Size, SortArgs::CreatedTime, SortArgs::ModifiedTime] {
        for reverse in [false, true] {
            assert_eq!(Printer::build_sorter(&Some(key), reverse), Some(Sorter { key, reverse }));
        }
    }
}

#[test]
fn dir_keeps_bytes_that_are_no_text() {
    let args = Context { dir: Some(vec![b'a', 0xff, b'/', 0xfe]), ..context(None) };
    assert_eq!(args.dir(), &[b'a', 0xff, b'/', 0xfe]);
}
