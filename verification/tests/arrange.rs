use dirtree::args::SortArgs;
use dirtree::arrange::arrange;
use dirtree::entry::{is_hidden, starts_with_dot, Entry, Metadata, Slot};
use dirtree::filter::{retains, Filter};
use dirtree::order::{compare_bytes, Rank, Sorter};

fn metadata(size: u64) -> Metadata {
    Metadata { is_dir: false, is_file: true, size, mode: 0o644, created: Some(0), modified: Some(0) }
}

fn entry(name: &str) -> Entry {
    Entry {
        name: name.as_bytes().to_vec(),
        path: format!("top/{}", name).into_bytes(),
        is_dir: Ok(false),
        metadata: Some(metadata(0)),
    }
}

fn sized(name: &str, size: u64) -> Slot {
    Ok(Entry { metadata: Some(metadata(size)), ..entry(name) })
}

fn timed(name: &str, created: Option<i128>, modified: Option<i128>) -> Slot {
    Ok(Entry { metadata: Some(Metadata { created, modified, ..metadata(0) }), ..entry(name) })
}

fn bare(name: &str) -> Slot {
    Ok(Entry { metadata: None, ..entry(name) })
}

fn directory(name: &str) -> Slot {
    Ok(Entry {
        is_dir: Ok(true),
        metadata: Some(Metadata { is_dir: true, is_file: false, ..metadata(0) }),
        ..entry(name)
    })
}

fn failed() -> Slot {
    Err("stale handle".to_string())
}

fn by(key: SortArgs, reverse: bool) -> Option<Sorter> {
    Some(Sorter { key, reverse })
}

#[test]
fn bytes_compare_lexicographically() {
    assert_eq!(compare_bytes(b"", b""), Rank::Equal);
    assert_eq!(compare_bytes(b"", b"a"), Rank::Less);
    assert_eq!(compare_bytes(b"a", b""), Rank::Greater);
    assert_eq!(compare_bytes(b"abc", b"abc"), Rank::Equal);
    assert_eq!(compare_bytes(b"abc", b"abd"), Rank::Less);
    assert_eq!(compare_bytes(b"abd", b"abc"), Rank::Greater);
    assert_eq!(compare_bytes(b"ab", b"abc"), Rank::Less);
    assert_eq!(compare_bytes(b"abc", b"ab"), Rank::Greater);
    assert_eq!(compare_bytes(b"Z", b"a"), Rank::Less);
    assert_eq!(compare_bytes(&[0xff], &[0x7f, 0x00]), Rank::Greater);
}

#[test]
fn rank_flips() {
    assert_eq!(Rank::Less.flip(), Rank::Greater);
    assert_eq!(Rank::Equal.flip(), Rank::Equal);
    assert_eq!(Rank::Greater.flip(), Rank::Less);
}

#[test]
fn names_compare_by_their_bytes() {
    let sorter = Sorter { key: SortArgs::Filename, reverse: false };
    assert_eq!(sorter.compare(&sized("a", 9), &sized("b", 1)), Rank::Less);
    assert_eq!(sorter.compare(&sized("b", 1), &sized("a", 9)), Rank::Greater);
    assert_eq!(sorter.compare(&sized("a", 1), &sized("a", 2)), Rank::Equal);
    assert_eq!(sorter.compare(&sized("B", 1), &sized("a", 1)), Rank::Less);
    assert_eq!(sorter.compare(&sized("z", 1), &sized("\u{e9}", 1)), Rank::Less);
    assert_eq!(sorter.compare(&sized("\u{e9}", 1), &sized("\u{4e2d}", 1)), Rank::Less);
    assert_eq!(sorter.compare(&bare("a"), &bare("b")), Rank::Less);
}

#[test]
fn reversed_names_compare_the_other_way() {
    let sorter = Sorter { key: SortArgs::Filename, reverse: true };
    assert_eq!(sorter.compare(&sized("a", 9), &sized("b", 1)), Rank::Greater);
    assert_eq!(sorter.compare(&sized("b", 1), &sized("a", 9)), Rank::Less);
    assert_eq!(sorter.compare(&sized("a", 1), &sized("a", 2)), Rank::Equal);
}

#[test]
fn sizes_compare_as_numbers() {
    let up = Sorter { key: SortArgs::Size, reverse: false };
    let down = Sorter { key: SortArgs::Size, reverse: true };
    assert_eq!(up.compare(&sized("z", 9), &sized("a", 10)), Rank::Less);
    assert_eq!(up.compare(&sized("a", 10), &sized("z", 9)), Rank::Greater);
    assert_eq!(up.compare(&sized("a", 10), &sized("z", 10)), Rank::Equal);
    assert_eq!(down.compare(&sized("z", 9), &sized("a", 10)), Rank::Greater);
    assert_eq!(down.compare(&sized("a", 10), &sized("z", 9)), Rank::Less);
    assert_eq!(up.compare(&sized("a", u64::MAX), &sized("z", 0)), Rank::Greater);
}

#[test]
fn times_compare_as_numbers() {
    let created = Sorter { key: SortArgs::CreatedTime, reverse: false };
    let modified = Sorter { key: SortArgs::ModifiedTime, reverse: false };
    let old = timed("old", Some(-5), Some(700));
    let new = timed("new", Some(100), Some(600));
    assert_eq!(created.compare(&old, &new), Rank::Less);
    assert_eq!(modified.compare(&old, &new), Rank::Greater);
    assert_eq!(created.compare(&old, &old), Rank::Equal);
}

#[test]
fn entries_without_the_key_come_last_reversed_or_not() {
    for reverse in [false, true] {
        let size = Sorter { key: SortArgs::Size, reverse };
        assert_eq!(size.compare(&sized("a", 1), &bare("b")), Rank::Less);
        assert_eq!(size.compare(&bare("b"), &sized("a", 1)), Rank::Greater);
        assert_eq!(size.compare(&bare("a"), &bare("b")), Rank::Equal);
        assert_eq!(size.compare(&sized("a", 1), &failed()), Rank::Less);
        assert_eq!(size.compare(&failed(), &sized("a", 1)), Rank::Greater);
        assert_eq!(size.compare(&failed(), &failed()), Rank::Equal);
        assert_eq!(size.compare(&failed(), &bare("a")), Rank::Equal);
        assert_eq!(size.compare(&bare("a"), &failed()), Rank::Equal);
        let created = Sorter { key: SortArgs::CreatedTime, reverse };
        assert_eq!(created.compare(&timed("a", Some(1), None), &timed("b", None, Some(1))), Rank::Less);
        assert_eq!(created.compare(&timed("a", None, Some(1)), &timed("b", Some(1), None)), Rank::Greater);
        let modified = Sorter { key: SortArgs::ModifiedTime, reverse };
        assert_eq!(modified.compare(&timed("a", Some(1), None), &timed("b", None, Some(1))), Rank::Greater);
        let name = Sorter { key: SortArgs::Filename, reverse };
        assert_eq!(name.compare(&bare("a"), &failed()), Rank::Less);
        assert_eq!(name.compare(&failed(), &bare("a")), Rank::Greater);
        assert_eq!(name.compare(&failed(), &failed()), Rank::Equal);
    }
}

fn raw(name: &[u8]) -> Entry {
    Entry { name: name.to_vec(), path: name.to_vec(), is_dir: Ok(false), metadata: Some(metadata(0)) }
}

#[test]
fn names_that_start_with_a_dot_are_hidden() {
    assert!(is_hidden(&entry(".git")));
    assert!(is_hidden(&entry("..")));
    assert!(is_hidden(&entry(".a.")));
    assert!(!is_hidden(&entry("git")));
    assert!(!is_hidden(&entry("a.b")));
    assert!(!is_hidden(&entry("a.")));
    assert!(!is_hidden(&entry("")));
}

#[test]
fn the_single_dot_is_not_hidden() {
    assert!(!is_hidden(&entry(".")));
    assert!(starts_with_dot(&entry(".")));
}

#[test]
fn names_that_are_no_text_are_judged_by_their_bytes() {
    assert!(is_hidden(&raw(&[b'.', 0xff])));
    assert!(is_hidden(&raw(&[b'.', 0xc3])));
    assert!(!is_hidden(&raw(&[0xff, b'.'])));
    assert!(starts_with_dot(&raw(&[b'.', 0xff])));
    assert!(!starts_with_dot(&raw(&[0xff, b'.'])));
    assert!(!Filter::Visible.keep(&raw(&[b'.', 0xff])));
    assert!(Filter::Visible.keep(&raw(&[0xff])));
}

#[test]
fn names_start_with_a_dot_or_not() {
    assert!(starts_with_dot(&entry(".git")));
    assert!(starts_with_dot(&entry("..")));
    assert!(!starts_with_dot(&entry("git")));
    assert!(!starts_with_dot(&entry("a.b")));
    assert!(!starts_with_dot(&entry("")));
}

#[test]
fn filters_drop_the_single_dot() {
    assert!(!Filter::Visible.keep(&entry(".")));
    assert!(!Filter::Directories.keep(&directory(".").unwrap()));
    assert!(retains(&None, &bare(".")));
    let slots = vec![sized("a", 1), sized(".", 1), sized("..", 1), sized("b", 1)];
    assert_eq!(arrange(&slots, &Some(Filter::Visible), &None), vec![0, 3]);
    assert_eq!(arrange(&slots, &None, &None), vec![0, 1, 2, 3]);
}

#[test]
fn names_that_are_no_text_sort_by_their_bytes() {
    let slots: Vec<Slot> = vec![Ok(raw(&[0xff])), Ok(raw(&[0x80, 0x01])), Ok(raw(b"z")), Ok(raw(&[0x80]))];
    assert_eq!(arrange(&slots, &None, &by(SortArgs::Filename, false)), vec![2, 3, 1, 0]);
    assert_eq!(arrange(&slots, &None, &by(SortArgs::Filename, true)), vec![0, 1, 3, 2]);
}

#[test]
fn visible_filter_keeps_what_is_not_hidden() {
    assert!(Filter::Visible.keep(&entry("a")));
    assert!(!Filter::Visible.keep(&entry(".a")));
    assert!(retains(&Some(Filter::Visible), &bare("a")));
    assert!(!retains(&Some(Filter::Visible), &bare(".a")));
    assert!(retains(&Some(Filter::Visible), &failed()));
}

#[test]
fn directory_filter_keeps_visible_directories() {
    assert!(Filter::Directories.keep(&directory("a").unwrap()));
    assert!(!Filter::Directories.keep(&directory(".a").unwrap()));
    assert!(!Filter::Directories.keep(&entry("a")));
    let unknown = Entry { is_dir: Err("gone".to_string()), ..entry("a") };
    assert!(!Filter::Directories.keep(&unknown));
    assert!(retains(&Some(Filter::Directories), &failed()));
}

#[test]
fn no_filter_keeps_everything() {
    assert!(retains(&None, &bare(".a")));
    assert!(retains(&None, &bare("a")));
    assert!(retains(&None, &failed()));
}

#[test]
fn arrangement_without_options_is_the_visible_part_in_order() {
    let slots = vec![sized("b", 1), sized(".x", 1), sized("a", 1), failed(), sized(".y", 1), sized("c", 1)];
    assert_eq!(arrange(&slots, &Some(Filter::Visible), &None), vec![0, 2, 3, 5]);
    assert_eq!(arrange(&slots, &None, &None), vec![0, 1, 2, 3, 4, 5]);
    assert_eq!(arrange(&slots, &Some(Filter::Directories), &None), vec![3]);
    assert_eq!(arrange(&Vec::new(), &Some(Filter::Visible), &None), Vec::<usize>::new());
}

#[test]
fn arrangement_by_name() {
    let slots = vec![sized("b", 1), sized(".x", 1), sized("a", 1), failed(), sized("C", 1), sized("c", 1)];
    assert_eq!(arrange(&slots, &Some(Filter::Visible), &by(SortArgs::Filename, false)), vec![4, 2, 0, 5, 3]);
    assert_eq!(arrange(&slots, &Some(Filter::Visible), &by(SortArgs::Filename, true)), vec![5, 0, 2, 4, 3]);
    assert_eq!(arrange(&slots, &None, &by(SortArgs::Filename, false)), vec![1, 4, 2, 0, 5, 3]);
}

#[test]
fn arrangement_by_size_is_stable() {
    let slots = vec![sized("e", 5), sized("d", 3), bare("x"), sized("c", 5), sized("b", 3), failed(), sized("a", 1)];
    assert_eq!(arrange(&slots, &None, &by(SortArgs::Size, false)), vec![6, 1, 4, 0, 3, 2, 5]);
    assert_eq!(arrange(&slots, &None, &by(SortArgs::Size, true)), vec![0, 3, 1, 4, 6, 2, 5]);
}

#[test]
fn arrangement_by_time() {
    let slots = vec![
        timed("a", Some(30), Some(1)),
        timed("b", None, Some(3)),
        timed("c", Some(10), None),
        timed("d", Some(20), Some(2)),
    ];
    assert_eq!(arrange(&slots, &None, &by(SortArgs::CreatedTime, false)), vec![2, 3, 0, 1]);
    assert_eq!(arrange(&slots, &None, &by(SortArgs::CreatedTime, true)), vec![0, 3, 2, 1]);
    assert_eq!(arrange(&slots, &None, &by(SortArgs::ModifiedTime, false)), vec![0, 3, 1, 2]);
    assert_eq!(arrange(&slots, &None, &by(SortArgs::ModifiedTime, true)), vec![1, 3, 0, 2]);
}

#[test]
fn arrangement_of_equal_names_keeps_enumeration_order() {
    let slots = vec![sized("a", 3), sized("a", 2), sized("a", 1)];
    assert_eq!(arrange(&slots, &None, &by(SortArgs::Filename, false)), vec![0, 1, 2]);
    assert_eq!(arrange(&slots, &None, &by(SortArgs::Filename, true)), vec![0, 1, 2]);
}

#[test]
fn arrangement_agrees_with_a_stable_sort() {
    let mut seed: u64 = 0x2545f491;
    for round in 0..40 {
        let mut slots: Vec<Slot> = Vec::new();
        let len = round * 3 % 50;
        for i in 0..len {
            seed = seed.wrapping_mul(6364136223846793005).wrapping_add(1442695040888963407);
            let pick = (seed >> 33) % 10;
            slots.push(if pick == 0 {
                failed()
            } else if pick == 1 {
                bare(&format!("n{}", i))
            } else {
                sized(&format!("n{}", (seed >> 40) % 7), (seed >> 50) % 5)
            });
        }
        for key in [SortArgs::Filename, SortArgs::Size] {
            for reverse in [false, true] {
                let sorter = Sorter { key, reverse };
                let mut expected: Vec<usize> = (0..slots.len()).collect();
                expected.sort_by(|x, y| match sorter.compare(&slots[*x], &slots[*y]) {
                    Rank::Less => std::cmp::Ordering::Less,
                    Rank::Equal => std::cmp::Ordering::Equal,
                    Rank::Greater => std::cmp::Ordering::Greater,
                });
                assert_eq!(arrange(&slots, &None, &Some(sorter)), expected);
            }
        }
    }
}
