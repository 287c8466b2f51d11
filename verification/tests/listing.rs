use browser_core::file::{File, Meta};
use browser_core::files::{Files, FilesOp};
use browser_core::index_map::sort_ordering;
use browser_core::order::{lex_relate, measure_of, relate, FilesSort, Rel, SortBy};
use indexmap::IndexMap;
use std::cmp::Ordering;

fn meta(size: u64) -> Meta {
    Meta { created: None, modified: None, size, is_hidden: false }
}

fn sized(path: &str, size: u64) -> File {
    File {
        path: path.to_string(),
        name: path.to_string(),
        meta: meta(size),
        length: Some(size),
        is_selected: false,
    }
}

fn stamped(path: &str, created: Option<i128>, modified: Option<i128>) -> File {
    File {
        path: path.to_string(),
        name: path.to_string(),
        meta: Meta { created, modified, size: 0, is_hidden: false },
        length: None,
        is_selected: false,
    }
}

fn named(path: &str, name: &str) -> File {
    File {
        path: path.to_string(),
        name: name.to_string(),
        meta: meta(0),
        length: None,
        is_selected: false,
    }
}

fn hidden(path: &str) -> File {
    File {
        path: path.to_string(),
        name: path.to_string(),
        meta: Meta { created: None, modified: None, size: 0, is_hidden: true },
        length: None,
        is_selected: false,
    }
}

fn snapshot(files: Vec<File>) -> IndexMap<String, File> {
    let mut map = IndexMap::new();
    for file in files {
        map.insert(file.path.clone(), file);
    }
    map
}

fn by(by: SortBy) -> FilesSort {
    FilesSort { by, reverse: false }
}

fn reversed(by: SortBy) -> FilesSort {
    FilesSort { by, reverse: true }
}

fn paths(files: &Files) -> Vec<String> {
    let mut out = Vec::new();
    let mut i = 0;
    while let Some((path, _)) = files.get_index(i) {
        out.push(path.clone());
        i += 1;
    }
    out
}

#[test]
fn new_listing_is_empty() {
    let files = Files::new(by(SortBy::Size), true);
    assert_eq!(files.len(), 0);
    assert!(files.get_index(0).is_none());
    assert_eq!(files.sort_spec(), by(SortBy::Size));
    assert!(files.show_hidden);
    assert!(files.items().is_empty());
}

#[test]
fn append_keeps_selection_and_sorts_by_size() {
    let mut files = Files::new(by(SortBy::Size), true);
    let mut a = sized("a.txt", 10);
    a.is_selected = true;
    assert!(files.update(snapshot(vec![a, sized("b.txt", 5)])));
    assert_eq!(paths(&files), vec!["b.txt", "a.txt"]);

    assert!(files.append(snapshot(vec![sized("a.txt", 20), sized("c.txt", 1)])));
    assert_eq!(paths(&files), vec!["c.txt", "b.txt", "a.txt"]);
    let a = files.get(&"a.txt".to_string()).unwrap();
    assert!(a.is_selected);
    assert_eq!(a.length, Some(10));
    assert_eq!(a.meta.size, 20);
}

#[test]
fn update_carries_the_session_fields_and_nothing_else() {
    let mut files = Files::new(by(SortBy::Alphabetical), true);
    let mut old = sized("a", 1);
    old.is_selected = true;
    old.length = Some(77);
    old.meta.modified = Some(5);
    files.update(snapshot(vec![old, sized("gone", 2)]));

    let mut new = named("a", "renamed");
    new.meta = Meta { created: Some(1), modified: Some(9), size: 3, is_hidden: false };
    files.update(snapshot(vec![new, sized("fresh", 4)]));

    let a = files.get(&"a".to_string()).unwrap();
    assert_eq!(
        *a,
        File {
            path: "a".to_string(),
            name: "renamed".to_string(),
            meta: Meta { created: Some(1), modified: Some(9), size: 3, is_hidden: false },
            length: Some(77),
            is_selected: true,
        }
    );
    assert_eq!(*files.get(&"fresh".to_string()).unwrap(), sized("fresh", 4));
    assert!(files.get(&"gone".to_string()).is_none());
    assert_eq!(files.len(), 2);
}

#[test]
fn update_removes_exactly_the_paths_that_are_absent() {
    let mut files = Files::new(by(SortBy::Alphabetical), true);
    files.update(snapshot(vec![sized("a", 1), sized("b", 1), sized("c", 1)]));
    files.update(snapshot(vec![sized("b", 1), sized("d", 1)]));
    assert_eq!(paths(&files), vec!["b", "d"]);
    files.update(IndexMap::new());
    assert_eq!(files.len(), 0);
}

#[test]
fn update_leaves_hidden_entries_out_unless_shown() {
    let mut files = Files::new(by(SortBy::Alphabetical), false);
    files.update(snapshot(vec![sized("a", 1), hidden(".b"), sized("c", 1)]));
    assert_eq!(paths(&files), vec!["a", "c"]);

    files.set_show_hidden(true);
    assert_eq!(paths(&files), vec!["a", "c"]);
    files.update(snapshot(vec![sized("a", 1), hidden(".b"), sized("c", 1)]));
    assert_eq!(paths(&files), vec![".b", "a", "c"]);
}

#[test]
fn append_does_not_filter_hidden_entries() {
    let mut files = Files::new(by(SortBy::Alphabetical), false);
    files.append(snapshot(vec![hidden(".b"), sized("a", 1)]));
    assert_eq!(paths(&files), vec![".b", "a"]);
}

#[test]
fn append_never_removes_a_path() {
    let mut files = Files::new(by(SortBy::Alphabetical), true);
    files.update(snapshot(vec![sized("a", 1), sized("b", 2)]));
    files.append(snapshot(vec![sized("c", 3)]));
    assert_eq!(paths(&files), vec!["a", "b", "c"]);
    assert_eq!(*files.get(&"a".to_string()).unwrap(), sized("a", 1));
    assert_eq!(*files.get(&"b".to_string()).unwrap(), sized("b", 2));
    files.append(IndexMap::new());
    assert_eq!(paths(&files), vec!["a", "b", "c"]);
}

#[test]
fn append_puts_new_paths_behind_the_old_ones() {
    let mut files = Files::new(by(SortBy::Created), true);
    files.update(snapshot(vec![sized("x", 1), sized("y", 1)]));
    files.append(snapshot(vec![sized("b", 1), sized("x", 9), sized("a", 1)]));
    assert_eq!(paths(&files), vec!["x", "y", "b", "a"]);
    assert_eq!(files.get(&"x".to_string()).unwrap().meta.size, 9);
    assert_eq!(files.get(&"x".to_string()).unwrap().length, Some(1));
}

#[test]
fn sort_by_size_is_stable() {
    let mut files = Files::new(by(SortBy::Created), true);
    files.update(snapshot(vec![sized("x", 5), sized("y", 5), sized("z", 1), sized("w", 5)]));
    assert_eq!(paths(&files), vec!["x", "y", "z", "w"]);
    files.set_sort(by(SortBy::Size));
    assert_eq!(paths(&files), vec!["x", "y", "z", "w"]);
    files.sort();
    assert_eq!(paths(&files), vec!["z", "x", "y", "w"]);
}

#[test]
fn reverse_turns_decided_pairs_and_keeps_ties() {
    let mut files = Files::new(reversed(SortBy::Size), true);
    files.update(snapshot(vec![sized("z", 1), sized("x", 5), sized("y", 5), sized("v", 9)]));
    assert_eq!(paths(&files), vec!["v", "x", "y", "z"]);
}

#[test]
fn size_goes_by_the_cached_length() {
    let mut files = Files::new(by(SortBy::Size), true);
    let mut big = sized("big", 1);
    big.length = Some(100);
    let mut small = sized("small", 4096);
    small.length = Some(7);
    files.update(snapshot(vec![big, small]));
    assert_eq!(paths(&files), vec!["small", "big"]);
}

#[test]
fn a_missing_length_decides_nothing() {
    let mut unknown = sized("x", 4096);
    unknown.length = None;

    let mut files = Files::new(by(SortBy::Size), true);
    files.update(snapshot(vec![sized("y", 5), unknown.clone()]));
    assert_eq!(paths(&files), vec!["y", "x"]);
    files.update(snapshot(vec![unknown.clone(), sized("y", 5)]));
    assert_eq!(paths(&files), vec!["x", "y"]);

    files.set_sort(reversed(SortBy::Size));
    files.update(snapshot(vec![sized("y", 5), unknown.clone(), sized("z", 5)]));
    assert_eq!(paths(&files), vec!["y", "x", "z"]);

    assert_eq!(relate(&unknown, &sized("y", 5), by(SortBy::Size)), Rel::Equal);
    assert_eq!(relate(&sized("y", 5), &unknown, reversed(SortBy::Size)), Rel::Equal);
    assert_eq!(sort_ordering(&unknown, &sized("y", 5), by(SortBy::Size)), Ordering::Equal);
}

#[test]
fn a_missing_length_between_different_ones_keeps_ties_and_neighbours() {
    let mut dir = sized("dir", 4096);
    dir.length = None;
    let mut big = sized("big", 1);
    big.length = Some(100);

    let mut files = Files::new(by(SortBy::Size), true);
    files.update(snapshot(vec![big.clone(), sized("small", 7), dir.clone()]));
    assert_eq!(paths(&files), vec!["small", "big", "dir"]);

    files.update(snapshot(vec![big.clone(), dir.clone(), sized("small", 7)]));
    assert_eq!(paths(&files), vec!["big", "dir", "small"]);

    files.update(snapshot(vec![dir, big, sized("small", 7), sized("tiny", 1)]));
    assert_eq!(paths(&files), vec!["dir", "tiny", "small", "big"]);
}

#[test]
fn measure_of_an_entry() {
    let mut file = stamped("a", Some(-3), None);
    file.length = Some(u64::MAX);
    assert_eq!(measure_of(&file, SortBy::Created), Some(-3));
    assert_eq!(measure_of(&file, SortBy::Modified), None);
    assert_eq!(measure_of(&file, SortBy::Size), Some(u64::MAX as i128));
    assert_eq!(measure_of(&file, SortBy::Alphabetical), None);
    file.length = None;
    assert_eq!(measure_of(&file, SortBy::Size), None);
}

#[test]
fn names_are_ordered_by_their_bytes() {
    let mut files = Files::new(by(SortBy::Alphabetical), true);
    files.update(snapshot(vec![
        named("1", "b"),
        named("2", "a"),
        named("3", "B"),
        named("4", "ab"),
        named("5", ""),
        named("6", "é"),
    ]));
    assert_eq!(paths(&files), vec!["5", "3", "2", "4", "1", "6"]);
    files.set_sort(reversed(SortBy::Alphabetical));
    files.sort();
    assert_eq!(paths(&files), vec!["6", "1", "4", "2", "3", "5"]);
}

#[test]
fn sort_by_timestamps() {
    let mut files = Files::new(by(SortBy::Created), true);
    files.update(snapshot(vec![
        stamped("a", Some(30), Some(1)),
        stamped("b", Some(-10), Some(3)),
        stamped("c", Some(20), Some(2)),
    ]));
    assert_eq!(paths(&files), vec!["b", "c", "a"]);
    files.set_sort(by(SortBy::Modified));
    files.sort();
    assert_eq!(paths(&files), vec!["a", "c", "b"]);
    files.set_sort(reversed(SortBy::Modified));
    files.sort();
    assert_eq!(paths(&files), vec!["b", "c", "a"]);
}

#[test]
fn missing_timestamps_everywhere_leave_the_order() {
    let mut files = Files::new(by(SortBy::Created), true);
    files.update(snapshot(vec![
        stamped("c", None, None),
        stamped("a", None, None),
        stamped("b", None, None),
    ]));
    assert_eq!(paths(&files), vec!["c", "a", "b"]);
}

#[test]
fn one_missing_timestamp_among_equal_ones_leaves_the_order() {
    let mut files = Files::new(by(SortBy::Modified), true);
    files.update(snapshot(vec![
        stamped("c", None, Some(4)),
        stamped("a", None, None),
        stamped("b", None, Some(4)),
    ]));
    assert_eq!(paths(&files), vec!["c", "a", "b"]);
}

#[test]
fn a_missing_timestamp_between_different_ones_keeps_neighbours_in_order() {
    let mut files = Files::new(by(SortBy::Created), true);
    files.update(snapshot(vec![
        stamped("b", None, None),
        stamped("a", Some(2), None),
        stamped("c", Some(1), None),
    ]));
    assert_eq!(paths(&files), vec!["b", "c", "a"]);

    files.update(snapshot(vec![
        stamped("a", Some(2), None),
        stamped("b", None, None),
        stamped("c", Some(1), None),
    ]));
    assert_eq!(paths(&files), vec!["a", "b", "c"]);
}

#[test]
fn from_passes_over_what_could_not_be_read() {
    let items = Files::from(vec![
        ("b".to_string(), Some(sized("b", 2))),
        ("x".to_string(), None),
        ("a".to_string(), Some(sized("a", 1))),
        ("y".to_string(), None),
    ]);
    assert_eq!(items.len(), 2);
    assert_eq!(items.get_index(0), Some((&"b".to_string(), &sized("b", 2))));
    assert_eq!(items.get_index(1), Some((&"a".to_string(), &sized("a", 1))));
    assert!(Files::from(Vec::new()).is_empty());
}

#[test]
fn from_keeps_the_place_of_a_path_probed_twice() {
    let items = Files::from(vec![
        ("a".to_string(), Some(sized("a", 1))),
        ("b".to_string(), Some(sized("b", 2))),
        ("a".to_string(), Some(sized("a", 3))),
    ]);
    assert_eq!(items.len(), 2);
    assert_eq!(items.get_index(0), Some((&"a".to_string(), &sized("a", 3))));
    assert_eq!(items.get_index(1), Some((&"b".to_string(), &sized("b", 2))));
}

#[test]
fn read_tags_the_snapshot_with_the_directory() {
    let op = Files::read(
        "/tmp".to_string(),
        Some(vec![
            ("/tmp/a".to_string(), Some(sized("/tmp/a", 1))),
            ("/tmp/b".to_string(), None),
        ]),
    )
    .unwrap();
    assert_eq!(op.path(), "/tmp");
    match op {
        FilesOp::Update(path, items) => {
            assert_eq!(path, "/tmp");
            assert_eq!(items.len(), 1);
            assert_eq!(items.get("/tmp/a"), Some(&sized("/tmp/a", 1)));
        }
        FilesOp::Append(..) => panic!("a scan replaces the listing"),
    }
}

#[test]
fn read_of_a_directory_that_did_not_open_is_no_change() {
    assert!(Files::read("/nowhere".to_string(), None).is_none());
}

#[test]
fn path_of_either_change() {
    assert_eq!(FilesOp::Update("/a".to_string(), IndexMap::new()).path(), "/a");
    assert_eq!(FilesOp::Append("/b".to_string(), IndexMap::new()).path(), "/b");
}

#[test]
fn relate_decides_by_the_criterion() {
    let small = sized("b", 1);
    let large = sized("a", 2);
    assert_eq!(relate(&small, &large, by(SortBy::Size)), Rel::Less);
    assert_eq!(relate(&large, &small, by(SortBy::Size)), Rel::Greater);
    assert_eq!(relate(&small, &small, by(SortBy::Size)), Rel::Equal);
    assert_eq!(relate(&small, &large, reversed(SortBy::Size)), Rel::Greater);
    assert_eq!(relate(&small, &large, by(SortBy::Alphabetical)), Rel::Greater);
    assert_eq!(relate(&small, &large, reversed(SortBy::Alphabetical)), Rel::Less);
    assert_eq!(relate(&small, &large, by(SortBy::Created)), Rel::Equal);
    assert_eq!(relate(&small, &large, reversed(SortBy::Modified)), Rel::Equal);

    let early = stamped("x", Some(1), None);
    let late = stamped("y", Some(2), Some(0));
    assert_eq!(relate(&early, &late, by(SortBy::Created)), Rel::Less);
    assert_eq!(relate(&early, &late, reversed(SortBy::Created)), Rel::Greater);
    assert_eq!(relate(&early, &late, by(SortBy::Modified)), Rel::Equal);

    assert_eq!(lex_relate(b"", b""), Rel::Equal);
    assert_eq!(lex_relate(b"", b"a"), Rel::Less);
    assert_eq!(lex_relate(b"ab", b"a"), Rel::Greater);
    assert_eq!(lex_relate(b"ab", b"b"), Rel::Less);
    assert_eq!(Rel::Less.flip(), Rel::Greater);
    assert_eq!(Rel::Equal.flip(), Rel::Equal);
}

#[test]
fn sort_ordering_agrees_with_relate() {
    let small = sized("b", 1);
    let large = sized("a", 2);
    assert_eq!(sort_ordering(&small, &large, by(SortBy::Size)), Ordering::Less);
    assert_eq!(sort_ordering(&large, &small, by(SortBy::Size)), Ordering::Greater);
    assert_eq!(sort_ordering(&large, &large, by(SortBy::Size)), Ordering::Equal);
    assert_eq!(sort_ordering(&small, &large, reversed(SortBy::Size)), Ordering::Greater);
}

#[test]
fn hidden_entries_are_not_visible() {
    assert!(sized("a", 1).is_visible());
    assert!(!hidden(".a").is_visible());
}
