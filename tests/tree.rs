use dredge::fstree::{compare_names, Contents, FSTree, Listing};
use dredge::os::{size, FileKind, Metadata, DEVICE_BLOCKSIZE};

fn md(kind: FileKind, blocks: u64) -> Metadata {
    Metadata { kind, blocks }
}

fn file(path: &str, blocks: u64) -> FSTree {
    FSTree::from_dir_entry(path.to_string(), Some(md(FileKind::File, blocks)), None, None)
}

fn dir(path: &str, entries: Vec<(&str, FSTree)>) -> FSTree {
    let entries = entries.into_iter().map(|(n, t)| (n.to_string(), t)).collect();
    let contents = Contents::from_entries(entries);
    FSTree::from_dir_entry(path.to_string(), Some(md(FileKind::Directory, 8)), Some(contents), None)
}

fn root(path: &str, entries: Vec<(&str, FSTree)>) -> FSTree {
    let entries = entries.into_iter().map(|(n, t)| (n.to_string(), t)).collect();
    FSTree::from_dir(path.to_string(), Some(Contents::from_entries(entries))).unwrap()
}

fn names(p: &[&str]) -> Vec<String> {
    p.iter().map(|s| s.to_string()).collect()
}

fn size_at(t: &FSTree, p: &[&str]) -> Option<u64> {
    t.entries(&names(p)).and_then(|e| e.size())
}

/// Checks that every directory's total is the sum of its children's sizes.
fn check_totals(t: &FSTree) {
    if let Some(c) = t.contents() {
        let mut sum = 0u64;
        for (_, child) in &c.0 {
            sum += child.size().unwrap_or(0);
            check_totals(child);
        }
        assert_eq!(t.size(), Some(sum));
    }
}

/// root/
///   x/
///     y/
///       z/
///         leaf (30 blocks)
///         other (7 blocks)
///       side (11 blocks)
///   w (5 blocks)
fn nested() -> FSTree {
    root(
        "root",
        vec![
            (
                "x",
                dir(
                    "root/x",
                    vec![(
                        "y",
                        dir(
                            "root/x/y",
                            vec![
                                (
                                    "z",
                                    dir(
                                        "root/x/y/z",
                                        vec![
                                            ("leaf", file("root/x/y/z/leaf", 30)),
                                            ("other", file("root/x/y/z/other", 7)),
                                        ],
                                    ),
                                ),
                                ("side", file("root/x/y/side", 11)),
                            ],
                        ),
                    )],
                ),
            ),
            ("w", file("root/w", 5)),
        ],
    )
}

#[test]
fn it_works() {
    assert!(true);
}

#[test]
fn block_size_accounting() {
    assert_eq!(size(&md(FileKind::File, 3)), 3 * 512);
    assert_eq!(DEVICE_BLOCKSIZE, 512);
    assert_eq!(file("f", 4).size(), Some(2048));
    assert_eq!(file("f", 0).size(), Some(0));
}

#[test]
fn totals_are_sums_after_build_and_deletes() {
    let mut t = nested();
    check_totals(&t);
    assert_eq!(t.size(), Some((30 + 7 + 11 + 5) * 512));
    assert_eq!(t.delete_path(&names(&["x", "y", "side"])), Some((30 + 7 + 5) * 512));
    check_totals(&t);
    assert_eq!(t.delete_path(&names(&["x", "y", "z"])), Some(5 * 512));
    check_totals(&t);
    assert_eq!(t.delete_path(&names(&["w"])), Some(0));
    check_totals(&t);
    assert_eq!(t.is_empty(), Some(false));
}

#[test]
fn delete_propagates_size_to_every_ancestor() {
    let mut t = nested();
    let s = 30 * 512;
    let before: Vec<Option<u64>> = [&[][..], &["x"][..], &["x", "y"][..], &["x", "y", "z"][..]]
        .iter()
        .map(|p| size_at(&t, p))
        .collect();
    let side = size_at(&t, &["x", "y", "side"]);
    let other = size_at(&t, &["x", "y", "z", "other"]);
    let w = size_at(&t, &["w"]);
    let r = t.delete_path(&names(&["x", "y", "z", "leaf"]));
    assert_eq!(r, Some(before[0].unwrap() - s));
    let after: Vec<Option<u64>> = [&[][..], &["x"][..], &["x", "y"][..], &["x", "y", "z"][..]]
        .iter()
        .map(|p| size_at(&t, p))
        .collect();
    for (b, a) in before.iter().zip(after.iter()) {
        assert_eq!(a.unwrap(), b.unwrap() - s);
    }
    assert!(t.entries(&names(&["x", "y", "z", "leaf"])).is_none());
    assert_eq!(size_at(&t, &["x", "y", "side"]), side);
    assert_eq!(size_at(&t, &["x", "y", "z", "other"]), other);
    assert_eq!(size_at(&t, &["w"]), w);
}

#[test]
fn delete_of_absent_path_changes_nothing() {
    let mut t = nested();
    let sizes = |t: &FSTree| -> Vec<Option<u64>> {
        [&[][..], &["x"][..], &["x", "y"][..], &["x", "y", "z"][..], &["w"][..]]
            .iter()
            .map(|p| size_at(t, p))
            .collect()
    };
    let before = sizes(&t);
    assert_eq!(t.delete_path(&names(&["x", "nope"])), None);
    assert_eq!(t.delete_path(&names(&["nope"])), None);
    assert_eq!(t.delete_path(&names(&["x", "y", "z", "leaf", "deeper"])), None);
    assert_eq!(t.delete_path(&names(&["w", "inside"])), None);
    assert_eq!(sizes(&t), before);
    check_totals(&t);
}

#[test]
fn delete_of_unreadable_entry_is_refused() {
    let mut t = root("r", vec![("bad", FSTree::Bad), ("f", file("r/f", 2))]);
    assert_eq!(t.delete_path(&names(&["bad"])), None);
    assert!(t.entry(&"bad".to_string()).is_some());
    assert_eq!(t.size(), Some(1024));
}

#[test]
fn listing_is_in_name_order_and_separates_files_from_empty_dirs() {
    let link = FSTree::from_dir_entry(
        "r/l".to_string(),
        Some(md(FileKind::Symlink, 0)),
        None,
        Some("target/path".to_string()),
    );
    let t = root(
        "r",
        vec![
            ("c", file("r/c", 1)),
            ("a", dir("r/a", vec![])),
            ("l", link),
            ("bad", FSTree::Bad),
        ],
    );
    let rows: Vec<Listing> = t.list().unwrap();
    assert_eq!(
        rows,
        vec![
            ("a".to_string(), 0, true, None),
            ("bad".to_string(), 0, false, None),
            ("c".to_string(), 512, false, None),
            ("l".to_string(), 0, false, Some("target/path".to_string())),
        ]
    );
    let empty = t.entry(&"a".to_string()).unwrap();
    assert_eq!(empty.list(), Some(vec![]));
    assert_eq!(empty.is_empty(), Some(true));
    let f = t.entry(&"c".to_string()).unwrap();
    assert_eq!(f.list(), None);
    assert_eq!(f.is_empty(), None);
    assert!(f.entry(&"x".to_string()).is_none());
}

#[test]
fn later_entry_of_the_same_name_wins() {
    let c = Contents::from_entries(vec![
        ("b".to_string(), file("1", 1)),
        ("a".to_string(), file("2", 2)),
        ("b".to_string(), file("3", 3)),
    ]);
    assert_eq!(c.0.len(), 2);
    assert_eq!(c.0[0].0, "a");
    assert_eq!(c.0[1].0, "b");
    assert_eq!(c.0[1].1.path(), Some(&"3".to_string()));
    assert_eq!(c.size(), Some(5 * 512));
    assert_eq!(c.position(&"b".to_string()), Some(1));
    assert_eq!(c.position(&"z".to_string()), None);
}

#[test]
fn names_compare_by_bytes() {
    let s = |x: &str| x.to_string();
    assert_eq!(compare_names(&s("a"), &s("b")), -1);
    assert_eq!(compare_names(&s("b"), &s("a")), 1);
    assert_eq!(compare_names(&s("ab"), &s("ab")), 0);
    assert_eq!(compare_names(&s("ab"), &s("abc")), -1);
    assert_eq!(compare_names(&s(""), &s("a")), -1);
    assert_eq!(compare_names(&s("Z"), &s("a")), -1);
    assert_eq!(compare_names(&s("é"), &s("z")), 1);
}

#[test]
fn classification_of_objects() {
    assert!(FSTree::from_dir_entry("p".to_string(), None, None, None).is_bad());
    assert!(FSTree::from_dir_entry("p".to_string(), Some(md(FileKind::Other, 1)), None, None).is_bad());
    assert!(FSTree::from_dir_entry("p".to_string(), Some(md(FileKind::Directory, 1)), None, None).is_bad());
    assert!(FSTree::from_dir_entry("p".to_string(), Some(md(FileKind::Symlink, 1)), None, None).is_bad());
    assert!(FSTree::from_dir_entry("p".to_string(), Some(md(FileKind::File, u64::MAX)), None, None).is_bad());
    let d = dir("p", vec![("f", file("p/f", 1))]);
    assert!(d.is_dir());
    assert_eq!(d.size(), Some(512));
    assert_eq!(d.path(), Some(&"p".to_string()));
    assert_eq!(FSTree::Bad.size(), None);
    assert_eq!(FSTree::Bad.path(), None);
    assert!(FSTree::from_dir("r".to_string(), None).is_none());
}

#[test]
fn aggregate_beyond_64_bits_is_not_representable() {
    let big = u64::MAX / 512;
    let entries = vec![
        ("a".to_string(), file("a", big)),
        ("b".to_string(), file("b", big)),
    ];
    let c = Contents::from_entries(entries);
    assert_eq!(c.size(), None);
    assert!(FSTree::from_dir("r".to_string(), Some(c)).is_none());
}

#[test]
fn removal_kinds() {
    let t = root("r", vec![("d", dir("r/d", vec![])), ("f", file("r/f", 1))]);
    let d = t.entry(&"d".to_string()).unwrap().removal().unwrap();
    assert_eq!(d.path, "r/d");
    assert!(d.recursive);
    let f = t.entry(&"f".to_string()).unwrap().removal().unwrap();
    assert_eq!(f.path, "r/f");
    assert!(!f.recursive);
    assert!(t.removal().is_none());
    assert!(FSTree::Bad.removal().is_none());
}

#[test]
fn entry_mut_changes_the_child_in_place() {
    let mut t = root("r", vec![("d", dir("r/d", vec![])), ("f", file("r/f", 1))]);
    assert!(t.entry_mut(&"nope".to_string()).is_none());
    let d = t.entry_mut(&"d".to_string()).unwrap();
    assert!(d.is_dir());
    *d = FSTree::Bad;
    assert!(t.entry(&"d".to_string()).unwrap().is_bad());
    assert_eq!(t.size(), Some(512));
    let mut f = file("f", 1);
    assert!(f.entry_mut(&"x".to_string()).is_none());
}

#[test]
fn insert_keeps_name_order_and_replaces_same_name() {
    let mut c = Contents::from_entries(vec![]);
    c.insert("m".to_string(), file("m1", 1));
    c.insert("b".to_string(), file("b", 2));
    c.insert("z".to_string(), file("z", 3));
    c.insert("m".to_string(), file("m2", 4));
    let names: Vec<&str> = c.0.iter().map(|(n, _)| n.as_str()).collect();
    assert_eq!(names, vec!["b", "m", "z"]);
    assert_eq!(c.0[1].1.path(), Some(&"m2".to_string()));
    assert_eq!(c.size(), Some((2 + 3 + 4) * 512));
}

#[test]
fn symlink_is_sized_by_its_own_blocks() {
    let link = FSTree::from_dir_entry(
        "r/l".to_string(),
        Some(md(FileKind::Symlink, 2)),
        None,
        Some("/elsewhere".to_string()),
    );
    assert_eq!(link.size(), Some(1024));
    assert!(!link.is_dir());
    assert_eq!(link.list(), None);
    let t = root("r", vec![("l", link)]);
    assert_eq!(t.size(), Some(1024));
}

#[test]
fn root_total_is_sum_of_children() {
    let t = root("top", vec![("a", file("top/a", 2)), ("b", dir("top/b", vec![("c", file("top/b/c", 6))]))]);
    assert_eq!(t.size(), Some(8 * 512));
    assert_eq!(t.path(), Some(&"top".to_string()));
    assert!(!t.is_dir());
    assert_eq!(size_at(&t, &["b"]), Some(6 * 512));
    assert_eq!(size_at(&t, &["b", "c"]), Some(6 * 512));
    assert_eq!(size_at(&t, &["b", "x"]), None);
    assert!(t.entries(&[]).is_some());
}
