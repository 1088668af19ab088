use dredge::fstree::{Contents, FSTree};
use dredge::os::{FileKind, Metadata};
use dredge::ui::{sort_listing, Action, Key, UI};

fn file(path: &str, blocks: u64) -> FSTree {
    let md = Metadata { kind: FileKind::File, blocks };
    FSTree::from_dir_entry(path.to_string(), Some(md), None, None)
}

fn dir(path: &str, entries: Vec<(&str, FSTree)>) -> FSTree {
    let entries = entries.into_iter().map(|(n, t)| (n.to_string(), t)).collect();
    let md = Metadata { kind: FileKind::Directory, blocks: 8 };
    FSTree::from_dir_entry(path.to_string(), Some(md), Some(Contents::from_entries(entries)), None)
}

fn root(path: &str, entries: Vec<(&str, FSTree)>) -> FSTree {
    let entries = entries.into_iter().map(|(n, t)| (n.to_string(), t)).collect();
    FSTree::from_dir(path.to_string(), Some(Contents::from_entries(entries))).unwrap()
}

fn row(name: &str, size: u64, is_dir: bool) -> (String, u64, bool, Option<String>) {
    (name.to_string(), size, is_dir, None)
}

/// Root holds `a/` (one file of 1000 blocks) and `b` (a file of 500 blocks).
fn scenario() -> UI {
    let t = root(
        "root",
        vec![
            ("a", dir("root/a", vec![("f", file("root/a/f", 1000))])),
            ("b", file("root/b", 500)),
        ],
    );
    UI::new(t)
}

fn five_files() -> UI {
    let t = root(
        "r",
        vec![
            ("a", file("r/a", 5)),
            ("b", file("r/b", 4)),
            ("c", file("r/c", 3)),
            ("d", file("r/d", 2)),
            ("e", file("r/e", 1)),
        ],
    );
    UI::new(t)
}

#[test]
fn end_to_end_descend_delete_ascend() {
    let u = 512;
    let mut ui = scenario();
    assert_eq!(ui.fst.size(), Some(1500 * u));
    assert_eq!(ui.listing, vec![row("a", 1000 * u, true), row("b", 500 * u, false)]);
    assert_eq!(*ui.selected(), Some(0));

    assert!(matches!(ui.event(Key::Char('l'), 10), Action::Continue));
    assert_eq!(ui.stack, vec!["a".to_string()]);
    assert_eq!(ui.listing, vec![row("f", 1000 * u, false)]);
    assert_eq!(*ui.selected(), Some(0));

    let req = match ui.event(Key::Char('d'), 10) {
        Action::ConfirmDelete(r) => r,
        _ => panic!("a removal is requested"),
    };
    assert_eq!(req.path, "root/a/f");
    assert!(!req.recursive);
    ui.finish_delete(true);
    assert_eq!(ui.listing, vec![]);
    assert_eq!(*ui.selected(), None);
    assert_eq!(ui.fst.entry(&"a".to_string()).unwrap().size(), Some(0));
    assert_eq!(ui.fst.size(), Some(500 * u));

    assert!(matches!(ui.event(Key::Char('h'), 10), Action::Continue));
    assert!(ui.stack.is_empty());
    assert_eq!(ui.listing, vec![row("b", 500 * u, false), row("a", 0, true)]);
    assert_eq!(*ui.selected(), Some(0));
}

#[test]
fn selection_is_clamped_after_deleting_the_last_row() {
    let mut ui = five_files();
    assert_eq!(ui.listing.len(), 5);
    ui.scroll(4);
    assert_eq!(*ui.selected(), Some(4));
    assert_eq!(ui.listing[4].0, "e");
    assert!(ui.delete_request().is_some());
    ui.finish_delete(true);
    assert_eq!(ui.listing.len(), 4);
    assert_eq!(*ui.selected(), Some(3));
}

#[test]
fn reload_twice_changes_nothing() {
    let mut ui = five_files();
    ui.scroll(2);
    ui.align_viewport(2);
    ui.load();
    let listing = ui.listing.clone();
    let selected = ui.selected.clone();
    let top = ui.window_top;
    ui.load();
    assert_eq!(ui.listing, listing);
    assert_eq!(ui.selected, selected);
    assert_eq!(ui.window_top, top);
}

#[test]
fn declined_removal_keeps_everything() {
    let mut ui = five_files();
    let before = ui.listing.clone();
    ui.finish_delete(false);
    assert_eq!(ui.listing, before);
    assert_eq!(ui.fst.size(), Some(15 * 512));
}

#[test]
fn scrolling_is_clamped_to_the_listing() {
    let mut ui = five_files();
    ui.scroll(-3);
    assert_eq!(*ui.selected(), Some(0));
    ui.scroll(2);
    assert_eq!(*ui.selected(), Some(2));
    ui.scroll(100);
    assert_eq!(*ui.selected(), Some(4));
    ui.event(Key::PageUp, 3);
    assert_eq!(*ui.selected(), Some(1));
    ui.event(Key::Char('j'), 3);
    assert_eq!(*ui.selected(), Some(2));
    ui.event(Key::Char('k'), 3);
    assert_eq!(*ui.selected(), Some(1));
    ui.event(Key::PageDown, usize::MAX);
    assert_eq!(*ui.selected(), Some(4));
    ui.scroll(i64::MIN);
    assert_eq!(*ui.selected(), Some(0));
}

#[test]
fn viewport_follows_the_selection() {
    let mut ui = five_files();
    ui.scroll(4);
    ui.align_viewport(2);
    assert_eq!(ui.window_top, 3);
    assert_eq!(ui.visible_range(2), (3, 5));
    ui.scroll(-4);
    ui.align_viewport(2);
    assert_eq!(ui.window_top, 0);
    assert_eq!(ui.visible_range(2), (0, 2));
    assert_eq!(ui.visible_range(10), (0, 5));
    ui.scroll(1);
    ui.align_viewport(2);
    assert_eq!(ui.window_top, 0);
}

#[test]
fn keys_that_do_nothing() {
    let mut ui = five_files();
    assert!(matches!(ui.event(Key::Char('q'), 5), Action::Quit));
    assert!(matches!(ui.event(Key::Char('x'), 5), Action::Continue));
    assert!(matches!(ui.event(Key::Other, 5), Action::Continue));
    // `l` on a file and `h` at the root change nothing.
    ui.event(Key::Char('l'), 5);
    assert!(ui.stack.is_empty());
    ui.event(Key::Char('h'), 5);
    assert!(ui.stack.is_empty());
    assert_eq!(*ui.selected(), Some(0));
}

#[test]
fn level_keeps_its_selection_when_returned_to() {
    let t = root(
        "r",
        vec![
            ("big", file("r/big", 100)),
            ("d", dir("r/d", vec![("x", file("r/d/x", 3)), ("y", file("r/d/y", 2))])),
            ("e", dir("r/e", vec![])),
        ],
    );
    let mut ui = UI::new(t);
    ui.scroll(1);
    assert_eq!(ui.listing[1].0, "d");
    ui.descend();
    ui.scroll(1);
    assert_eq!(*ui.selected(), Some(1));
    assert_eq!(ui.status(), ("r".to_string(), 105 * 512, Some(("r/d".to_string(), 5 * 512))));
    ui.ascend();
    assert_eq!(*ui.selected(), Some(1));
    assert_eq!(ui.status(), ("r".to_string(), 105 * 512, None));
    ui.scroll(1);
    ui.descend();
    assert_eq!(ui.stack, vec!["e".to_string()]);
    assert_eq!(*ui.selected(), None);
    assert!(ui.delete_request().is_none());
}

#[test]
fn unreadable_rows_cannot_be_removed() {
    let t = root("r", vec![("bad", FSTree::Bad)]);
    let mut ui = UI::new(t);
    assert!(ui.delete_request().is_none());
    assert!(matches!(ui.event(Key::Char('d'), 5), Action::Continue));
    ui.finish_delete(true);
    assert_eq!(ui.listing.len(), 1);
}

#[test]
fn deleting_a_directory_requests_recursive_removal() {
    let t = root("r", vec![("d", dir("r/d", vec![("x", file("r/d/x", 3))]))]);
    let mut ui = UI::new(t);
    let req = ui.delete_request().unwrap();
    assert_eq!(req.path, "r/d");
    assert!(req.recursive);
    ui.finish_delete(true);
    assert!(ui.listing.is_empty());
    assert_eq!(ui.fst.size(), Some(0));
}

#[test]
fn equal_sizes_show_the_later_name_first() {
    let rows = vec![row("a", 7, false), row("b", 9, true), row("c", 7, false)];
    assert_eq!(sort_listing(rows), vec![row("b", 9, true), row("c", 7, false), row("a", 7, false)]);
}
