use vstd::prelude::*;
use crate::fstree::{bytes_lt, lemma_bytes_lt_irreflexive, lemma_bytes_lt_transitive, name_bytes};
use crate::fstree::{
    lemma_child_named_at, lemma_lookup_push, lemma_delete_propagates, listing_of, sorted_names,
    FSTree, Listing, Removal,
};

verus! {

broadcast use {
    vstd::seq_lib::to_multiset_build,
    vstd::seq_lib::to_multiset_insert,
    vstd::seq_lib::to_multiset_remove,
    vstd::seq_lib::to_multiset_contains,
};

// ---------------------------------------------------------------------------
// Order of the rows on screen

/// Row `x` is shown above row `y`: the larger first, and of two equal sizes
/// the one whose name sorts later.
pub open spec fn row_before(x: Listing, y: Listing) -> bool {
    ||| x.1 > y.1
    ||| x.1 == y.1 && bytes_lt(name_bytes(y.0), name_bytes(x.0))
}

/// Every row is shown above all rows after it.
pub open spec fn rows_sorted(s: Seq<Listing>) -> bool {
    forall|i: int, j: int| 0 <= i < j < s.len() ==> row_before(#[trigger] s[i], #[trigger] s[j])
}

/// Names in strictly ascending byte order.
pub open spec fn names_ascending(s: Seq<Listing>) -> bool {
    forall|i: int, j: int|
        0 <= i < j < s.len() ==> bytes_lt(name_bytes(#[trigger] s[i].0), name_bytes(#[trigger] s[j].0))
}

pub proof fn lemma_row_before_asymmetric(x: Listing, y: Listing)
    requires
        row_before(x, y),
    ensures
        !row_before(y, x),
{
    if x.1 == y.1 && bytes_lt(name_bytes(x.0), name_bytes(y.0)) {
        lemma_bytes_lt_transitive(name_bytes(y.0), name_bytes(x.0), name_bytes(y.0));
        lemma_bytes_lt_irreflexive(name_bytes(y.0));
    }
}

/// Orders rows given in ascending name order for display: largest first,
/// and of equal sizes the later name first.
pub fn sort_listing(rows: Vec<Listing>) -> (r: Vec<Listing>)
    requires
        names_ascending(rows@),
    ensures
        rows_sorted(r@),
        r@.to_multiset() == rows@.to_multiset(),
{
    let ghost all = rows@;
    let mut out: Vec<Listing> = Vec::new();
    for x in it: rows.into_iter()
        invariant
            it.seq() == all,
            names_ascending(all),
            rows_sorted(out@),
            out@.to_multiset() == all.take(it.index() as int).to_multiset(),
            forall|j: int, m: int|
                0 <= j < out@.len() && it.index() <= m < all.len() ==> bytes_lt(
                    name_bytes(#[trigger] out@[j].0),
                    name_bytes(#[trigger] all[m].0),
                ),
    {
        let ghost n = it.index() as int;
        proof {
            assert(x == all[n]);
        }
        let mut p: usize = 0;
        while p < out.len() && out[p].1 > x.1
            invariant
                0 <= p <= out@.len(),
                forall|j: int| 0 <= j < p ==> (#[trigger] out@[j]).1 > x.1,
            decreases out@.len() - p,
        {
            p = p + 1;
        }
        let ghost o0 = out@;
        out.insert(p, x);
        proof {
            let o1 = o0.insert(p as int, x);
            assert(out@ == o1);
            assert forall|a: int, b: int| 0 <= a < b < o1.len() implies row_before(
                #[trigger] o1[a],
                #[trigger] o1[b],
            ) by {
                if a < p && b < p {
                    assert(o1[a] == o0[a] && o1[b] == o0[b]);
                } else if a < p && b == p {
                    assert(o1[a] == o0[a]);
                } else if a < p {
                    assert(o1[a] == o0[a] && o1[b] == o0[b - 1]);
                } else if a == p {
                    assert(o1[b] == o0[b - 1]);
                    assert(o0[p as int].1 <= x.1);
                    if b - 1 > p {
                        assert(row_before(o0[p as int], o0[b - 1]));
                    }
                    assert(bytes_lt(name_bytes(o0[b - 1].0), name_bytes(all[n].0)));
                } else {
                    assert(o1[a] == o0[a - 1] && o1[b] == o0[b - 1]);
                }
            }
            assert(all.take(n + 1) =~= all.take(n).push(all[n]));
            assert forall|j: int, m: int|
                0 <= j < o1.len() && n + 1 <= m < all.len() implies bytes_lt(
                name_bytes(#[trigger] o1[j].0),
                name_bytes(#[trigger] all[m].0),
            ) by {
                if j < p {
                    assert(o1[j] == o0[j]);
                } else if j > p {
                    assert(o1[j] == o0[j - 1]);
                }
            }
        }
    }
    proof {
        assert(all.take(all.len() as int) =~= all);
    }
    out
}

/// Two orderings of the same rows for display are the same sequence.
pub proof fn lemma_sorted_rows_unique(a: Seq<Listing>, b: Seq<Listing>)
    requires
        rows_sorted(a),
        rows_sorted(b),
        a.to_multiset() == b.to_multiset(),
    ensures
        a == b,
    decreases a.len(),
{
    vstd::seq_lib::to_multiset_len(a);
    vstd::seq_lib::to_multiset_len(b);
    if a.len() == 0 {
        assert(a =~= b);
    } else {
        assert(a.to_multiset().count(a[0]) > 0) by {
            assert(a.contains(a[0]));
        }
        assert(b.to_multiset().count(b[0]) > 0) by {
            assert(b.contains(b[0]));
        }
        assert(b.contains(a[0]));
        assert(a.contains(b[0]));
        let j = choose|j: int| 0 <= j < b.len() && b[j] == a[0];
        let i = choose|i: int| 0 <= i < a.len() && a[i] == b[0];
        if a[0] != b[0] {
            assert(j > 0 && i > 0);
            assert(row_before(b[0], a[0]));
            assert(row_before(a[0], b[0]));
            lemma_row_before_asymmetric(a[0], b[0]);
        }
        assert(a.remove(0) =~= a.drop_first());
        assert(b.remove(0) =~= b.drop_first());
        assert(rows_sorted(a.drop_first())) by {
            assert forall|x: int, y: int| 0 <= x < y < a.drop_first().len() implies row_before(
                #[trigger] a.drop_first()[x],
                #[trigger] a.drop_first()[y],
            ) by {
                assert(a.drop_first()[x] == a[x + 1] && a.drop_first()[y] == a[y + 1]);
            }
        }
        assert(rows_sorted(b.drop_first())) by {
            assert forall|x: int, y: int| 0 <= x < y < b.drop_first().len() implies row_before(
                #[trigger] b.drop_first()[x],
                #[trigger] b.drop_first()[y],
            ) by {
                assert(b.drop_first()[x] == b[x + 1] && b.drop_first()[y] == b[y + 1]);
            }
        }
        lemma_sorted_rows_unique(a.drop_first(), b.drop_first());
        assert(a =~= seq![a[0]] + a.drop_first());
        assert(b =~= seq![b[0]] + b.drop_first());
    }
}

// ---------------------------------------------------------------------------
// The navigator

/// The selection a level gets on reload, from the one it had and the
/// length of its new listing: the first row on a first visit, the same row
/// if it is still there, else the last row; none if there are no rows.
pub open spec fn reload_selection(prior: Option<usize>, n: nat) -> Option<usize> {
    if n == 0 {
        None
    } else {
        match prior {
            None => Some(0),
            Some(p) => Some(
                if p < n {
                    p
                } else {
                    (n - 1) as usize
                },
            ),
        }
    }
}

/// The row a selection moves to by `distance` rows in a listing of `len`
/// rows: clamped to the listing.
pub open spec fn scrolled(sel: usize, len: nat, distance: int) -> usize {
    if sel + distance < 0 {
        0
    } else if sel + distance > len - 1 {
        (len - 1) as usize
    } else {
        (sel + distance) as usize
    }
}

/// The first row shown after the selection at `sel` is brought into a view
/// of `height` rows that started at `top`.
pub open spec fn aligned(top: usize, sel: usize, height: usize) -> usize {
    if sel < top {
        sel
    } else if sel >= top + height {
        (sel - height + 1) as usize
    } else {
        top
    }
}

/// A key as the display reports it.
#[derive(Clone, Copy, Debug, PartialEq, Eq, Structural)]
pub enum Key {
    Char(char),
    PageUp,
    PageDown,
    Other,
}

/// What the driver does after a key.
pub enum Action {
    Continue,
    Quit,
    /// Ask the user, and on a yes perform the removal and report the
    /// outcome through `finish_delete`.
    ConfirmDelete(Removal),
}

/// The path of a node; none for an unreadable one.
pub open spec fn path_of(t: FSTree) -> Option<String> {
    match t {
        FSTree::Root { path, .. } => Some(path),
        FSTree::Dir { path, .. } => Some(path),
        FSTree::File { path, .. } => Some(path),
        FSTree::Symlink { path, .. } => Some(path),
        FSTree::Bad => None,
    }
}

/// The distance a page key moves: the display's height.
pub open spec fn page(height: usize) -> i64 {
    if height <= i64::MAX as usize {
        height as i64
    } else {
        i64::MAX
    }
}

fn page_distance(height: usize) -> (r: i64)
    ensures
        r == page(height),
        r >= 0,
{
    if height <= i64::MAX as usize {
        height as i64
    } else {
        i64::MAX
    }
}

/// The navigator over a tree: the path of the directory in view, one
/// remembered selection per level, the listing in view and the first row
/// shown.
pub struct UI {
    pub fst: FSTree,
    /// Names from the root down to the directory in view.
    pub stack: Vec<String>,
    /// The rows of the directory in view, as shown.
    pub listing: Vec<Listing>,
    /// The remembered selection of each level, the root's first.
    pub selected: Vec<Option<usize>>,
    /// The first row shown.
    pub window_top: usize,
}

impl UI {
    /// The directory in view.
    pub open spec fn current(self) -> FSTree {
        self.fst.lookup(self.stack@)->0
    }

    /// The rows of the directory in view, in name order.
    pub open spec fn rows(self) -> Seq<Listing> {
        self.current().children().map_values(|c: (String, FSTree)| listing_of(c))
    }

    /// The selection of the level in view.
    pub open spec fn selection(self) -> Option<usize> {
        self.selected@.last()
    }

    /// The tree is whole, the path names a directory in it, and every level
    /// has a remembered selection.
    pub open spec fn position_wf(self) -> bool {
        &&& self.fst.wf()
        &&& self.fst is Root
        &&& self.fst.lookup(self.stack@) matches Some(d) && d.has_contents()
        &&& self.selected@.len() == self.stack@.len() + 1
    }

    /// Besides, the listing shows the rows of the directory in view, and the
    /// selection is one of them.
    pub open spec fn wf(self) -> bool {
        &&& self.position_wf()
        &&& rows_sorted(self.listing@)
        &&& self.listing@.to_multiset() == self.rows().to_multiset()
        &&& match self.selection() {
            Some(i) => i < self.listing@.len(),
            None => self.listing@.len() == 0,
        }
    }

    /// `new` is `old` with its listing recomputed and the selection of the
    /// level in view fitted to it; the rest is unchanged.
    pub open spec fn reloaded(old: UI, new: UI) -> bool {
        &&& new.wf()
        &&& new.fst == old.fst
        &&& new.stack@ == old.stack@
        &&& new.window_top == old.window_top
        &&& new.selected@ == old.selected@.update(
            old.selected@.len() - 1,
            reload_selection(old.selection(), new.listing@.len()),
        )
    }

    /// The path of the selected row's object.
    pub open spec fn selected_path(self) -> Seq<String> {
        self.stack@.push(self.listing@[self.selection()->0 as int].0)
    }

    /// How the selected row's object is removed, where it can be.
    pub open spec fn delete_request_spec(self) -> Option<Removal> {
        match self.selection() {
            Some(pos) => self.fst.lookup(self.selected_path())->0.spec_removal(),
            None => None,
        }
    }

    /// `new` is `old` with its selection moved by `distance` rows.
    pub open spec fn scrolled_by(old: UI, new: UI, distance: int) -> bool {
        &&& new.fst == old.fst
        &&& new.stack@ == old.stack@
        &&& new.listing@ == old.listing@
        &&& new.window_top == old.window_top
        &&& new.selected@ == match old.selection() {
            Some(s) => old.selected@.update(
                old.selected@.len() - 1,
                Some(scrolled(s, old.listing@.len(), distance)),
            ),
            None => old.selected@,
        }
    }

    /// `new` is `old` after the command to enter the selected row: where it
    /// is a directory, its name is pushed, with a fresh selection, and the
    /// listing reloaded; else nothing changes.
    pub open spec fn entered(old: UI, new: UI) -> bool {
        match old.selection() {
            Some(pos) if old.listing@[pos as int].2 => {
                &&& new.wf()
                &&& new.fst == old.fst
                &&& new.stack@ == old.stack@.push(old.listing@[pos as int].0)
                &&& new.window_top == old.window_top
                &&& new.selected@ == old.selected@.push(reload_selection(None, new.listing@.len()))
            },
            _ => new == old,
        }
    }

    /// `new` is `old` after the command to go up a level: the last name and
    /// its selection are dropped and the listing reloaded, the level returned
    /// to keeping the selection it had; at the root nothing changes.
    pub open spec fn left(old: UI, new: UI) -> bool {
        if old.stack@.len() > 0 {
            let sel = old.selected@.drop_last();
            &&& new.wf()
            &&& new.fst == old.fst
            &&& new.stack@ == old.stack@.drop_last()
            &&& new.window_top == old.window_top
            &&& new.selected@ == sel.update(
                sel.len() - 1,
                reload_selection(sel.last(), new.listing@.len()),
            )
        } else {
            new == old
        }
    }

    /// `new` is `old` once a confirmed removal of the selected row's object
    /// has been performed (`removed`) or not: on success the object leaves
    /// the tree and its size every total above it; then the listing is
    /// reloaded.
    pub open spec fn after_delete(old: UI, new: UI, removed: bool) -> bool {
        let p = old.selected_path();
        &&& new.wf()
        &&& new.stack@ == old.stack@
        &&& new.window_top == old.window_top
        &&& new.selected@ == old.selected@.update(
            old.selected@.len() - 1,
            reload_selection(old.selection(), new.listing@.len()),
        )
        &&& if removed && old.selection() is Some && old.fst.removable(p) {
            old.fst.is_without(new.fst, p, old.fst.lookup(p)->0.size_value())
        } else {
            new.fst == old.fst
        }
    }

    /// A navigator at the root of `fst`.
    pub fn new(fst: FSTree) -> (r: UI)
        requires
            fst.wf(),
            fst is Root,
        ensures
            r.wf(),
            r.fst == fst,
            r.stack@.len() == 0,
            r.window_top == 0,
            r.selected@ == seq![reload_selection(None, r.listing@.len())],
    {
        let mut ui = UI {
            fst,
            stack: Vec::new(),
            listing: Vec::new(),
            selected: vec![None],
            window_top: 0,
        };
        proof {
            assert(ui.fst.lookup(ui.stack@) == Some(ui.fst));
        }
        ui.load();
        ui
    }

    /// Recomputes the listing of the directory in view, largest first, and
    /// fits its selection to it.
    pub fn load(&mut self)
        requires
            old(self).position_wf(),
        ensures
            UI::reloaded(*old(self), *final(self)),
    {
        let rows = match self.fst.entries(self.stack.as_slice()) {
            Some(cur) => match cur.list() {
                Some(rows) => {
                    proof {
                        let c = cur.children();
                        assert(sorted_names(c)) by {
                            match *cur {
                                FSTree::Root { contents, .. } => {},
                                FSTree::Dir { contents, .. } => {},
                                _ => {},
                            }
                        }
                        assert(names_ascending(rows@)) by {
                            assert forall|i: int, j: int| 0 <= i < j < rows@.len() implies bytes_lt(
                                name_bytes(#[trigger] rows@[i].0),
                                name_bytes(#[trigger] rows@[j].0),
                            ) by {
                                assert(rows@[i].0 == c[i].0 && rows@[j].0 == c[j].0);
                            }
                        }
                    }
                    rows
                },
                None => {
                    proof {
                        assert(false);
                    }
                    Vec::new()
                },
            },
            None => {
                proof {
                    assert(false);
                }
                Vec::new()
            },
        };
        let sorted = sort_listing(rows);
        self.listing = sorted;
        let n = self.listing.len();
        proof {
            vstd::seq_lib::to_multiset_len(self.listing@);
            vstd::seq_lib::to_multiset_len(self.rows());
        }
        let last = self.selected.len() - 1;
        let new_sel = if n == 0 {
            None
        } else {
            match self.selected[last] {
                None => Some(0),
                Some(p) => Some(
                    if p < n {
                        p
                    } else {
                        n - 1
                    },
                ),
            }
        };
        self.selected.set(last, new_sel);
    }

    /// The selected row names an object of the directory in view, which the
    /// row describes.
    pub proof fn lemma_row_entry(self, pos: int)
        requires
            self.wf(),
            0 <= pos < self.listing@.len(),
        ensures
            self.fst.lookup(self.stack@.push(self.listing@[pos].0)) matches Some(e) && listing_of(
                (self.listing@[pos].0, e),
            ) == self.listing@[pos],
    {
        let row = self.listing@[pos];
        let c = self.current().children();
        assert(self.listing@.to_multiset().count(row) > 0) by {
            assert(self.listing@.contains(row));
        }
        assert(self.rows().contains(row));
        let i = choose|i: int| 0 <= i < self.rows().len() && self.rows()[i] == row;
        assert(self.rows()[i] == listing_of(c[i]));
        assert(sorted_names(c)) by {
            crate::fstree::lemma_totals_are_sums(self.fst, self.stack@);
            match self.current() {
                FSTree::Root { contents, .. } => {},
                FSTree::Dir { contents, .. } => {},
                _ => {},
            }
        }
        lemma_child_named_at(c, i);
        lemma_lookup_push(self.fst, self.stack@, row.0);
    }

    /// Moves the selection by `distance` rows, within the listing.
    pub fn scroll(&mut self, distance: i64)
        requires
            old(self).wf(),
        ensures
            final(self).wf(),
            UI::scrolled_by(*old(self), *final(self), distance as int),
    {
        let last = self.selected.len() - 1;
        match self.selected[last] {
            Some(sel) => {
                let len = self.listing.len();
                let t: i128 = sel as i128 + distance as i128;
                let hi: i128 = (len - 1) as i128;
                let next: usize = if t < 0 {
                    0
                } else if t > hi {
                    len - 1
                } else {
                    t as usize
                };
                self.selected.set(last, Some(next));
            },
            None => {},
        }
    }

    /// Brings the selected row into a view of `height` rows.
    pub fn align_viewport(&mut self, height: usize)
        requires
            old(self).wf(),
        ensures
            final(self).wf(),
            final(self).fst == old(self).fst,
            final(self).stack@ == old(self).stack@,
            final(self).listing@ == old(self).listing@,
            final(self).selected@ == old(self).selected@,
            final(self).window_top == match old(self).selection() {
                Some(s) => aligned(old(self).window_top, s, height),
                None => old(self).window_top,
            },
    {
        let len = self.listing.len();
        if let Some(sel) = *self.selected() {
            if sel < self.window_top {
                self.window_top = sel;
            } else if sel - self.window_top >= height {
                assert(sel < len);
                assert(sel >= height);
                self.window_top = (sel + 1) - height;
            }
        }
    }

    /// The names from the root to `name` in the directory in view.
    fn path_with(&self, name: &String) -> (r: Vec<String>)
        ensures
            r@ == self.stack@.push(*name),
    {
        let mut names: Vec<String> = Vec::new();
        let mut i: usize = 0;
        while i < self.stack.len()
            invariant
                0 <= i <= self.stack@.len(),
                names@ == self.stack@.take(i as int),
            decreases self.stack@.len() - i,
        {
            names.push(self.stack[i].clone());
            proof {
                assert(self.stack@.take(i + 1) =~= self.stack@.take(i as int).push(self.stack@[i as int]));
            }
            i = i + 1;
        }
        names.push(name.clone());
        proof {
            assert(self.stack@.take(i as int) =~= self.stack@);
        }
        names
    }

    /// Enters the selected row where it is a directory.
    pub fn descend(&mut self)
        requires
            old(self).wf(),
        ensures
            UI::entered(*old(self), *final(self)),
    {
        if let Some(pos) = *self.selected() {
            if self.listing[pos].2 {
                proof {
                    self.lemma_row_entry(pos as int);
                }
                let ghost u0 = *self;
                let name = self.listing[pos].0.clone();
                self.stack.push(name);
                self.selected.push(None);
                proof {
                    assert(self.stack@ == u0.stack@.push(u0.listing@[pos as int].0));
                }
                self.load();
                proof {
                    assert(self.selected@ =~= u0.selected@.push(reload_selection(None, self.listing@.len())));
                }
            }
        }
    }

    /// Goes up one level.
    pub fn ascend(&mut self)
        requires
            old(self).wf(),
        ensures
            UI::left(*old(self), *final(self)),
    {
        if self.stack.len() > 0 {
            let ghost s0 = self.stack@;
            proof {
                assert(s0 =~= s0.drop_last().push(s0.last()));
                lemma_lookup_push(self.fst, s0.drop_last(), s0.last());
            }
            self.stack.pop();
            self.selected.pop();
            self.load();
        }
    }

    /// The removal of the selected row's object, for the driver to confirm
    /// and perform; `None` where nothing is selected or the object is not
    /// removable.
    pub fn delete_request(&self) -> (r: Option<Removal>)
        requires
            self.wf(),
        ensures
            r == self.delete_request_spec(),
    {
        match *self.selected() {
            Some(pos) => {
                proof {
                    self.lemma_row_entry(pos as int);
                }
                let names = self.path_with(&self.listing[pos].0);
                match self.fst.entries(names.as_slice()) {
                    Some(e) => e.removal(),
                    None => None,
                }
            },
            None => None,
        }
    }

    /// Takes the outcome of a confirmed removal of the selected row's
    /// object: where it was `removed`, the object leaves the tree. Then the
    /// listing is reloaded.
    pub fn finish_delete(&mut self, removed: bool)
        requires
            old(self).wf(),
        ensures
            UI::after_delete(*old(self), *final(self), removed),
    {
        if removed {
            if let Some(pos) = *self.selected() {
                proof {
                    self.lemma_row_entry(pos as int);
                }
                let names = self.path_with(&self.listing[pos].0);
                let ghost f0 = self.fst;
                let ghost p = names@;
                let r = self.fst.delete_path(names.as_slice());
                proof {
                    if r is Some {
                        let k = self.stack@.len() as int;
                        lemma_delete_propagates(f0, self.fst, p, f0.lookup(p)->0.size_value(), k);
                        assert(p.take(k) =~= self.stack@);
                        lemma_delete_propagates(f0, self.fst, p, f0.lookup(p)->0.size_value(), 0);
                        assert(p.take(0) =~= Seq::<String>::empty());
                    }
                }
            }
        }
        self.load();
    }

    /// Reacts to one key: `q` quits, `j`/`k` move down/up a row, page keys
    /// move by `height` rows, `l` enters the selected directory, `h` goes up,
    /// `d` asks for the removal of the selected object.
    pub fn event(&mut self, key: Key, height: usize) -> (r: Action)
        requires
            old(self).wf(),
        ensures
            final(self).wf(),
            match key {
                Key::Char('q') => r is Quit && *final(self) == *old(self),
                Key::Char('k') => r is Continue && UI::scrolled_by(*old(self), *final(self), -1),
                Key::Char('j') => r is Continue && UI::scrolled_by(*old(self), *final(self), 1),
                Key::PageUp => r is Continue && UI::scrolled_by(
                    *old(self),
                    *final(self),
                    -(page(height) as int),
                ),
                Key::PageDown => r is Continue && UI::scrolled_by(
                    *old(self),
                    *final(self),
                    page(height) as int,
                ),
                Key::Char('l') => r is Continue && UI::entered(*old(self), *final(self)),
                Key::Char('h') => r is Continue && UI::left(*old(self), *final(self)),
                Key::Char('d') => *final(self) == *old(self) && match old(self).delete_request_spec() {
                    Some(req) => r == Action::ConfirmDelete(req),
                    None => r is Continue,
                },
                _ => r is Continue && *final(self) == *old(self),
            },
    {
        match key {
            Key::Char('q') => Action::Quit,
            Key::Char('k') => {
                self.scroll(-1);
                Action::Continue
            },
            Key::Char('j') => {
                self.scroll(1);
                Action::Continue
            },
            Key::PageUp => {
                let d = page_distance(height);
                self.scroll(-d);
                Action::Continue
            },
            Key::PageDown => {
                let d = page_distance(height);
                self.scroll(d);
                Action::Continue
            },
            Key::Char('l') => {
                self.descend();
                Action::Continue
            },
            Key::Char('h') => {
                self.ascend();
                Action::Continue
            },
            Key::Char('d') => match self.delete_request() {
                Some(req) => Action::ConfirmDelete(req),
                None => Action::Continue,
            },
            _ => Action::Continue,
        }
    }

    /// The status line's parts: the root's path and total, and, below the
    /// root, the path and total of the directory in view.
    pub fn status(&self) -> (r: (String, u64, Option<(String, u64)>))
        requires
            self.wf(),
        ensures
            Some(r.0) == path_of(self.fst),
            r.1 == self.fst.size_value(),
            r.2 == if self.stack@.len() == 0 {
                None
            } else {
                Some((path_of(self.current())->0, self.current().size_value() as u64))
            },
    {
        let root_path = match self.fst.path() {
            Some(p) => p.clone(),
            None => String::new(),
        };
        let root_size = match self.fst.size() {
            Some(s) => s,
            None => 0,
        };
        if self.stack.len() == 0 {
            return (root_path, root_size, None);
        }
        let cur = match self.fst.entries(self.stack.as_slice()) {
            Some(c) => c,
            None => {
                proof {
                    assert(false);
                }
                return (root_path, root_size, None);
            },
        };
        let cur_path = match cur.path() {
            Some(p) => p.clone(),
            None => String::new(),
        };
        let cur_size = match cur.size() {
            Some(s) => s,
            None => 0,
        };
        (root_path, root_size, Some((cur_path, cur_size)))
    }

    /// The rows shown in a view of `height` rows: from the first row shown
    /// up to, not including, the second index.
    pub fn visible_range(&self, height: usize) -> (r: (usize, usize))
        ensures
            r.0 == if self.window_top <= self.listing@.len() {
                self.window_top as int
            } else {
                self.listing@.len() as int
            },
            r.1 == if r.0 + height <= self.listing@.len() {
                r.0 + height
            } else {
                self.listing@.len() as int
            },
    {
        let len = self.listing.len();
        let start = if self.window_top <= len {
            self.window_top
        } else {
            len
        };
        let end = if len - start >= height {
            start + height
        } else {
            len
        };
        (start, end)
    }

    /// The selection of the level in view.
    pub fn selected(&self) -> (r: &Option<usize>)
        requires
            self.selected@.len() > 0,
        ensures
            *r == self.selection(),
    {
        &self.selected[self.selected.len() - 1]
    }
}

/// Reloading a second time, with nothing changed in between, gives the same
/// listing, selections and first row shown as the first reload did.
pub proof fn lemma_reload_idempotent(u0: UI, u1: UI, u2: UI)
    requires
        UI::reloaded(u0, u1),
        UI::reloaded(u1, u2),
    ensures
        u2.listing@ == u1.listing@,
        u2.selected@ == u1.selected@,
        u2.window_top == u1.window_top,
{
    lemma_sorted_rows_unique(u1.listing@, u2.listing@);
    assert(u2.selected@ =~= u1.selected@);
}

} // verus!
