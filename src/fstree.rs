use vstd::prelude::*;
use vstd::utf8::encode_utf8;
use crate::os;
use crate::os::{FileKind, Metadata};

verus! {

/// One row of a directory listing: name, size, whether it is a directory,
/// and the target text of a symbolic link.
pub type Listing = (String, u64, bool, Option<String>);

/// The children of a directory, keyed by name and kept in ascending byte
/// order of their names (names are unique).
pub struct Contents(pub Vec<(String, FSTree)>);

/// A node of the file system tree.
pub enum FSTree {
    /// The inspected directory itself.
    Root { contents: Contents, path: String, total_size: u64 },
    Dir { contents: Contents, path: String, metadata: Metadata, total_size: u64 },
    File { path: String, metadata: Metadata },
    /// A symbolic link; its target is kept for display and never followed.
    Symlink { path: String, metadata: Metadata, target: String },
    /// An object whose metadata or listing could not be read, or of a kind
    /// that is not tracked.
    Bad,
}

/// The removal of one object from the file system, which the caller performs.
pub struct Removal {
    pub path: String,
    /// Whether everything below the object goes too.
    pub recursive: bool,
}

// ---------------------------------------------------------------------------
// Names and their order

/// The bytes of a name, as the file system holds them.
pub open spec fn name_bytes(s: String) -> Seq<u8> {
    encode_utf8(s@)
}

/// Strict lexicographic order on byte strings.
pub open spec fn bytes_lt(a: Seq<u8>, b: Seq<u8>) -> bool
    decreases a.len(),
{
    if a.len() == 0 {
        b.len() > 0
    } else if b.len() == 0 {
        false
    } else if a[0] != b[0] {
        a[0] < b[0]
    } else {
        bytes_lt(a.drop_first(), b.drop_first())
    }
}

pub proof fn lemma_bytes_lt_irreflexive(a: Seq<u8>)
    ensures
        !bytes_lt(a, a),
    decreases a.len(),
{
    if a.len() > 0 {
        lemma_bytes_lt_irreflexive(a.drop_first());
    }
}

pub proof fn lemma_bytes_lt_transitive(a: Seq<u8>, b: Seq<u8>, c: Seq<u8>)
    requires
        bytes_lt(a, b),
        bytes_lt(b, c),
    ensures
        bytes_lt(a, c),
    decreases a.len(),
{
    if a.len() > 0 && b.len() > 0 && c.len() > 0 && a[0] == b[0] && b[0] == c[0] {
        lemma_bytes_lt_transitive(a.drop_first(), b.drop_first(), c.drop_first());
    }
}

proof fn lemma_bytes_lt_skip(a: Seq<u8>, b: Seq<u8>, i: int)
    requires
        0 <= i <= a.len(),
        i <= b.len(),
        a.take(i) == b.take(i),
    ensures
        bytes_lt(a, b) == bytes_lt(a.skip(i), b.skip(i)),
    decreases i,
{
    if i > 0 {
        assert(a[0] == a.take(i)[0]);
        assert(b[0] == b.take(i)[0]);
        assert(a.drop_first().take(i - 1) =~= a.take(i).drop_first());
        assert(b.drop_first().take(i - 1) =~= b.take(i).drop_first());
        lemma_bytes_lt_skip(a.drop_first(), b.drop_first(), i - 1);
        assert(a.drop_first().skip(i - 1) =~= a.skip(i));
        assert(b.drop_first().skip(i - 1) =~= b.skip(i));
    } else {
        assert(a.skip(0) =~= a);
        assert(b.skip(0) =~= b);
    }
}

/// Two names are equal exactly when their bytes are.
pub proof fn lemma_name_bytes_injective(a: String, b: String)
    ensures
        (a@ == b@) == (name_bytes(a) == name_bytes(b)),
{
    vstd::utf8::encode_utf8_decode_utf8(a@);
    vstd::utf8::encode_utf8_decode_utf8(b@);
}

/// Compares two names byte by byte: `-1`, `0` or `1` as `a` sorts before,
/// equal to, or after `b`.
pub fn compare_names(a: &String, b: &String) -> (r: i8)
    ensures
        r == -1 <==> bytes_lt(name_bytes(*a), name_bytes(*b)),
        r == 0 <==> a@ == b@,
        r == 1 <==> bytes_lt(name_bytes(*b), name_bytes(*a)),
        -1 <= r <= 1,
{
    proof {
        lemma_name_bytes_injective(*a, *b);
    }
    let x = a.as_str().as_bytes();
    let y = b.as_str().as_bytes();
    let ghost xa = name_bytes(*a);
    let ghost yb = name_bytes(*b);
    assert(x@ == xa);
    assert(y@ == yb);
    assert(xa.take(0) =~= yb.take(0));
    let mut i: usize = 0;
    while i < x.len() && i < y.len()
        invariant
            x@ == xa,
            y@ == yb,
            0 <= i <= x@.len(),
            i <= y@.len(),
            xa.take(i as int) == yb.take(i as int),
            (a@ == b@) == (xa == yb),
            xa == name_bytes(*a),
            yb == name_bytes(*b),
        decreases x@.len() - i,
    {
        if x[i] != y[i] {
            proof {
                lemma_bytes_lt_skip(xa, yb, i as int);
                lemma_bytes_lt_skip(yb, xa, i as int);
                assert(xa.skip(i as int)[0] == x@[i as int]);
                assert(yb.skip(i as int)[0] == y@[i as int]);
                assert(xa[i as int] != yb[i as int]);
                assert(xa != yb);
                assert(a@ != b@);
            }
            if x[i] < y[i] {
                return -1;
            } else {
                return 1;
            }
        }
        proof {
            assert(xa.take(i + 1) =~= xa.take(i as int).push(x@[i as int]));
            assert(yb.take(i + 1) =~= yb.take(i as int).push(y@[i as int]));
        }
        i = i + 1;
    }
    proof {
        lemma_bytes_lt_skip(xa, yb, i as int);
        lemma_bytes_lt_skip(yb, xa, i as int);
        if x@.len() == y@.len() {
            assert(xa =~= xa.take(i as int));
            assert(yb =~= yb.take(i as int));
        } else {
            assert(xa.len() != yb.len());
        }
    }
    if x.len() < y.len() {
        -1
    } else if x.len() > y.len() {
        1
    } else {
        0
    }
}

// ---------------------------------------------------------------------------
// The model

/// Names in strictly ascending byte order (hence unique).
pub open spec fn sorted_names(s: Seq<(String, FSTree)>) -> bool {
    forall|i: int, j: int|
        0 <= i < j < s.len() ==> bytes_lt(name_bytes(#[trigger] s[i].0), name_bytes(#[trigger] s[j].0))
}

/// The sum of the sizes of a sequence of children (unreadable ones count 0).
pub open spec fn sum_sizes(s: Seq<(String, FSTree)>) -> int
    decreases s.len(),
{
    if s.len() == 0 {
        0
    } else {
        sum_sizes(s.drop_last()) + s.last().1.size_value()
    }
}

/// Whether some child is called `name`.
pub open spec fn has_name(s: Seq<(String, FSTree)>, name: Seq<char>) -> bool {
    exists|i: int| 0 <= i < s.len() && (#[trigger] s[i].0)@ == name
}

/// The position of the child called `name` (meaningful where `has_name`).
pub open spec fn index_of(s: Seq<(String, FSTree)>, name: Seq<char>) -> int {
    choose|i: int| 0 <= i < s.len() && (#[trigger] s[i].0)@ == name
}

/// The child called `name`, if any.
pub open spec fn child_named(s: Seq<(String, FSTree)>, name: Seq<char>) -> Option<FSTree> {
    if has_name(s, name) {
        Some(s[index_of(s, name)].1)
    } else {
        None
    }
}

/// The tree that the last entry called `name` holds, if any: what a map
/// built from `s` in order holds under that name.
pub open spec fn last_named(s: Seq<(String, FSTree)>, name: Seq<char>) -> Option<FSTree>
    decreases s.len(),
{
    if s.len() == 0 {
        None
    } else if s.last().0@ == name {
        Some(s.last().1)
    } else {
        last_named(s.drop_last(), name)
    }
}

pub proof fn lemma_names_unique(s: Seq<(String, FSTree)>, i: int, j: int)
    requires
        sorted_names(s),
        0 <= i < s.len(),
        0 <= j < s.len(),
        s[i].0@ == s[j].0@,
    ensures
        i == j,
{
    lemma_name_bytes_injective(s[i].0, s[j].0);
    if i < j {
        lemma_bytes_lt_irreflexive(name_bytes(s[i].0));
    } else if j < i {
        lemma_bytes_lt_irreflexive(name_bytes(s[j].0));
    }
}

pub proof fn lemma_child_named_at(s: Seq<(String, FSTree)>, i: int)
    requires
        sorted_names(s),
        0 <= i < s.len(),
    ensures
        has_name(s, s[i].0@),
        index_of(s, s[i].0@) == i,
        child_named(s, s[i].0@) == Some(s[i].1),
{
    assert(has_name(s, s[i].0@));
    lemma_names_unique(s, i, index_of(s, s[i].0@));
}

pub proof fn lemma_size_value_nonneg(t: FSTree)
    ensures
        t.size_value() >= 0,
{
}

pub proof fn lemma_sum_concat(a: Seq<(String, FSTree)>, b: Seq<(String, FSTree)>)
    ensures
        sum_sizes(a + b) == sum_sizes(a) + sum_sizes(b),
    decreases b.len(),
{
    if b.len() == 0 {
        assert(a + b =~= a);
    } else {
        assert((a + b).drop_last() =~= a + b.drop_last());
        lemma_sum_concat(a, b.drop_last());
    }
}

pub proof fn lemma_sum_nonneg(s: Seq<(String, FSTree)>)
    ensures
        sum_sizes(s) >= 0,
    decreases s.len(),
{
    if s.len() > 0 {
        lemma_sum_nonneg(s.drop_last());
        lemma_size_value_nonneg(s.last().1);
    }
}

pub proof fn lemma_sum_single(x: (String, FSTree))
    ensures
        sum_sizes(seq![x]) == x.1.size_value(),
{
    let s = seq![x];
    assert(s.drop_last() =~= Seq::<(String, FSTree)>::empty());
    assert(s.last() == x);
    assert(sum_sizes(s.drop_last()) == 0);
}

/// The sum split around position `i`.
pub proof fn lemma_sum_split(s: Seq<(String, FSTree)>, i: int)
    requires
        0 <= i < s.len(),
    ensures
        sum_sizes(s) == sum_sizes(s.take(i)) + s[i].1.size_value() + sum_sizes(s.skip(i + 1)),
        sum_sizes(s.take(i)) >= 0,
        sum_sizes(s.skip(i + 1)) >= 0,
        s[i].1.size_value() <= sum_sizes(s),
{
    assert(s =~= s.take(i) + seq![s[i]] + s.skip(i + 1));
    lemma_sum_concat(s.take(i) + seq![s[i]], s.skip(i + 1));
    lemma_sum_concat(s.take(i), seq![s[i]]);
    lemma_sum_single(s[i]);
    lemma_sum_nonneg(s.take(i));
    lemma_sum_nonneg(s.skip(i + 1));
}

pub proof fn lemma_sum_remove(s: Seq<(String, FSTree)>, i: int)
    requires
        0 <= i < s.len(),
    ensures
        sum_sizes(s.remove(i)) == sum_sizes(s) - s[i].1.size_value(),
{
    lemma_sum_split(s, i);
    assert(s.remove(i) =~= s.take(i) + s.skip(i + 1));
    lemma_sum_concat(s.take(i), s.skip(i + 1));
}

pub proof fn lemma_sum_update(s: Seq<(String, FSTree)>, i: int, x: (String, FSTree))
    requires
        0 <= i < s.len(),
    ensures
        sum_sizes(s.update(i, x)) == sum_sizes(s) - s[i].1.size_value() + x.1.size_value(),
{
    lemma_sum_split(s, i);
    lemma_sum_split(s.update(i, x), i);
    assert(s.update(i, x).take(i) =~= s.take(i));
    assert(s.update(i, x).skip(i + 1) =~= s.skip(i + 1));
}

/// The node under `path`, looked up among the children `c` of a directory.
pub open spec fn lookup_in(c: Seq<(String, FSTree)>, path: Seq<String>) -> Option<FSTree> {
    match child_named(c, path[0]@) {
        Some(t) => t.lookup(path.drop_first()),
        None => None,
    }
}

/// `a` and `b` are the same directory node, but for their children and
/// total.
pub open spec fn same_shell(a: FSTree, b: FSTree) -> bool {
    match (a, b) {
        (FSTree::Root { path: p1, .. }, FSTree::Root { path: p2, .. }) => p1 == p2,
        (
            FSTree::Dir { path: p1, metadata: m1, .. },
            FSTree::Dir { path: p2, metadata: m2, .. },
        ) => p1 == p2 && m1 == m2,
        _ => false,
    }
}

/// The children `new` are the children `old` with the object at `path`
/// removed, and `s` taken off the total of every directory on the way down;
/// nothing else differs.
pub open spec fn children_without(
    old: Seq<(String, FSTree)>,
    new: Seq<(String, FSTree)>,
    path: Seq<String>,
    s: int,
) -> bool
    decreases path.len(),
{
    &&& path.len() > 0
    &&& has_name(old, path[0]@)
    &&& {
        let i = index_of(old, path[0]@);
        if path.len() == 1 {
            new == old.remove(i)
        } else {
            let a = old[i].1;
            let b = new[i].1;
            &&& new == old.update(i, (old[i].0, b))
            &&& same_shell(a, b)
            &&& b.size_value() == a.size_value() - s
            &&& children_without(a.children(), b.children(), path.drop_first(), s)
        }
    }
}

/// The listing row that describes a child.
pub open spec fn listing_of(c: (String, FSTree)) -> Listing {
    (
        c.0,
        c.1.size_value() as u64,
        c.1 is Dir,
        match c.1 {
            FSTree::Symlink { target, .. } => Some(target),
            _ => None,
        },
    )
}

pub proof fn lemma_entry_wf(t: FSTree, name: Seq<char>)
    requires
        t.wf(),
        t.spec_entry(name) is Some,
    ensures
        t.spec_entry(name)->0.wf(),
        !(t.spec_entry(name)->0 is Root),
{
    let c = t.children();
    let i = index_of(c, name);
    assert(0 <= i < c.len());
    match t {
        FSTree::Root { contents, .. } => {
            assert(contents.0[i].1.wf());
        },
        FSTree::Dir { contents, .. } => {
            assert(contents.0[i].1.wf());
        },
        _ => {},
    }
}

impl Contents {
    /// The sum of the children's sizes, or `None` where it exceeds `u64`.
    pub fn size(&self) -> (r: Option<u64>)
        requires
            self.wf(),
        ensures
            sum_sizes(self.0@) <= u64::MAX ==> r == Some(sum_sizes(self.0@) as u64),
            sum_sizes(self.0@) > u64::MAX ==> r is None,
            r matches Some(t) ==> t == sum_sizes(self.0@),
    {
        proof {
            lemma_sum_nonneg(self.0@);
        }
        let mut total: u64 = 0;
        let mut i: usize = 0;
        while i < self.0.len()
            invariant
                self.wf(),
                0 <= i <= self.0@.len(),
                total == sum_sizes(self.0@.take(i as int)),
            decreases self.0@.len() - i,
        {
            proof {
                assert(self.0@.take(i + 1).drop_last() =~= self.0@.take(i as int));
                assert(self.0[i as int].1.wf());
            }
            let s = match self.0[i].1.size() {
                Some(s) => s,
                None => 0,
            };
            match total.checked_add(s) {
                Some(t) => {
                    total = t;
                },
                None => {
                    proof {
                        lemma_sum_split(self.0@, i as int);
                        assert(self.0@.take(i + 1) =~= self.0@.take(i as int).push(self.0@[i as int]));
                        lemma_sum_split(self.0@.take(i + 1), i as int);
                        assert(self.0@.take(i + 1).take(i as int) =~= self.0@.take(i as int));
                        assert(self.0@ =~= self.0@.take(i + 1) + self.0@.skip(i + 1));
                        lemma_sum_concat(self.0@.take(i + 1), self.0@.skip(i + 1));
                    }
                    return None;
                },
            }
            i = i + 1;
        }
        proof {
            assert(self.0@.take(i as int) =~= self.0@);
        }
        Some(total)
    }

    /// Puts `tree` under `name`, in its place in name order, replacing a
    /// child of the same name.
    pub fn insert(&mut self, name: String, tree: FSTree)
        requires
            old(self).wf(),
            tree.wf(),
            !(tree is Root),
        ensures
            final(self).wf(),
            forall|k: Seq<char>|
                #![trigger child_named(final(self).0@, k)]
                child_named(final(self).0@, k) == if k == name@ {
                    Some(tree)
                } else {
                    child_named(old(self).0@, k)
                },
    {
        let ghost s0 = self.0@;
        let ghost nb = name_bytes(name);
        let mut i: usize = 0;
        while i < self.0.len()
            invariant
                self.0@ == s0,
                old(self).0@ == s0,
                self.wf(),
                nb == name_bytes(name),
                tree.wf(),
                !(tree is Root),
                0 <= i <= s0.len(),
                forall|j: int| 0 <= j < s0.len() ==> !((#[trigger] s0[j]).1 is Root) && s0[j].1.wf(),
                forall|j: int| 0 <= j < i ==> bytes_lt(name_bytes(#[trigger] s0[j].0), nb),
            decreases s0.len() - i,
        {
            let c = compare_names(&name, &self.0[i].0);
            if c == 0 {
                let ghost x = (name, tree);
                self.0.set(i, (name, tree));
                proof {
                    let s1 = s0.update(i as int, x);
                    assert(self.0@ == s1);
                    lemma_name_bytes_injective(name, s0[i as int].0);
                    assert(sorted_names(s1)) by {
                        assert forall|a: int, b: int| 0 <= a < b < s1.len() implies bytes_lt(
                            name_bytes(#[trigger] s1[a].0),
                            name_bytes(#[trigger] s1[b].0),
                        ) by {
                            assert(name_bytes(s1[a].0) == name_bytes(s0[a].0));
                            assert(name_bytes(s1[b].0) == name_bytes(s0[b].0));
                        }
                    }
                    assert forall|j: int| 0 <= j < self.0.len() implies !((
                    #[trigger] self.0[j]).1 is Root) && self.0[j].1.wf() by {
                        if j != i {
                            assert(self.0[j] == s0[j]);
                        } else {
                            assert(self.0[j] == x);
                        }
                    }
                    assert forall|k: Seq<char>|
                        #![trigger child_named(s1, k)]
                        child_named(s1, k) == if k == name@ {
                            Some(tree)
                        } else {
                            child_named(s0, k)
                        } by {
                        lemma_child_named_at(s1, i as int);
                        if k != name@ {
                            if has_name(s0, k) {
                                let m = index_of(s0, k);
                                lemma_child_named_at(s0, m);
                                assert(m != i);
                                assert(s1[m] == s0[m]);
                                lemma_child_named_at(s1, m);
                            } else {
                                assert(!has_name(s1, k));
                            }
                        }
                    }
                }
                return;
            } else if c == -1 {
                let ghost x = (name, tree);
                self.0.insert(i, (name, tree));
                proof {
                    let s1 = s0.insert(i as int, x);
                    assert(self.0@ == s1);
                    assert(sorted_names(s1)) by {
                        assert forall|a: int, b: int| 0 <= a < b < s1.len() implies bytes_lt(
                            name_bytes(#[trigger] s1[a].0),
                            name_bytes(#[trigger] s1[b].0),
                        ) by {
                            if a < i && b < i {
                                assert(s1[a] == s0[a] && s1[b] == s0[b]);
                            } else if a < i && b == i {
                                assert(s1[a] == s0[a]);
                            } else if a < i {
                                assert(s1[a] == s0[a] && s1[b] == s0[b - 1]);
                                assert(bytes_lt(name_bytes(s0[a].0), nb));
                                assert(bytes_lt(nb, name_bytes(s0[i as int].0)));
                                lemma_bytes_lt_transitive(name_bytes(s0[a].0), nb, name_bytes(s0[i as int].0));
                                if b - 1 > i {
                                    lemma_bytes_lt_transitive(
                                        name_bytes(s0[a].0),
                                        name_bytes(s0[i as int].0),
                                        name_bytes(s0[b - 1].0),
                                    );
                                }
                            } else if a == i {
                                assert(s1[b] == s0[b - 1]);
                                if b - 1 > i {
                                    lemma_bytes_lt_transitive(
                                        nb,
                                        name_bytes(s0[i as int].0),
                                        name_bytes(s0[b - 1].0),
                                    );
                                }
                            } else {
                                assert(s1[a] == s0[a - 1] && s1[b] == s0[b - 1]);
                            }
                        }
                    }
                    assert forall|j: int| 0 <= j < self.0.len() implies !((
                    #[trigger] self.0[j]).1 is Root) && self.0[j].1.wf() by {
                        if j < i {
                            assert(self.0[j] == s0[j]);
                        } else if j > i {
                            assert(self.0[j] == s0[j - 1]);
                        } else {
                            assert(self.0[j] == x);
                        }
                    }
                    assert forall|k: Seq<char>|
                        #![trigger child_named(s1, k)]
                        child_named(s1, k) == if k == name@ {
                            Some(tree)
                        } else {
                            child_named(s0, k)
                        } by {
                        lemma_child_named_at(s1, i as int);
                        if k != name@ {
                            if has_name(s0, k) {
                                let m = index_of(s0, k);
                                lemma_child_named_at(s0, m);
                                let m1 = if m < i { m } else { m + 1 };
                                assert(s1[m1] == s0[m]);
                                lemma_child_named_at(s1, m1);
                            } else {
                                assert forall|j: int| 0 <= j < s1.len() implies (#[trigger] s1[j].0)@ != k by {
                                    if j < i {
                                        assert(s1[j] == s0[j]);
                                    } else if j > i {
                                        assert(s1[j] == s0[j - 1]);
                                    }
                                }
                            }
                        }
                    }
                }
                return;
            }
            i = i + 1;
        }
        let ghost x = (name, tree);
        self.0.push((name, tree));
        proof {
            let s1 = s0.push(x);
            assert(self.0@ == s1);
            assert(sorted_names(s1)) by {
                assert forall|a: int, b: int| 0 <= a < b < s1.len() implies bytes_lt(
                    name_bytes(#[trigger] s1[a].0),
                    name_bytes(#[trigger] s1[b].0),
                ) by {
                    assert(s1[a] == s0[a]);
                    if b < s0.len() {
                        assert(s1[b] == s0[b]);
                    }
                }
            }
            assert forall|j: int| 0 <= j < self.0.len() implies !((#[trigger] self.0[j]).1 is Root)
                && self.0[j].1.wf() by {
                if j < s0.len() {
                    assert(self.0[j] == s0[j]);
                }
            }
            assert forall|k: Seq<char>|
                #![trigger child_named(s1, k)]
                child_named(s1, k) == if k == name@ {
                    Some(tree)
                } else {
                    child_named(s0, k)
                } by {
                lemma_child_named_at(s1, s0.len() as int);
                if k != name@ {
                    if has_name(s0, k) {
                        let m = index_of(s0, k);
                        lemma_child_named_at(s0, m);
                        assert(s1[m] == s0[m]);
                        lemma_child_named_at(s1, m);
                    } else {
                        assert forall|j: int| 0 <= j < s1.len() implies (#[trigger] s1[j].0)@ != k by {
                            if j < s0.len() {
                                assert(s1[j] == s0[j]);
                            }
                        }
                    }
                }
            }
        }
    }

    /// Gathers entries into a name-keyed collection; of entries that share a
    /// name, the last one is kept.
    pub fn from_entries(entries: Vec<(String, FSTree)>) -> (r: Contents)
        requires
            forall|i: int| 0 <= i < entries.len() ==> (#[trigger] entries[i]).1.wf() && !(entries[i].1 is Root),
        ensures
            r.wf(),
            forall|k: Seq<char>| #[trigger] child_named(r.0@, k) == last_named(entries@, k),
    {
        let ghost all = entries@;
        let mut r = Contents(Vec::new());
        for e in it: entries.into_iter()
            invariant
                it.seq() == all,
                forall|i: int| 0 <= i < all.len() ==> (#[trigger] all[i]).1.wf() && !(all[i].1 is Root),
                r.wf(),
                forall|k: Seq<char>|
                    #[trigger] child_named(r.0@, k) == last_named(all.take(it.index() as int), k),
        {
            let ghost n = it.index() as int;
            proof {
                assert(e == all[n]);
            }
            let (name, tree) = e;
            r.insert(name, tree);
            proof {
                assert(all.take(n + 1).drop_last() =~= all.take(n));
                assert forall|k: Seq<char>|
                    #[trigger] child_named(r.0@, k) == last_named(all.take(n + 1), k) by {
                }
            }
        }
        proof {
            assert(all.take(all.len() as int) =~= all);
        }
        r
    }

    /// The position of the child called `name`.
    pub fn position(&self, name: &String) -> (r: Option<usize>)
        requires
            self.wf(),
        ensures
            match r {
                Some(i) => i < self.0@.len() && self.0@[i as int].0@ == name@ && index_of(
                    self.0@,
                    name@,
                ) == i && child_named(self.0@, name@) == Some(self.0@[i as int].1),
                None => !has_name(self.0@, name@) && child_named(self.0@, name@) is None,
            },
    {
        let mut i: usize = 0;
        while i < self.0.len()
            invariant
                self.wf(),
                0 <= i <= self.0@.len(),
                forall|j: int| 0 <= j < i ==> (#[trigger] self.0@[j].0)@ != name@,
            decreases self.0@.len() - i,
        {
            if self.0[i].0 == *name {
                proof {
                    lemma_child_named_at(self.0@, i as int);
                }
                return Some(i);
            }
            i = i + 1;
        }
        None
    }

    /// Sorted, and every child is a well-formed non-root node.
    pub open spec fn wf(self) -> bool
        decreases self,
    {
        &&& sorted_names(self.0@)
        &&& forall|i: int|
            0 <= i < self.0.len() ==> !((#[trigger] self.0[i]).1 is Root) && self.0[i].1.wf()
    }
}

impl FSTree {
    /// Whether this node holds children.
    pub open spec fn has_contents(self) -> bool {
        self is Root || self is Dir
    }

    /// The children of a directory node; none for the other kinds.
    pub open spec fn children(self) -> Seq<(String, FSTree)> {
        match self {
            FSTree::Root { contents, .. } => contents.0@,
            FSTree::Dir { contents, .. } => contents.0@,
            _ => Seq::empty(),
        }
    }

    /// The reportable size: the aggregate of a directory, the allocated size
    /// of a file or link, nothing for an unreadable object.
    pub open spec fn spec_size(self) -> Option<u64> {
        match self {
            FSTree::Root { total_size, .. } => Some(total_size),
            FSTree::Dir { total_size, .. } => Some(total_size),
            FSTree::File { metadata, .. } => Some(os::spec_size(metadata) as u64),
            FSTree::Symlink { metadata, .. } => Some(os::spec_size(metadata) as u64),
            FSTree::Bad => None,
        }
    }

    /// The size as it counts towards a parent's total.
    pub open spec fn size_value(self) -> int {
        match self.spec_size() {
            Some(s) => s as int,
            None => 0,
        }
    }

    /// Every directory's total is the sum of its children's sizes, children
    /// are sorted by name, and every file size is representable.
    pub open spec fn wf(self) -> bool
        decreases self,
    {
        match self {
            FSTree::Root { contents, total_size, .. } => {
                &&& contents.wf()
                &&& total_size == sum_sizes(contents.0@)
            },
            FSTree::Dir { contents, total_size, .. } => {
                &&& contents.wf()
                &&& total_size == sum_sizes(contents.0@)
            },
            FSTree::File { metadata, .. } => os::spec_size(metadata) <= u64::MAX,
            FSTree::Symlink { metadata, .. } => os::spec_size(metadata) <= u64::MAX,
            FSTree::Bad => true,
        }
    }

    /// The node that describes one object: `metadata` is `None` where the
    /// object's metadata could not be read, `contents` is the listing of a
    /// directory and `target` the text of a link (each `None` where it could
    /// not be read). A size that does not fit in 64 bits is not representable
    /// and makes the object unreadable too.
    pub open spec fn classified(
        path: String,
        metadata: Option<Metadata>,
        contents: Option<Contents>,
        target: Option<String>,
    ) -> FSTree {
        match metadata {
            None => FSTree::Bad,
            Some(md) => match md.kind {
                FileKind::Directory => match contents {
                    Some(c) => if sum_sizes(c.0@) <= u64::MAX {
                        FSTree::Dir {
                            contents: c,
                            path,
                            metadata: md,
                            total_size: sum_sizes(c.0@) as u64,
                        }
                    } else {
                        FSTree::Bad
                    },
                    None => FSTree::Bad,
                },
                FileKind::File => if os::spec_size(md) <= u64::MAX {
                    FSTree::File { path, metadata: md }
                } else {
                    FSTree::Bad
                },
                FileKind::Symlink => match target {
                    Some(t) => if os::spec_size(md) <= u64::MAX {
                        FSTree::Symlink { path, metadata: md, target: t }
                    } else {
                        FSTree::Bad
                    },
                    None => FSTree::Bad,
                },
                FileKind::Other => FSTree::Bad,
            },
        }
    }

    pub fn from_dir_entry(
        path: String,
        metadata: Option<Metadata>,
        contents: Option<Contents>,
        target: Option<String>,
    ) -> (r: FSTree)
        requires
            contents matches Some(c) ==> c.wf(),
        ensures
            r == FSTree::classified(path, metadata, contents, target),
            r.wf(),
            !(r is Root),
    {
        let md = match metadata {
            Some(md) => md,
            None => return FSTree::Bad,
        };
        match md.kind {
            FileKind::Directory => match contents {
                Some(c) => match c.size() {
                    Some(total_size) => {
                        let r = FSTree::Dir { contents: c, path, metadata: md, total_size };
                        proof {
                            assert(r.wf());
                        }
                        r
                    },
                    None => FSTree::Bad,
                },
                None => FSTree::Bad,
            },
            FileKind::File => {
                if md.blocks <= u64::MAX / os::DEVICE_BLOCKSIZE {
                    FSTree::File { path, metadata: md }
                } else {
                    FSTree::Bad
                }
            },
            FileKind::Symlink => match target {
                Some(t) => {
                    if md.blocks <= u64::MAX / os::DEVICE_BLOCKSIZE {
                        FSTree::Symlink { path, metadata: md, target: t }
                    } else {
                        FSTree::Bad
                    }
                },
                None => FSTree::Bad,
            },
            FileKind::Other => FSTree::Bad,
        }
    }

    /// The root of a tree over the directory at `path`, from its listing;
    /// `None` where the listing could not be read (the path does not name a
    /// readable directory) or the total does not fit in 64 bits.
    pub fn from_dir(path: String, contents: Option<Contents>) -> (r: Option<FSTree>)
        requires
            contents matches Some(c) ==> c.wf(),
        ensures
            match contents {
                Some(c) => if sum_sizes(c.0@) <= u64::MAX {
                    r == Some(
                        FSTree::Root { contents: c, path, total_size: sum_sizes(c.0@) as u64 },
                    )
                } else {
                    r is None
                },
                None => r is None,
            },
            r matches Some(t) ==> t.wf(),
    {
        match contents {
            Some(c) => match c.size() {
                Some(total_size) => Some(FSTree::Root { contents: c, path, total_size }),
                None => None,
            },
            None => None,
        }
    }

    /// The reportable size of this node: `None` for an unreadable object.
    pub fn size(&self) -> (r: Option<u64>)
        requires
            self.wf(),
        ensures
            r == self.spec_size(),
    {
        match self {
            FSTree::Root { total_size, .. } => Some(*total_size),
            FSTree::Dir { total_size, .. } => Some(*total_size),
            FSTree::File { metadata, .. } => Some(os::size(metadata)),
            FSTree::Symlink { metadata, .. } => Some(os::size(metadata)),
            FSTree::Bad => None,
        }
    }

    /// The children, for a directory node.
    pub fn contents(&self) -> (r: Option<&Contents>)
        ensures
            match r {
                Some(c) => self.has_contents() && c.0@ == self.children(),
                None => !self.has_contents(),
            },
    {
        match self {
            FSTree::Root { contents, .. } => Some(contents),
            FSTree::Dir { contents, .. } => Some(contents),
            _ => None,
        }
    }

    /// The path of the object; an unreadable one has none.
    pub fn path(&self) -> (r: Option<&String>)
        ensures
            r is None <==> self is Bad,
            match (self, r) {
                (FSTree::Root { path, .. }, Some(p)) => p == path,
                (FSTree::Dir { path, .. }, Some(p)) => p == path,
                (FSTree::File { path, .. }, Some(p)) => p == path,
                (FSTree::Symlink { path, .. }, Some(p)) => p == path,
                _ => true,
            },
    {
        match self {
            FSTree::Root { path, .. } => Some(path),
            FSTree::Dir { path, .. } => Some(path),
            FSTree::File { path, .. } => Some(path),
            FSTree::Symlink { path, .. } => Some(path),
            FSTree::Bad => None,
        }
    }

    pub fn is_dir(&self) -> (r: bool)
        ensures
            r == self is Dir,
    {
        matches!(self, FSTree::Dir { .. })
    }

    pub fn is_bad(&self) -> (r: bool)
        ensures
            r == self is Bad,
    {
        matches!(self, FSTree::Bad)
    }

    /// One row per child, in name order; `None` for a node without children.
    pub fn list(&self) -> (r: Option<Vec<Listing>>)
        requires
            self.wf(),
        ensures
            match r {
                Some(v) => self.has_contents() && v@ == self.children().map_values(
                    |c: (String, FSTree)| listing_of(c),
                ),
                None => !self.has_contents(),
            },
    {
        let contents = match self.contents() {
            Some(c) => c,
            None => return None,
        };
        proof {
            assert(contents.wf());
        }
        let mut out: Vec<Listing> = Vec::new();
        let mut i: usize = 0;
        while i < contents.0.len()
            invariant
                contents.wf(),
                0 <= i <= contents.0@.len(),
                out@ == contents.0@.take(i as int).map_values(|c: (String, FSTree)| listing_of(c)),
            decreases contents.0@.len() - i,
        {
            let (name, fst) = &contents.0[i];
            proof {
                assert(contents.0[i as int].1.wf());
            }
            let size = match fst.size() {
                Some(s) => s,
                None => 0,
            };
            let target = match fst {
                FSTree::Symlink { target, .. } => Some(target.clone()),
                _ => None,
            };
            out.push((name.clone(), size, fst.is_dir(), target));
            proof {
                assert(contents.0@.take(i + 1) =~= contents.0@.take(i as int).push(contents.0@[i as int]));
                assert(out@ =~= contents.0@.take(i + 1).map_values(|c: (String, FSTree)| listing_of(c)));
            }
            i = i + 1;
        }
        proof {
            assert(contents.0@.take(i as int) =~= contents.0@);
        }
        Some(out)
    }

    /// The child called `name`, for a directory node.
    pub fn entry(&self, name: &String) -> (r: Option<&FSTree>)
        requires
            self.wf(),
        ensures
            match r {
                Some(c) => self.spec_entry(name@) == Some(*c),
                None => self.spec_entry(name@) is None,
            },
    {
        match self.contents() {
            Some(contents) => match contents.position(name) {
                Some(i) => Some(&contents.0[i].1),
                None => None,
            },
            None => None,
        }
    }

    /// The child called `name`, for a directory node, to change in place.
    pub fn entry_mut(&mut self, name: &String) -> (r: Option<&mut FSTree>)
        requires
            old(self).wf(),
        ensures
            match r {
                Some(c) => {
                    &&& old(self).spec_entry(name@) == Some(*c)
                    &&& same_shell(*old(self), *final(self))
                    &&& final(self).size_value() == old(self).size_value()
                    &&& final(self).children() == old(self).children().update(
                        index_of(old(self).children(), name@),
                        (old(self).children()[index_of(old(self).children(), name@)].0, *final(c)),
                    )
                },
                None => old(self).spec_entry(name@) is None && *final(self) == *old(self),
            },
    {
        match self {
            FSTree::Root { contents, .. } => match contents.position(name) {
                Some(i) => Some(&mut contents.0[i].1),
                None => None,
            },
            FSTree::Dir { contents, .. } => match contents.position(name) {
                Some(i) => Some(&mut contents.0[i].1),
                None => None,
            },
            _ => None,
        }
    }

    /// The node that `names` addresses from this one.
    pub fn entries(&self, names: &[String]) -> (r: Option<&FSTree>)
        requires
            self.wf(),
        ensures
            match r {
                Some(c) => self.lookup(names@) == Some(*c) && c.wf(),
                None => self.lookup(names@) is None,
            },
    {
        let mut fst = self;
        let mut i: usize = 0;
        proof {
            assert(names@.skip(0) =~= names@);
        }
        while i < names.len()
            invariant
                fst.wf(),
                0 <= i <= names@.len(),
                self.lookup(names@) == fst.lookup(names@.skip(i as int)),
            decreases names@.len() - i,
        {
            proof {
                assert(names@.skip(i as int).drop_first() =~= names@.skip(i + 1));
            }
            match fst.entry(&names[i]) {
                Some(next) => {
                    proof {
                        lemma_entry_wf(*fst, names@[i as int]@);
                    }
                    fst = next;
                },
                None => return None,
            }
            i = i + 1;
        }
        proof {
            assert(names@.skip(i as int).len() == 0);
        }
        Some(fst)
    }

    /// Removes the object at `names` from the tree, and takes its size off
    /// the total of every directory above it. Returns the new total of this
    /// node, or `None` (changing nothing) where `names` does not address a
    /// readable object.
    pub fn delete_path(&mut self, names: &[String]) -> (r: Option<u64>)
        requires
            old(self).wf(),
            names@.len() > 0,
        ensures
            final(self).wf(),
            r is Some <==> old(self).removable(names@),
            r matches Some(t) ==> {
                &&& t == final(self).size_value()
                &&& old(self).is_without(
                    *final(self),
                    names@,
                    old(self).lookup(names@)->0.size_value(),
                )
            },
            r is None ==> *final(self) == *old(self),
    {
        match self.entries(names) {
            Some(e) => {
                if e.is_bad() {
                    return None;
                }
            },
            None => return None,
        }
        Some(self.remove_at(names))
    }

    /// Removes the object at `names`, which must exist and be readable, and
    /// takes its size off every total on the way down.
    fn remove_at(&mut self, names: &[String]) -> (r: u64)
        requires
            old(self).wf(),
            old(self).removable(names@),
        ensures
            final(self).wf(),
            r == final(self).size_value(),
            old(self).is_without(*final(self), names@, old(self).lookup(names@)->0.size_value()),
        decreases names@.len(), 1nat,
    {
        match self {
            FSTree::Root { contents, total_size, .. } => remove_in(contents, total_size, names),
            FSTree::Dir { contents, total_size, .. } => remove_in(contents, total_size, names),
            _ => {
                proof {
                    assert(old(self).children().len() == 0);
                }
                0
            },
        }
    }

    pub open spec fn spec_removal(self) -> Option<Removal> {
        match self {
            FSTree::Dir { path, .. } => Some(Removal { path, recursive: true }),
            FSTree::File { path, .. } => Some(Removal { path, recursive: false }),
            FSTree::Symlink { path, .. } => Some(Removal { path, recursive: false }),
            _ => None,
        }
    }

    /// How this object is removed from the file system: a directory with
    /// everything below it, a file or link on its own. The root and
    /// unreadable objects are not removed.
    pub fn removal(&self) -> (r: Option<Removal>)
        ensures
            r == self.spec_removal(),
    {
        match self {
            FSTree::Dir { path, .. } => Some(Removal { path: path.clone(), recursive: true }),
            FSTree::File { path, .. } => Some(Removal { path: path.clone(), recursive: false }),
            FSTree::Symlink { path, .. } => Some(Removal { path: path.clone(), recursive: false }),
            _ => None,
        }
    }

    /// Whether a directory node has no children.
    pub fn is_empty(&self) -> (r: Option<bool>)
        ensures
            match r {
                Some(b) => self.has_contents() && b == (self.children().len() == 0),
                None => !self.has_contents(),
            },
    {
        match self.contents() {
            Some(c) => Some(c.0.len() == 0),
            None => None,
        }
    }

    /// The child called `name`.
    pub open spec fn spec_entry(self, name: Seq<char>) -> Option<FSTree> {
        child_named(self.children(), name)
    }

    /// Whether `path` names an object below this node that can be removed:
    /// it exists and is readable.
    pub open spec fn removable(self, path: Seq<String>) -> bool {
        &&& path.len() > 0
        &&& self.lookup(path) matches Some(e)
        &&& !(e is Bad)
    }

    /// `new` is this node with the object at `path` removed, and `s` taken
    /// off its total and the total of every directory on the way down.
    pub open spec fn is_without(self, new: FSTree, path: Seq<String>, s: int) -> bool {
        &&& same_shell(self, new)
        &&& new.size_value() == self.size_value() - s
        &&& children_without(self.children(), new.children(), path, s)
    }

    /// The node that `path` addresses, walking one name at a time.
    pub open spec fn lookup(self, path: Seq<String>) -> Option<FSTree>
        decreases path.len(),
    {
        if path.len() == 0 {
            Some(self)
        } else {
            match self.spec_entry(path[0]@) {
                Some(c) => c.lookup(path.drop_first()),
                None => None,
            }
        }
    }
}

/// Removes the object at `names` from the children `contents` of a directory
/// whose total is `total_size`, and takes its size off every total on the
/// way down. Returns the new total.
fn remove_in(contents: &mut Contents, total_size: &mut u64, names: &[String]) -> (r: u64)
    requires
        old(contents).wf(),
        *old(total_size) == sum_sizes(old(contents).0@),
        names@.len() > 0,
        lookup_in(old(contents).0@, names@) matches Some(e) && !(e is Bad),
    ensures
        final(contents).wf(),
        *final(total_size) == sum_sizes(final(contents).0@),
        ({
            let s = lookup_in(old(contents).0@, names@)->0.size_value();
            &&& r == *final(total_size)
            &&& *final(total_size) == *old(total_size) - s
            &&& children_without(old(contents).0@, final(contents).0@, names@, s)
        }),
    decreases names@.len(), 0nat,
{
    let ghost c0 = contents.0@;
    let i = match contents.position(&names[0]) {
        Some(i) => i,
        None => {
            proof {
                assert(false);
            }
            return 0;
        },
    };
    proof {
        lemma_sum_split(c0, i as int);
        assert(contents.0[i as int].1.wf());
    }
    let before = match contents.0[i].1.size() {
        Some(s) => s,
        None => {
            proof {
                if names@.len() > 1 {
                    assert(c0[i as int].1.children().len() == 0);
                    assert(c0[i as int].1.lookup(names@.drop_first()) is None);
                }
            }
            return 0;
        },
    };
    if names.len() == 1 {
        proof {
            assert(names@.drop_first().len() == 0);
        }
        *total_size = *total_size - before;
        contents.0.remove(i);
        proof {
            let c1 = c0.remove(i as int);
            assert(contents.0@ == c1);
            lemma_sum_remove(c0, i as int);
            assert forall|a: int, b: int| 0 <= a < b < c1.len() implies bytes_lt(
                name_bytes(#[trigger] c1[a].0),
                name_bytes(#[trigger] c1[b].0),
            ) by {
                let a0 = if a < i { a } else { a + 1 };
                let b0 = if b < i { b } else { b + 1 };
                assert(c1[a] == c0[a0] && c1[b] == c0[b0]);
            }
            assert forall|j: int| 0 <= j < contents.0.len() implies !((
            #[trigger] contents.0[j]).1 is Root) && contents.0[j].1.wf() by {
                let j0 = if j < i { j } else { j + 1 };
                assert(contents.0[j] == c0[j0]);
                assert(old(contents).0[j0].1.wf());
            }
        }
        *total_size
    } else {
        let rest = &names[1..names.len()];
        proof {
            assert(rest@ =~= names@.drop_first());
        }
        let ghost child0 = contents.0@[i as int].1;
        let after = contents.0[i].1.remove_at(rest);
        let ghost child1 = contents.0@[i as int].1;
        proof {
            lemma_size_value_nonneg(child0.lookup(names@.drop_first())->0);
        }
        let delta = before - after;
        *total_size = *total_size - delta;
        proof {
            let c1 = contents.0@;
            assert(c1 == c0.update(i as int, (c0[i as int].0, child1)));
            lemma_sum_update(c0, i as int, (c0[i as int].0, child1));
            assert forall|a: int, b: int| 0 <= a < b < c1.len() implies bytes_lt(
                name_bytes(#[trigger] c1[a].0),
                name_bytes(#[trigger] c1[b].0),
            ) by {
                assert(c1[a].0 == c0[a].0 && c1[b].0 == c0[b].0);
            }
            assert forall|j: int| 0 <= j < contents.0.len() implies !((
            #[trigger] contents.0[j]).1 is Root) && contents.0[j].1.wf() by {
                if j != i {
                    assert(contents.0[j] == c0[j]);
                    assert(old(contents).0[j].1.wf());
                }
            }
        }
        *total_size
    }
}

// ---------------------------------------------------------------------------
// Totals and deletion

/// Every directory in a well-formed tree, at any depth, holds as its total
/// the sum of its children's sizes.
pub proof fn lemma_totals_are_sums(t: FSTree, path: Seq<String>)
    requires
        t.wf(),
        t.lookup(path) matches Some(d) && d.has_contents(),
    ensures
        t.lookup(path)->0.size_value() == sum_sizes(t.lookup(path)->0.children()),
        t.lookup(path)->0.wf(),
    decreases path.len(),
{
    if path.len() > 0 {
        lemma_entry_wf(t, path[0]@);
        lemma_totals_are_sums(t.spec_entry(path[0]@)->0, path.drop_first());
    }
}

/// Looking up names beside the removed path gives what it gave before.
proof fn lemma_without_entry(old: FSTree, new: FSTree, path: Seq<String>, s: int)
    requires
        old.wf(),
        new.wf(),
        old.is_without(new, path, s),
    ensures
        forall|n: Seq<char>| n != path[0]@ ==> #[trigger] new.spec_entry(n) == old.spec_entry(n),
        path.len() == 1 ==> new.spec_entry(path[0]@) is None,
        path.len() > 1 ==> (new.spec_entry(path[0]@) matches Some(b) && old.spec_entry(
            path[0]@,
        )->0.is_without(b, path.drop_first(), s)),
{
    let c0 = old.children();
    let c1 = new.children();
    let i = index_of(c0, path[0]@);
    assert(sorted_names(c0) && sorted_names(c1)) by {
        match old {
            FSTree::Root { contents, .. } => {},
            FSTree::Dir { contents, .. } => {},
            _ => {},
        }
        match new {
            FSTree::Root { contents, .. } => {},
            FSTree::Dir { contents, .. } => {},
            _ => {},
        }
    }
    lemma_child_named_at(c0, i);
    if path.len() == 1 {
        assert(c1 == c0.remove(i));
        assert forall|n: Seq<char>| n != path[0]@ implies #[trigger] new.spec_entry(n)
            == old.spec_entry(n) by {
            if has_name(c0, n) {
                let m = index_of(c0, n);
                lemma_child_named_at(c0, m);
                assert(m != i);
                let m1 = if m < i { m } else { m - 1 };
                assert(c1[m1] == c0[m]);
                lemma_child_named_at(c1, m1);
            } else {
                assert forall|j: int| 0 <= j < c1.len() implies (#[trigger] c1[j].0)@ != n by {
                    let j0 = if j < i { j } else { j + 1 };
                    assert(c1[j] == c0[j0]);
                }
            }
        }
        assert forall|j: int| 0 <= j < c1.len() implies (#[trigger] c1[j].0)@ != path[0]@ by {
            let j0 = if j < i { j } else { j + 1 };
            assert(c1[j] == c0[j0]);
            if c1[j].0@ == path[0]@ {
                lemma_names_unique(c0, i, j0);
            }
        }
    } else {
        assert(c1[i].0 == c0[i].0);
        lemma_child_named_at(c1, i);
        assert forall|n: Seq<char>| n != path[0]@ implies #[trigger] new.spec_entry(n)
            == old.spec_entry(n) by {
            if has_name(c0, n) {
                let m = index_of(c0, n);
                lemma_child_named_at(c0, m);
                assert(c1[m] == c0[m]);
                lemma_child_named_at(c1, m);
            } else {
                assert forall|j: int| 0 <= j < c1.len() implies (#[trigger] c1[j].0)@ != n by {
                    assert(c1[j].0 == c0[j].0);
                }
            }
        }
    }
}

/// Removing the object at `path`, of size `s`, takes exactly `s` off the
/// total of every directory above it (the node at each proper prefix of
/// the path), leaves every entry beside the path as it was, and the object
/// is gone.
pub proof fn lemma_delete_propagates(old: FSTree, new: FSTree, path: Seq<String>, s: int, k: int)
    requires
        old.wf(),
        new.wf(),
        old.removable(path),
        s == old.lookup(path)->0.size_value(),
        old.is_without(new, path, s),
        0 <= k < path.len(),
    ensures
        new.lookup(path.take(k)) is Some,
        old.lookup(path.take(k)) is Some,
        new.lookup(path.take(k))->0.size_value() == old.lookup(path.take(k))->0.size_value() - s,
        same_shell(old.lookup(path.take(k))->0, new.lookup(path.take(k))->0),
        forall|n: Seq<char>|
            n != path[k]@ ==> #[trigger] new.lookup(path.take(k))->0.spec_entry(n) == old.lookup(
                path.take(k),
            )->0.spec_entry(n),
        new.lookup(path) is None,
    decreases path.len(),
{
    lemma_without_entry(old, new, path, s);
    assert(path.take(0) =~= Seq::<String>::empty());
    let a = old.spec_entry(path[0]@)->0;
    let rest = path.drop_first();
    if path.len() == 1 {
        assert(new.lookup(path) is None);
    } else {
        let b = new.spec_entry(path[0]@)->0;
        lemma_entry_wf(old, path[0]@);
        lemma_entry_wf(new, path[0]@);
        assert(old.lookup(path) == a.lookup(rest));
        assert(new.lookup(path) == b.lookup(rest));
        if k > 0 {
            lemma_delete_propagates(a, b, rest, s, k - 1);
            assert(path.take(k)[0] == path[0]);
            assert(path.take(k).drop_first() =~= rest.take(k - 1));
            assert(old.lookup(path.take(k)) == a.lookup(rest.take(k - 1)));
            assert(new.lookup(path.take(k)) == b.lookup(rest.take(k - 1)));
            assert(rest[k - 1] == path[k]);
        } else {
            lemma_delete_propagates(a, b, rest, s, 0);
        }
    }
}

/// Extending a path by one name looks that name up in the node the path
/// addresses.
pub proof fn lemma_lookup_push(t: FSTree, path: Seq<String>, n: String)
    ensures
        t.lookup(path.push(n)) == match t.lookup(path) {
            Some(d) => d.spec_entry(n@),
            None => None,
        },
    decreases path.len(),
{
    if path.len() == 0 {
        assert(path.push(n).drop_first() =~= Seq::<String>::empty());
        assert(path.push(n)[0] == n);
        match t.spec_entry(n@) {
            Some(c) => {
                assert(c.lookup(Seq::<String>::empty()) == Some(c));
            },
            None => {},
        }
    } else {
        assert(path.push(n)[0] == path[0]);
        assert(path.push(n).drop_first() =~= path.drop_first().push(n));
        match t.spec_entry(path[0]@) {
            Some(c) => lemma_lookup_push(c, path.drop_first(), n),
            None => {},
        }
    }
}

/// A path that addresses nothing cannot be removed, so deleting it changes
/// nothing.
pub proof fn lemma_absent_path_not_removable(t: FSTree, path: Seq<String>)
    requires
        t.lookup(path) is None,
    ensures
        !t.removable(path),
{
}

} // verus!
