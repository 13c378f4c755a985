//! The tree listing of `ks ls`: secret paths arranged as a tree of their
//! `/`-separated segments, children in sorted order.
use vstd::prelude::*;

use crate::text::{chars_of, split_on, split_slash};

verus! {

/// Lexicographic order of character sequences (the order of `String`, whose
/// UTF-8 byte order is the order of its code points).
pub open spec fn seq_lt(a: Seq<char>, b: Seq<char>) -> bool
    decreases a.len(),
{
    if a.len() == 0 {
        b.len() > 0
    } else if b.len() == 0 {
        false
    } else if a[0] != b[0] {
        a[0] < b[0]
    } else {
        seq_lt(a.drop_first(), b.drop_first())
    }
}

/// No sequence is before itself.
pub proof fn lemma_seq_lt_irreflexive(a: Seq<char>)
    ensures
        !seq_lt(a, a),
    decreases a.len(),
{
    if a.len() > 0 {
        lemma_seq_lt_irreflexive(a.drop_first());
    }
}

/// Two different sequences are ordered one way or the other.
pub proof fn lemma_seq_lt_total(a: Seq<char>, b: Seq<char>)
    ensures
        a != b ==> seq_lt(a, b) || seq_lt(b, a),
        !(seq_lt(a, b) && seq_lt(b, a)),
    decreases a.len(),
{
    if a.len() > 0 && b.len() > 0 && a[0] == b[0] {
        lemma_seq_lt_total(a.drop_first(), b.drop_first());
        if a != b {
            assert(a.drop_first() != b.drop_first()) by {
                if a.drop_first() == b.drop_first() {
                    assert(a == seq![a[0]] + a.drop_first());
                    assert(b == seq![b[0]] + b.drop_first());
                }
            }
        }
    } else if a.len() == 0 && b.len() == 0 {
        assert(a == b);
    }
}

/// The order is transitive.
pub proof fn lemma_seq_lt_transitive(a: Seq<char>, b: Seq<char>, c: Seq<char>)
    requires
        seq_lt(a, b),
        seq_lt(b, c),
    ensures
        seq_lt(a, c),
    decreases a.len(),
{
    if a.len() > 0 && b.len() > 0 && c.len() > 0 && a[0] == b[0] && b[0] == c[0] {
        lemma_seq_lt_transitive(a.drop_first(), b.drop_first(), c.drop_first());
    }
}

/// Whether `a` comes before `b` in `String` order.
pub fn less(a: &str, b: &str) -> (r: bool)
    ensures
        r == seq_lt(a@, b@),
{
    let x = chars_of(a);
    let y = chars_of(b);
    let mut i: usize = 0;
    assert(x@.skip(0) == x@);
    assert(y@.skip(0) == y@);
    while i < x.len() && i < y.len() && x[i] == y[i]
        invariant
            i <= x@.len(),
            i <= y@.len(),
            seq_lt(a@, b@) == seq_lt(x@.skip(i as int), y@.skip(i as int)),
            x@ == a@,
            y@ == b@,
        decreases x.len() - i,
    {
        assert(x@.skip(i as int).drop_first() == x@.skip(i + 1));
        assert(y@.skip(i as int).drop_first() == y@.skip(i + 1));
        i = i + 1;
    }
    if i == x.len() {
        i < y.len()
    } else if i == y.len() {
        false
    } else {
        x[i] < y[i]
    }
}

/// One node of the tree: its children by segment name, and whether a secret
/// ends here.
#[derive(Debug)]
pub struct Node {
    /// Children, sorted by name.
    pub children: Vec<(String, Node)>,
    /// Whether a listed path ends at this node.
    pub is_leaf: bool,
}

/// Children are in strictly increasing name order (so names are unique).
pub open spec fn sorted(cs: Seq<(String, Node)>) -> bool {
    forall|i: int, j: int| 0 <= i < j < cs.len() ==> seq_lt(#[trigger] cs[i].0@, #[trigger] cs[j].0@)
}

/// A listed path ends at `n` or somewhere below it.
pub open spec fn nonempty(n: Node) -> bool {
    n.is_leaf || n.children@.len() > 0
}

/// Every node of the tree has sorted children, and every child leads to a
/// listed path.
pub open spec fn wf(n: Node) -> bool
    decreases n,
{
    &&& sorted(n.children@)
    &&& forall|i: int|
        0 <= i < n.children@.len() ==> wf(#[trigger] n.children@[i].1) && nonempty(
            n.children@[i].1,
        )
}

/// The `i`-th child of `n` is well formed and leads to a listed path.
pub open spec fn wf_child(n: Node, i: int) -> bool {
    0 <= i < n.children@.len() ==> wf(n.children@[i].1) && nonempty(n.children@[i].1)
}


/// The first index at or after `i` of a child named `k`.
pub open spec fn find_key(cs: Seq<(String, Node)>, k: Seq<char>, i: int) -> Option<int>
    decreases cs.len() - i,
{
    if i < 0 || i >= cs.len() {
        None
    } else if cs[i].0@ == k {
        Some(i)
    } else {
        find_key(cs, k, i + 1)
    }
}

/// `find_key` answers the first child with that name.
pub proof fn lemma_find_key(cs: Seq<(String, Node)>, k: Seq<char>, i: int)
    requires
        0 <= i,
    ensures
        find_key(cs, k, i) matches Some(j) ==> i <= j < cs.len() && cs[j].0@ == k && forall|m: int|
            i <= m < j ==> cs[m].0@ != k,
        find_key(cs, k, i) is None ==> forall|m: int| i <= m < cs.len() ==> cs[m].0@ != k,
    decreases cs.len() - i,
{
    if i < cs.len() && cs[i].0@ != k {
        lemma_find_key(cs, k, i + 1);
    }
}

/// In a sorted list, the child named `k` is found exactly where it is.
pub proof fn lemma_find_key_sorted(cs: Seq<(String, Node)>, k: Seq<char>)
    requires
        sorted(cs),
    ensures
        forall|j: int| 0 <= j < cs.len() && cs[j].0@ == k ==> find_key(cs, k, 0) == Some(j),
        find_key(cs, k, 0) is None <==> forall|j: int| 0 <= j < cs.len() ==> cs[j].0@ != k,
{
    lemma_find_key(cs, k, 0);
    assert forall|j: int| 0 <= j < cs.len() && cs[j].0@ == k implies find_key(cs, k, 0) == Some(j) by {
        match find_key(cs, k, 0) {
            Some(m) => {
                if m < j {
                    assert(seq_lt(cs[m].0@, cs[j].0@));
                    lemma_seq_lt_irreflexive(k);
                }
            },
            None => {},
        }
    }
}

/// Whether the segment path `p` leads from `n` to a node where a listed path
/// ends.
pub open spec fn has_path(n: Node, p: Seq<Seq<char>>) -> bool
    decreases p.len(),
{
    if p.len() == 0 {
        n.is_leaf
    } else {
        match find_key(n.children@, p[0], 0) {
            Some(i) => has_path(n.children@[i].1, p.drop_first()),
            None => false,
        }
    }
}

/// The segments of `parts`.
pub open spec fn segments(parts: Seq<&str>) -> Seq<Seq<char>> {
    parts.map_values(|s: &str| s@)
}

impl Node {
    /// An empty node: no children, no path ends here.
    pub fn new() -> (n: Node)
        ensures
            wf(n),
            n.children@.len() == 0,
            !n.is_leaf,
    {
        Node { children: Vec::new(), is_leaf: false }
    }

    /// Adds the path whose segments are `parts`; the tree then lists exactly
    /// the paths it listed before and this one.
    pub fn insert(&mut self, parts: &[&str])
        requires
            wf(*old(self)),
        ensures
            wf(*final(self)),
            forall|q: Seq<Seq<char>>|
                has_path(*final(self), q) <==> has_path(*old(self), q) || q == segments(parts@),
            has_path(*old(self), segments(parts@)) ==> same_tree(*old(self), *final(self)),
            forall|k: int|
                0 <= k <= parts@.len() ==> #[trigger] subtree_at(
                    *final(self),
                    segments(parts@).take(k),
                ) is Some,
            subtree_at(*final(self), segments(parts@)) matches Some(s) && s.is_leaf,
            forall|r: Seq<Seq<char>>|
                #![trigger subtree_at(*final(self), r)]
                !is_prefix(r, segments(parts@)) ==> same_subtree(
                    subtree_at(*old(self), r),
                    subtree_at(*final(self), r),
                ),
    {
        self.insert_from(parts, 0);
        assert(segments(parts@).skip(0) == segments(parts@));
        proof {
            lemma_insert_shape(*old(self), *self, segments(parts@));
            if has_path(*old(self), segments(parts@)) {
                assert(same_paths(*old(self), *self));
                lemma_same_paths_same_tree(*old(self), *self);
            }
        }
    }

    fn insert_from(&mut self, parts: &[&str], i: usize)
        requires
            wf(*old(self)),
            i <= parts@.len(),
        ensures
            wf(*final(self)),
            forall|q: Seq<Seq<char>>|
                has_path(*final(self), q) <==> has_path(*old(self), q) || q == segments(
                    parts@,
                ).skip(i as int),
        decreases parts@.len() - i,
    {
        let ghost segs = segments(parts@);
        let ghost goal = segs.skip(i as int);
        if i == parts.len() {
            self.is_leaf = true;
            assert forall|q: Seq<Seq<char>>|
                has_path(*self, q) <==> has_path(*old(self), q) || q == goal by {
                if q.len() == 0 {
                    assert(q == goal);
                } else {
                    assert(q != goal);
                }
            }
            assert forall|j: int| 0 <= j < self.children@.len() implies #[trigger] wf_child(
                *self,
                j,
            ) by {
                assert(wf_child(*old(self), j));
            }
            return;
        }
        let k: &str = parts[i];
        assert(goal.len() > 0 && goal[0] == k@);
        assert(goal.drop_first() == segs.skip(i + 1));
        let n = self.children.len();
        let mut j: usize = 0;
        while j < n && less(self.children[j].0.as_str(), k)
            invariant
                j <= n == self.children@.len(),
                *self == *old(self),
                forall|m: int| 0 <= m < j ==> seq_lt(#[trigger] self.children@[m].0@, k@),
            decreases n - j,
        {
            j = j + 1;
        }
        let found = j < n && self.children[j].0 == k.to_owned();
        let ghost old_cs = self.children@;
        let ghost old_node = *self;
        assert(old_node == *old(self));
        proof {
            assert(wf_child(old_node, j as int));
            lemma_find_key_sorted(old_cs, k@);
        }
        if found {
            let (name, mut child) = self.children.remove(j);
            let ghost c0 = child;
            assert(c0 == old_cs[j as int].1);
            child.insert_from(parts, i + 1);
            let ghost c1 = child;
            self.children.insert(j, (name, child));
            proof {
                assert(has_path(c1, segs.skip(i + 1)));
                lemma_has_path_nonempty(c1, segs.skip(i + 1));
                let new_cs = self.children@;
                assert(new_cs[j as int].1 == c1);
                assert(new_cs.len() == old_cs.len());
                assert forall|m: int| 0 <= m < new_cs.len() && m != j implies new_cs[m]
                    == old_cs[m] by {}
                assert forall|m: int| 0 <= m < new_cs.len() implies new_cs[m].0@ == old_cs[m].0@ by {}
                assert(sorted(new_cs));
                assert forall|m: int| 0 <= m < new_cs.len() implies #[trigger] wf_child(*self, m) by {
                    assert(wf_child(old_node, m));
                }
                lemma_find_key_sorted(new_cs, k@);
                assert forall|q: Seq<Seq<char>>|
                    has_path(*self, q) <==> has_path(old_node, q) || q == goal by {
                    if q.len() > 0 {
                        lemma_find_key_sorted(new_cs, q[0]);
                        lemma_find_key_sorted(old_cs, q[0]);
                        if q[0] == k@ {
                            assert(find_key(new_cs, k@, 0) == Some(j as int));
                            assert(find_key(old_cs, k@, 0) == Some(j as int));
                            assert(has_path(*self, q) == has_path(c1, q.drop_first()));
                            assert(has_path(old_node, q) == has_path(c0, q.drop_first()));
                            if q == goal {
                                assert(q.drop_first() == segs.skip(i + 1));
                            }
                            if q.drop_first() == segs.skip(i + 1) {
                                assert(q == seq![q[0]] + q.drop_first());
                                assert(goal == seq![goal[0]] + goal.drop_first());
                            }
                        } else {
                            assert(q != goal);
                            match find_key(old_cs, q[0], 0) {
                                Some(m) => {
                                    assert(m != j);
                                    assert(find_key(new_cs, q[0], 0) == Some(m));
                                },
                                None => {
                                    assert(find_key(new_cs, q[0], 0) is None);
                                },
                            }
                        }
                    } else {
                        assert(q != goal);
                    }
                }
                assert(forall|q: Seq<Seq<char>>| has_path(*self, q) <==> has_path(*old(self), q) || q == segments(parts@).skip(i as int));
            }
        } else {
            let mut child = Node::new();
            let ghost empty = child;
            child.insert_from(parts, i + 1);
            let ghost c1 = child;
            self.children.insert(j, (k.to_owned(), child));
            proof {
                assert(has_path(c1, segs.skip(i + 1)));
                lemma_has_path_nonempty(c1, segs.skip(i + 1));
                let new_cs = self.children@;
                let kk = new_cs[j as int].0@;
                assert(kk == k@);
                assert(new_cs.len() == old_cs.len() + 1);
                assert forall|m: int| 0 <= m < j implies new_cs[m] == old_cs[m] by {}
                assert forall|m: int| j < m < new_cs.len() implies new_cs[m] == old_cs[m - 1] by {}
                if j < n {
                    lemma_seq_lt_total(old_cs[j as int].0@, k@);
                    assert(old_cs[j as int].0@ != k@);
                    assert(seq_lt(k@, old_cs[j as int].0@));
                }
                assert forall|a: int, b: int| 0 <= a < b < new_cs.len() implies seq_lt(
                    #[trigger] new_cs[a].0@,
                    #[trigger] new_cs[b].0@,
                ) by {
                    if b < j {
                    } else if b == j {
                        assert(seq_lt(old_cs[a].0@, k@));
                    } else if a > j {
                        assert(seq_lt(old_cs[a - 1].0@, old_cs[b - 1].0@));
                    } else if a == j {
                        if b - 1 > j {
                            assert(seq_lt(old_cs[j as int].0@, old_cs[b - 1].0@));
                            lemma_seq_lt_transitive(k@, old_cs[j as int].0@, old_cs[b - 1].0@);
                        }
                    } else {
                        assert(seq_lt(old_cs[a].0@, old_cs[b - 1].0@));
                    }
                }
                assert(sorted(new_cs));
                assert forall|m: int| 0 <= m < new_cs.len() implies #[trigger] wf_child(*self, m) by {
                    if m < j {
                        assert(wf_child(old_node, m));
                    } else if m > j {
                        assert(wf_child(old_node, m - 1));
                    }
                }
                lemma_find_key_sorted(new_cs, k@);
                assert forall|q: Seq<Seq<char>>|
                    has_path(*self, q) <==> has_path(old_node, q) || q == goal by {
                    if q.len() > 0 {
                        lemma_find_key_sorted(new_cs, q[0]);
                        lemma_find_key_sorted(old_cs, q[0]);
                        if q[0] == k@ {
                            assert(find_key(new_cs, k@, 0) == Some(j as int));
                            assert forall|m: int| 0 <= m < old_cs.len() implies old_cs[m].0@ != k@ by {
                                if m < j {
                                    lemma_seq_lt_irreflexive(k@);
                                } else {
                                    if m > j {
                                        lemma_seq_lt_transitive(
                                            k@,
                                            old_cs[j as int].0@,
                                            old_cs[m].0@,
                                        );
                                    }
                                    lemma_seq_lt_irreflexive(k@);
                                }
                            }
                            assert(find_key(old_cs, k@, 0) is None);
                            lemma_empty_has_no_path(empty, q.drop_first());
                            if q == goal {
                                assert(q.drop_first() == segs.skip(i + 1));
                            }
                            if q.drop_first() == segs.skip(i + 1) {
                                assert(q == seq![q[0]] + q.drop_first());
                                assert(goal == seq![goal[0]] + goal.drop_first());
                            }
                        } else {
                            assert(q != goal);
                            match find_key(old_cs, q[0], 0) {
                                Some(m) => {
                                    if m < j {
                                        assert(find_key(new_cs, q[0], 0) == Some(m));
                                    } else {
                                        assert(new_cs[m + 1] == old_cs[m]);
                                        assert(find_key(new_cs, q[0], 0) == Some(m + 1));
                                    }
                                },
                                None => {
                                    assert forall|m: int| 0 <= m < new_cs.len() implies new_cs[m].0@
                                        != q[0] by {
                                        if m > j {
                                            assert(new_cs[m] == old_cs[m - 1]);
                                        }
                                    }
                                    assert(find_key(new_cs, q[0], 0) is None);
                                },
                            }
                        }
                    } else {
                        assert(q != goal);
                    }
                }
                assert(forall|q: Seq<Seq<char>>| has_path(*self, q) <==> has_path(*old(self), q) || q == segments(parts@).skip(i as int));
            }
        }
    }
}

/// A node with no children and no path ending at it lists nothing.
pub proof fn lemma_empty_has_no_path(n: Node, q: Seq<Seq<char>>)
    requires
        n.children@.len() == 0,
        !n.is_leaf,
    ensures
        !has_path(n, q),
{
}

/// `a` and `b` list the same paths.
pub open spec fn same_paths(a: Node, b: Node) -> bool {
    forall|q: Seq<Seq<char>>|
        #![trigger has_path(a, q)]
        #![trigger has_path(b, q)]
        has_path(a, q) <==> has_path(b, q)
}

/// A well-formed node that is not empty lists some path.
proof fn lemma_nonempty_has_path(n: Node) -> (q: Seq<Seq<char>>)
    requires
        wf(n),
        nonempty(n),
    ensures
        has_path(n, q),
    decreases n,
{
    if n.is_leaf {
        Seq::empty()
    } else {
        let k = n.children@[0].0@;
        let c = n.children@[0].1;
        assert(wf(c) && nonempty(c));
        let rest = lemma_nonempty_has_path(c);
        let q = seq![k] + rest;
        assert(q[0] == k);
        assert(q.drop_first() == rest);
        assert(find_key(n.children@, k, 0) == Some(0int));
        q
    }
}

/// Two strictly sorted sequences with the same elements are equal.
proof fn lemma_sorted_unique(x: Seq<Seq<char>>, y: Seq<Seq<char>>)
    requires
        forall|i: int, j: int| 0 <= i < j < x.len() ==> seq_lt(#[trigger] x[i], #[trigger] x[j]),
        forall|i: int, j: int| 0 <= i < j < y.len() ==> seq_lt(#[trigger] y[i], #[trigger] y[j]),
        forall|k: Seq<char>| x.contains(k) <==> y.contains(k),
    ensures
        x == y,
    decreases x.len(),
{
    if x.len() == 0 {
        if y.len() > 0 {
            assert(y.contains(y[0]));
        }
        assert(x =~= y);
    } else {
        assert(x.contains(x[0]));
        let j = choose|j: int| 0 <= j < y.len() && y[j] == x[0];
        assert(y.contains(y[0]));
        let i = choose|i: int| 0 <= i < x.len() && x[i] == y[0];
        if x[0] != y[0] {
            assert(j > 0 && i > 0);
            assert(seq_lt(y[0], y[j]));
            assert(seq_lt(x[0], x[i]));
            lemma_seq_lt_transitive(x[0], y[0], x[0]);
            lemma_seq_lt_irreflexive(x[0]);
        }
        let xs = x.drop_first();
        let ys = y.drop_first();
        assert forall|k: Seq<char>| xs.contains(k) <==> ys.contains(k) by {
            if xs.contains(k) {
                let a = choose|a: int| 0 <= a < xs.len() && xs[a] == k;
                assert(x[a + 1] == k);
                assert(y.contains(k));
                let b = choose|b: int| 0 <= b < y.len() && y[b] == k;
                if b == 0 {
                    assert(seq_lt(x[0], x[a + 1]));
                    lemma_seq_lt_irreflexive(k);
                }
                assert(ys[b - 1] == k);
            }
            if ys.contains(k) {
                let b = choose|b: int| 0 <= b < ys.len() && ys[b] == k;
                assert(y[b + 1] == k);
                assert(x.contains(k));
                let a = choose|a: int| 0 <= a < x.len() && x[a] == k;
                if a == 0 {
                    assert(seq_lt(y[0], y[b + 1]));
                    lemma_seq_lt_irreflexive(k);
                }
                assert(xs[a - 1] == k);
            }
        }
        assert forall|a: int, b: int| 0 <= a < b < xs.len() implies seq_lt(
            #[trigger] xs[a],
            #[trigger] xs[b],
        ) by {
            assert(seq_lt(x[a + 1], x[b + 1]));
        }
        assert forall|a: int, b: int| 0 <= a < b < ys.len() implies seq_lt(
            #[trigger] ys[a],
            #[trigger] ys[b],
        ) by {
            assert(seq_lt(y[a + 1], y[b + 1]));
        }
        lemma_sorted_unique(xs, ys);
        assert(x =~= seq![x[0]] + xs);
        assert(y =~= seq![y[0]] + ys);
    }
}

/// The names of the children of `n`.
spec fn child_names(n: Node) -> Seq<Seq<char>> {
    n.children@.map_values(|e: (String, Node)| e.0@)
}

/// Two well-formed nodes that list the same paths have children of the same
/// names, in the same order, each pair listing the same paths.
proof fn lemma_same_children(a: Node, b: Node)
    requires
        wf(a),
        wf(b),
        same_paths(a, b),
    ensures
        a.children@.len() == b.children@.len(),
        forall|i: int|
            #![trigger a.children@[i]]
            0 <= i < a.children@.len() ==> a.children@[i].0@ == b.children@[i].0@ && same_paths(
                a.children@[i].1,
                b.children@[i].1,
            ),
{
    let ca = a.children@;
    let cb = b.children@;
    let na = child_names(a);
    let nb = child_names(b);
    assert forall|k: Seq<char>| na.contains(k) implies nb.contains(k) by {
        let i = choose|i: int| 0 <= i < na.len() && na[i] == k;
        assert(ca[i].0@ == k);
        assert(wf_child(a, i));
        let rest = lemma_nonempty_has_path(ca[i].1);
        let q = seq![k] + rest;
        assert(q[0] == k && q.drop_first() == rest);
        lemma_find_key_sorted(ca, k);
        assert(has_path(a, q));
        assert(has_path(b, q));
        lemma_find_key(cb, k, 0);
        let j = find_key(cb, k, 0)->0;
        assert(nb[j] == k);
    }
    assert forall|k: Seq<char>| nb.contains(k) implies na.contains(k) by {
        let j = choose|j: int| 0 <= j < nb.len() && nb[j] == k;
        assert(cb[j].0@ == k);
        assert(wf_child(b, j));
        let rest = lemma_nonempty_has_path(cb[j].1);
        let q = seq![k] + rest;
        assert(q[0] == k && q.drop_first() == rest);
        lemma_find_key_sorted(cb, k);
        assert(has_path(b, q));
        assert(has_path(a, q));
        lemma_find_key(ca, k, 0);
        let i = find_key(ca, k, 0)->0;
        assert(na[i] == k);
    }
    assert forall|i: int, j: int| 0 <= i < j < na.len() implies seq_lt(
        #[trigger] na[i],
        #[trigger] na[j],
    ) by {
        assert(seq_lt(ca[i].0@, ca[j].0@));
    }
    assert forall|i: int, j: int| 0 <= i < j < nb.len() implies seq_lt(
        #[trigger] nb[i],
        #[trigger] nb[j],
    ) by {
        assert(seq_lt(cb[i].0@, cb[j].0@));
    }
    lemma_sorted_unique(na, nb);
    assert forall|i: int| #![trigger ca[i]] 0 <= i < ca.len() implies ca[i].0@ == cb[i].0@
        && same_paths(ca[i].1, cb[i].1) by {
        assert(na[i] == nb[i]);
        let k = ca[i].0@;
        lemma_find_key_sorted(ca, k);
        lemma_find_key_sorted(cb, k);
        assert forall|q: Seq<Seq<char>>| has_path(ca[i].1, q) <==> has_path(cb[i].1, q) by {
            let qq = seq![k] + q;
            assert(qq[0] == k && qq.drop_first() == q);
            assert(has_path(a, qq) == has_path(ca[i].1, q));
            assert(has_path(b, qq) == has_path(cb[i].1, q));
        }
    }
}

/// A node that lists a path is not empty.
proof fn lemma_has_path_nonempty(n: Node, q: Seq<Seq<char>>)
    requires
        has_path(n, q),
    ensures
        nonempty(n),
{
    if q.len() > 0 {
        lemma_find_key(n.children@, q[0], 0);
    }
}


/// One line of the tree listing.
#[derive(Debug)]
pub struct TreeLine {
    /// The tree guides drawn before the name (`│   ├── `…); empty at the top level.
    pub guide: String,
    /// The segment name, with a trailing `/` when it has children.
    pub label: String,
    /// Whether the entry has children (and is drawn as a directory).
    pub is_dir: bool,
}

/// The texts of a tree line.
pub open spec fn tree_line_view(l: TreeLine) -> (Seq<char>, Seq<char>, bool) {
    (l.guide@, l.label@, l.is_dir)
}

/// The connector drawn before an entry.
pub open spec fn connector(is_last: bool) -> Seq<char> {
    if is_last {
        "└── "@
    } else {
        "├── "@
    }
}

/// The guide continued below an entry, for its children.
pub open spec fn extension(is_last: bool) -> Seq<char> {
    if is_last {
        "    "@
    } else {
        "│   "@
    }
}

/// The line for the entry `name` with node `child`.
pub open spec fn entry_line(name: Seq<char>, child: Node, prefix: Seq<char>, top: bool, is_last: bool) -> (
    Seq<char>,
    Seq<char>,
    bool,
) {
    let is_dir = child.children@.len() > 0;
    (
        if top {
            Seq::empty()
        } else {
            prefix + connector(is_last)
        },
        if is_dir {
            name + seq!['/']
        } else {
            name
        },
        is_dir,
    )
}

/// The guide prefix handed to the children of an entry.
pub open spec fn child_prefix(prefix: Seq<char>, top: bool, is_last: bool) -> Seq<char> {
    if top {
        Seq::empty()
    } else {
        prefix + extension(is_last)
    }
}

/// The lines of the entries `cs` (the tail of a node's children, so the last
/// of them is the node's last child), each followed by its own subtree.
pub open spec fn render_entries(cs: Seq<(String, Node)>, prefix: Seq<char>, top: bool) -> Seq<
    (Seq<char>, Seq<char>, bool),
>
    decreases cs,
{
    if cs.len() == 0 {
        Seq::empty()
    } else {
        let is_last = cs.len() == 1;
        seq![entry_line(cs[0].0@, cs[0].1, prefix, top, is_last)] + render_node(
            cs[0].1,
            child_prefix(prefix, top, is_last),
            false,
        ) + render_entries(cs.subrange(1, cs.len() as int), prefix, top)
    }
}

/// The lines of the subtree below `n`, whose entries are drawn after `prefix`
/// (`top` for the children of the root, which are drawn bare).
pub open spec fn render_node(n: Node, prefix: Seq<char>, top: bool) -> Seq<
    (Seq<char>, Seq<char>, bool),
>
    decreases n,
{
    render_entries(n.children@, prefix, top)
}

/// `a` and `b` are the same tree: the same leaf flags and the same children,
/// by name and in order, all the way down.
pub open spec fn same_tree(a: Node, b: Node) -> bool
    decreases a,
{
    &&& a.is_leaf == b.is_leaf
    &&& a.children@.len() == b.children@.len()
    &&& forall|i: int|
        #![trigger a.children@[i]]
        0 <= i < a.children@.len() ==> a.children@[i].0@ == b.children@[i].0@ && same_tree(
            a.children@[i].1,
            b.children@[i].1,
        )
}

/// A well-formed tree is determined by the paths it lists: two well-formed
/// trees that list the same paths are the same tree.
pub proof fn lemma_same_paths_same_tree(a: Node, b: Node)
    requires
        wf(a),
        wf(b),
        same_paths(a, b),
    ensures
        same_tree(a, b),
    decreases a,
{
    assert(has_path(a, Seq::empty()) == has_path(b, Seq::empty()));
    lemma_same_children(a, b);
    assert forall|i: int| #![trigger a.children@[i]] 0 <= i < a.children@.len() implies a.children@[
        i
    ].0@ == b.children@[i].0@ && same_tree(a.children@[i].1, b.children@[i].1) by {
        assert(wf_child(a, i));
        assert(wf_child(b, i));
        lemma_same_paths_same_tree(a.children@[i].1, b.children@[i].1);
    }
}

/// `new` lists exactly the paths of `old` and `p`: what inserting `p` into
/// `old` gives.
pub open spec fn inserted(old: Node, new: Node, p: Seq<Seq<char>>) -> bool {
    forall|q: Seq<Seq<char>>| #[trigger] has_path(new, q) <==> has_path(old, q) || q == p
}

/// The subtree reached from `n` by following the segments `r`, if any.
pub open spec fn subtree_at(n: Node, r: Seq<Seq<char>>) -> Option<Node>
    decreases r.len(),
{
    if r.len() == 0 {
        Some(n)
    } else {
        match find_key(n.children@, r[0], 0) {
            Some(i) => subtree_at(n.children@[i].1, r.drop_first()),
            None => None,
        }
    }
}

/// Whether `r` is a prefix of `p`.
pub open spec fn is_prefix(r: Seq<Seq<char>>, p: Seq<Seq<char>>) -> bool {
    r.len() <= p.len() && p.take(r.len() as int) == r
}

/// The subtrees `a` and `b` are both absent, or both present and the same
/// tree.
pub open spec fn same_subtree(a: Option<Node>, b: Option<Node>) -> bool {
    match (a, b) {
        (Some(x), Some(y)) => same_tree(x, y),
        (None, None) => true,
        _ => false,
    }
}

/// The subtree at `r` lists exactly the paths that continue `r`.
proof fn lemma_subtree_at(n: Node, r: Seq<Seq<char>>, q: Seq<Seq<char>>)
    requires
        wf(n),
    ensures
        subtree_at(n, r) matches Some(s) ==> wf(s) && (r.len() > 0 ==> nonempty(s)) && (has_path(
            s,
            q,
        ) == has_path(n, r + q)),
        subtree_at(n, r) is None ==> !has_path(n, r + q),
    decreases r.len(),
{
    if r.len() == 0 {
        assert(r + q =~= q);
    } else {
        let rq = r + q;
        assert(rq[0] == r[0]);
        assert(rq.drop_first() =~= r.drop_first() + q);
        lemma_find_key(n.children@, r[0], 0);
        match find_key(n.children@, r[0], 0) {
            Some(i) => {
                assert(wf_child(n, i));
                lemma_subtree_at(n.children@[i].1, r.drop_first(), q);
            },
            None => {},
        }
    }
}

/// Inserting the path `p` into a well-formed tree (giving `new`): every
/// prefix of `p` leads to a node, a path ends at the node `p` leads to, and
/// every subtree off `p` is as it was (present or absent, with the same
/// shape).
pub proof fn lemma_insert_shape(old: Node, new: Node, p: Seq<Seq<char>>)
    requires
        wf(old),
        wf(new),
        inserted(old, new, p),
    ensures
        forall|k: int| 0 <= k <= p.len() ==> #[trigger] subtree_at(new, p.take(k)) is Some,
        subtree_at(new, p) matches Some(s) && s.is_leaf,
        forall|r: Seq<Seq<char>>|
            #![trigger subtree_at(new, r)]
            !is_prefix(r, p) ==> same_subtree(subtree_at(old, r), subtree_at(new, r)),
{
    assert forall|k: int| 0 <= k <= p.len() implies #[trigger] subtree_at(new, p.take(k)) is Some by {
        lemma_subtree_at(new, p.take(k), p.skip(k));
        assert(p.take(k) + p.skip(k) =~= p);
        assert(has_path(new, p));
    }
    lemma_subtree_at(new, p, Seq::empty());
    assert(p + Seq::<Seq<char>>::empty() =~= p);
    assert(has_path(new, p));
    assert forall|r: Seq<Seq<char>>|
        #![trigger subtree_at(new, r)]
        !is_prefix(r, p) implies same_subtree(subtree_at(old, r), subtree_at(new, r)) by {
        assert forall|q: Seq<Seq<char>>| has_path(new, r + q) == has_path(old, r + q) by {
            if r + q == p {
                assert((r + q).take(r.len() as int) =~= r);
            }
        }
        if r.len() == 0 {
            assert(p.take(0) =~= r);
        }
        match subtree_at(old, r) {
            Some(a) => {
                lemma_subtree_at(old, r, Seq::empty());
                let q0 = lemma_nonempty_has_path(a);
                lemma_subtree_at(old, r, q0);
                lemma_subtree_at(new, r, q0);
                assert(has_path(new, r + q0));
                let b = subtree_at(new, r)->0;
                lemma_subtree_at(new, r, Seq::empty());
                assert forall|q: Seq<Seq<char>>| has_path(a, q) <==> has_path(b, q) by {
                    lemma_subtree_at(old, r, q);
                    lemma_subtree_at(new, r, q);
                }
                assert(same_paths(a, b));
                lemma_same_paths_same_tree(a, b);
            },
            None => {
                match subtree_at(new, r) {
                    Some(b) => {
                        lemma_subtree_at(new, r, Seq::empty());
                        let q0 = lemma_nonempty_has_path(b);
                        lemma_subtree_at(new, r, q0);
                        lemma_subtree_at(old, r, q0);
                        assert(has_path(old, r + q0));
                    },
                    None => {},
                }
            },
        }
    }
}

/// Inserting `p` then `q` into a tree gives the same tree as inserting `q`
/// then `p`.
pub proof fn lemma_inserts_commute(
    t: Node,
    tp: Node,
    tpq: Node,
    tq: Node,
    tqp: Node,
    p: Seq<Seq<char>>,
    q: Seq<Seq<char>>,
)
    requires
        wf(tpq),
        wf(tqp),
        inserted(t, tp, p),
        inserted(tp, tpq, q),
        inserted(t, tq, q),
        inserted(tq, tqp, p),
    ensures
        same_tree(tpq, tqp),
{
    assert forall|r: Seq<Seq<char>>| has_path(tpq, r) <==> has_path(tqp, r) by {
        assert(has_path(tpq, r) == (has_path(tp, r) || r == q));
        assert(has_path(tp, r) == (has_path(t, r) || r == p));
        assert(has_path(tqp, r) == (has_path(tq, r) || r == p));
        assert(has_path(tq, r) == (has_path(t, r) || r == q));
    }
    lemma_same_paths_same_tree(tpq, tqp);
}

/// The entries of the tree below `n`, one per node in depth-first order, each
/// with its name, whether it has children, its depth (the children of `n`
/// being at depth `d`), whether it is the last of its siblings, and whether
/// each of its ancestors was the last of its own siblings (outermost first,
/// after the given `anc`).
pub open spec fn outline_node(n: Node, d: nat, anc: Seq<bool>) -> Seq<
    (Seq<char>, bool, nat, bool, Seq<bool>),
>
    decreases n,
{
    outline_entries(n.children@, d, anc)
}

/// The entries of the sibling list `cs` (at depth `d`, below ancestors whose
/// last-sibling flags are `anc`) and of their subtrees.
pub open spec fn outline_entries(cs: Seq<(String, Node)>, d: nat, anc: Seq<bool>) -> Seq<
    (Seq<char>, bool, nat, bool, Seq<bool>),
>
    decreases cs,
{
    if cs.len() == 0 {
        Seq::empty()
    } else {
        let last = cs.len() == 1;
        seq![(cs[0].0@, cs[0].1.children@.len() > 0, d, last, anc)] + outline_node(
            cs[0].1,
            d + 1,
            anc.push(last),
        ) + outline_entries(cs.subrange(1, cs.len() as int), d, anc)
    }
}

/// The guide segment below an ancestor: a bar while that ancestor has
/// siblings still to come, blank after the last one.
pub open spec fn bar(ancestor_last: bool) -> Seq<char> {
    if ancestor_last {
        "    "@
    } else {
        "│   "@
    }
}

/// The guide segments below the ancestors `flags`, outermost first.
pub open spec fn bars(flags: Seq<bool>) -> Seq<char>
    decreases flags.len(),
{
    if flags.len() == 0 {
        Seq::empty()
    } else {
        bar(flags[0]) + bars(flags.drop_first())
    }
}

/// The line `l` draws the entry `o` of a listing that starts at depth `d`
/// below ancestors `a`, after `prefix` (bare when `top`): its name (with `/`
/// after a name that has children); a guide made of `prefix`, then one
/// segment per ancestor below the starting depth (a bar while that ancestor
/// has later siblings, blank otherwise), then `└── ` for the last of its
/// siblings and `├── ` for the others; top-level entries of a bare listing
/// have no guide, and their own level adds no segment.
pub open spec fn drawn_as(
    l: (Seq<char>, Seq<char>, bool),
    o: (Seq<char>, bool, nat, bool, Seq<bool>),
    prefix: Seq<char>,
    top: bool,
    d: nat,
    a: Seq<bool>,
) -> bool {
    &&& o.2 >= d
    &&& o.4.len() == a.len() + (o.2 - d)
    &&& o.4.take(a.len() as int) == a
    &&& l.1 == (if o.1 {
        o.0.push('/')
    } else {
        o.0
    })
    &&& l.2 == o.1
    &&& l.0 == (if top && o.2 == d {
        Seq::empty()
    } else {
        (if top {
            Seq::empty()
        } else {
            prefix
        }) + bars(o.4.skip(a.len() + (if top {
            1int
        } else {
            0int
        }))) + (if o.3 {
            "└── "@
        } else {
            "├── "@
        })
    })
}

/// Every node of the tree below `n` is drawn, in depth-first order, by exactly
/// one line: the listing has one line per node, labelled with the node's name,
/// with a guide that shows, level by level, which of its ancestors have
/// siblings still to come, and whether it is the last of its own siblings.
pub proof fn lemma_render_outline(n: Node, prefix: Seq<char>, top: bool, d: nat, a: Seq<bool>)
    ensures
        render_node(n, prefix, top).len() == outline_node(n, d, a).len(),
        forall|i: int|
            0 <= i < outline_node(n, d, a).len() ==> drawn_as(
                #[trigger] render_node(n, prefix, top)[i],
                outline_node(n, d, a)[i],
                prefix,
                top,
                d,
                a,
            ),
    decreases n,
{
    lemma_entries_outline(n.children@, prefix, top, d, a);
}

proof fn lemma_entries_outline(
    cs: Seq<(String, Node)>,
    prefix: Seq<char>,
    top: bool,
    d: nat,
    a: Seq<bool>,
)
    ensures
        render_entries(cs, prefix, top).len() == outline_entries(cs, d, a).len(),
        forall|i: int|
            0 <= i < outline_entries(cs, d, a).len() ==> drawn_as(
                #[trigger] render_entries(cs, prefix, top)[i],
                outline_entries(cs, d, a)[i],
                prefix,
                top,
                d,
                a,
            ),
    decreases cs,
{
    if cs.len() > 0 {
        let last = cs.len() == 1;
        let c = cs[0];
        let cp = child_prefix(prefix, top, last);
        let ca = a.push(last);
        let rest = cs.subrange(1, cs.len() as int);
        lemma_render_outline(c.1, cp, false, d + 1, ca);
        lemma_entries_outline(rest, prefix, top, d, a);
        let line0 = entry_line(c.0@, c.1, prefix, top, last);
        let o0 = (c.0@, c.1.children@.len() > 0, d, last, a);
        let rc = render_node(c.1, cp, false);
        let oc = outline_node(c.1, d + 1, ca);
        let rr = render_entries(rest, prefix, top);
        let orr = outline_entries(rest, d, a);
        let r = render_entries(cs, prefix, top);
        let o = outline_entries(cs, d, a);
        assert(r == seq![line0] + rc + rr);
        assert(o == seq![o0] + oc + orr);
        assert(c.0@ + seq!['/'] =~= c.0@.push('/'));
        assert(a.take(a.len() as int) =~= a);
        assert(a.skip(a.len() as int) =~= Seq::<bool>::empty());
        assert(bars(Seq::<bool>::empty()) == Seq::<char>::empty());
        if !top {
            assert(line0.0 =~= prefix + bars(a.skip(a.len() as int)) + connector(last));
        }
        assert(drawn_as(line0, o0, prefix, top, d, a));
        assert forall|i: int| 0 <= i < o.len() implies drawn_as(
            #[trigger] r[i],
            o[i],
            prefix,
            top,
            d,
            a,
        ) by {
            if i == 0 {
                assert(r[i] == line0 && o[i] == o0);
            } else if i < 1 + oc.len() {
                let e = oc[i - 1];
                assert(r[i] == rc[i - 1] && o[i] == e);
                assert(drawn_as(rc[i - 1], e, cp, false, d + 1, ca));
                assert(e.4.take(ca.len() as int) == ca);
                assert(e.4.take(a.len() as int) =~= ca.take(a.len() as int));
                assert(ca.take(a.len() as int) =~= a);
                assert(e.4[a.len() as int] == ca[a.len() as int]);
                let s0 = e.4.skip(a.len() as int);
                assert(s0.drop_first() =~= e.4.skip(a.len() + 1int));
                assert(s0[0] == last);
                assert(bars(s0) == bar(last) + bars(s0.drop_first()));
                if !top {
                    assert(cp == prefix + bar(last));
                    assert(rc[i - 1].0 =~= prefix + bars(s0) + (if e.3 {
                        "└── "@
                    } else {
                        "├── "@
                    }));
                } else {
                    assert(cp == Seq::<char>::empty());
                    assert(rc[i - 1].0 =~= bars(e.4.skip(a.len() + 1int)) + (if e.3 {
                        "└── "@
                    } else {
                        "├── "@
                    }));
                }
            } else {
                assert(r[i] == rr[i - 1 - oc.len()] && o[i] == orr[i - 1 - oc.len()]);
            }
        }
    }
}

/// Where the `j`-th of the siblings `cs` and its subtree stand in their
/// outline: the entry at `off`, followed by the outline of its subtree.
proof fn lemma_entries_child(cs: Seq<(String, Node)>, j: int, d: nat, a: Seq<bool>) -> (off: int)
    requires
        0 <= j < cs.len(),
    ensures
        0 <= off,
        off + 1 + outline_node(cs[j].1, d + 1, a.push(j == cs.len() - 1)).len() <= outline_entries(
            cs,
            d,
            a,
        ).len(),
        outline_entries(cs, d, a)[off].0 == cs[j].0@,
        outline_entries(cs, d, a)[off].2 == d,
        forall|t: int|
            0 <= t < outline_node(cs[j].1, d + 1, a.push(j == cs.len() - 1)).len()
                ==> #[trigger] outline_entries(cs, d, a)[off + 1 + t] == outline_node(
                cs[j].1,
                d + 1,
                a.push(j == cs.len() - 1),
            )[t],
    decreases j,
{
    let o = outline_entries(cs, d, a);
    let c0 = outline_node(cs[0].1, d + 1, a.push(cs.len() == 1));
    let rest = cs.subrange(1, cs.len() as int);
    let orr = outline_entries(rest, d, a);
    assert(o == seq![(cs[0].0@, cs[0].1.children@.len() > 0, d, cs.len() == 1, a)] + c0 + orr);
    if j == 0 {
        assert forall|t: int| 0 <= t < c0.len() implies #[trigger] o[1 + t] == c0[t] by {}
        0
    } else {
        assert(rest[j - 1] == cs[j]);
        let off = lemma_entries_child(rest, j - 1, d, a);
        let oj = outline_node(cs[j].1, d + 1, a.push(j == cs.len() - 1));
        assert forall|t: int| 0 <= t < oj.len() implies #[trigger] o[1 + c0.len() + off + 1 + t]
            == oj[t] by {
            assert(o[1 + c0.len() + off + 1 + t] == orr[off + 1 + t]);
        }
        assert(o[1 + c0.len() + off] == orr[off]);
        1 + c0.len() + off
    }
}

/// Every node of the tree is in its outline, and so is drawn: the node that
/// the segments `r` lead to is the entry named after the last of them, at
/// depth `r.len() - 1` below the starting depth `d`.
pub proof fn lemma_outline_covers(n: Node, r: Seq<Seq<char>>, d: nat, a: Seq<bool>) -> (i: int)
    requires
        r.len() > 0,
        subtree_at(n, r) is Some,
    ensures
        0 <= i < outline_node(n, d, a).len(),
        outline_node(n, d, a)[i].0 == r.last(),
        outline_node(n, d, a)[i].2 == d + r.len() - 1,
    decreases r.len(),
{
    let cs = n.children@;
    lemma_find_key(cs, r[0], 0);
    let j = find_key(cs, r[0], 0)->0;
    let off = lemma_entries_child(cs, j, d, a);
    if r.len() == 1 {
        off
    } else {
        let ca = a.push(j == cs.len() - 1);
        let k = lemma_outline_covers(cs[j].1, r.drop_first(), d + 1, ca);
        assert(outline_node(n, d, a)[off + 1 + k] == outline_node(cs[j].1, d + 1, ca)[k]);
        off + 1 + k
    }
}

/// Two well-formed trees that list the same paths are drawn identically: the
/// listing depends on the set of paths alone.
pub proof fn lemma_render_same(a: Node, b: Node, prefix: Seq<char>, top: bool)
    requires
        wf(a),
        wf(b),
        same_paths(a, b),
    ensures
        render_node(a, prefix, top) == render_node(b, prefix, top),
    decreases a,
{
    lemma_same_children(a, b);
    assert forall|i: int| #![trigger a.children@[i]] 0 <= i < a.children@.len() implies wf(
        a.children@[i].1,
    ) && wf(b.children@[i].1) by {
        assert(wf_child(a, i));
        assert(wf_child(b, i));
    }
    lemma_entries_same(a.children@, b.children@, prefix, top);
}

/// Entry lists with the same names, whose nodes pairwise list the same
/// paths, are drawn identically.
proof fn lemma_entries_same(
    x: Seq<(String, Node)>,
    y: Seq<(String, Node)>,
    prefix: Seq<char>,
    top: bool,
)
    requires
        x.len() == y.len(),
        forall|i: int|
            #![trigger x[i]]
            0 <= i < x.len() ==> x[i].0@ == y[i].0@ && wf(x[i].1) && wf(y[i].1) && same_paths(
                x[i].1,
                y[i].1,
            ),
    ensures
        render_entries(x, prefix, top) == render_entries(y, prefix, top),
    decreases x,
{
    if x.len() > 0 {
        assert(x[0].0@ == y[0].0@ && wf(x[0].1) && wf(y[0].1) && same_paths(x[0].1, y[0].1));
        lemma_same_children(x[0].1, y[0].1);
        let is_last = x.len() == 1;
        lemma_render_same(x[0].1, y[0].1, child_prefix(prefix, top, is_last), false);
        let xs = x.subrange(1, x.len() as int);
        let ys = y.subrange(1, y.len() as int);
        assert forall|i: int| #![trigger xs[i]] 0 <= i < xs.len() implies xs[i].0@ == ys[i].0@
            && wf(xs[i].1) && wf(ys[i].1) && same_paths(xs[i].1, ys[i].1) by {
            assert(xs[i] == x[i + 1]);
            assert(ys[i] == y[i + 1]);
        }
        lemma_entries_same(xs, ys, prefix, top);
    }
}


/// The texts of a list of tree lines.
pub open spec fn lines_view(ls: Seq<TreeLine>) -> Seq<(Seq<char>, Seq<char>, bool)> {
    ls.map_values(|l: TreeLine| tree_line_view(l))
}

/// Appends the lines of the subtree below `node` to `out`; its entries are
/// drawn after `prefix`, and bare when `depth` is 0.
pub fn render(node: &Node, prefix: &str, depth: usize, out: &mut Vec<TreeLine>)
    ensures
        lines_view(final(out)@) == lines_view(old(out)@) + render_node(*node, prefix@, depth == 0),
    decreases node,
{
    let cs = &node.children;
    let len = cs.len();
    let ghost top = depth == 0;
    let ghost base = lines_view(out@);
    let ghost mut acc: Seq<(Seq<char>, Seq<char>, bool)> = Seq::empty();
    assert(cs@.subrange(0, len as int) == cs@);
    for i in 0..len
        invariant
            len == cs@.len(),
            cs == &node.children,
            top == (depth == 0),
            lines_view(out@) == base + acc,
            acc + render_entries(cs@.subrange(i as int, len as int), prefix@, top) == render_node(
                *node,
                prefix@,
                top,
            ),
    {
        let name = &cs[i].0;
        let child = &cs[i].1;
        let is_last = i + 1 == len;
        let ghost rest = cs@.subrange(i as int, len as int);
        assert(rest[0] == cs@[i as int]);
        assert(rest.subrange(1, rest.len() as int) == cs@.subrange(i + 1, len as int));
        let is_dir = child.children.len() > 0;
        let guide = if depth == 0 {
            String::new()
        } else {
            let mut g = prefix.to_owned();
            if is_last {
                g.append("└── ");
            } else {
                g.append("├── ");
            }
            g
        };
        let label = if is_dir {
            let mut l = name.clone();
            crate::text::push_char(&mut l, '/');
            l
        } else {
            name.clone()
        };
        let new_prefix = if depth == 0 {
            String::new()
        } else {
            let mut p = prefix.to_owned();
            if is_last {
                p.append("    ");
            } else {
                p.append("│   ");
            }
            p
        };
        let ghost line = entry_line(name@, *child, prefix@, top, is_last);
        assert(guide@ == line.0);
        assert(label@ == line.1);
        assert(is_dir == line.2);
        let ghost before = out@;
        out.push(TreeLine { guide, label, is_dir });
        assert(lines_view(out@) == lines_view(before).push(line));
        assert(new_prefix@ == child_prefix(prefix@, top, is_last));
        let ghost mid = lines_view(out@);
        render(child, new_prefix.as_str(), depth.saturating_add(1), out);
        proof {
            let sub = render_node(*child, child_prefix(prefix@, top, is_last), false);
            assert(lines_view(out@) == mid + sub);
            acc = acc + seq![line] + sub;
            assert(render_entries(rest, prefix@, top) == seq![line] + sub + render_entries(
                cs@.subrange(i + 1, len as int),
                prefix@,
                top,
            ));
        }
    }
    assert(cs@.subrange(len as int, len as int) == Seq::<(String, Node)>::empty());
}


/// Whether `q` is the segment path of one of `paths`.
pub open spec fn listed(paths: Seq<&str>, q: Seq<Seq<char>>) -> bool {
    exists|i: int| 0 <= i < paths.len() && q == split_on(#[trigger] paths[i]@, '/')
}

/// The tree of the `/`-separated segments of `paths`: it lists exactly those
/// paths.
pub fn build_tree(paths: &[&str]) -> (root: Node)
    ensures
        wf(root),
        forall|q: Seq<Seq<char>>| has_path(root, q) <==> listed(paths@, q),
{
    let mut root = Node::new();
    for i in 0..paths.len()
        invariant
            wf(root),
            forall|q: Seq<Seq<char>>|
                has_path(root, q) <==> listed(paths@.take(i as int), q),
    {
        let parts = split_slash(paths[i]);
        let mut refs: Vec<&str> = Vec::new();
        for k in 0..parts.len()
            invariant
                segments(refs@) == parts@.take(k as int).map_values(|w: String| w@),
        {
            let ghost before = refs@;
            refs.push(parts[k].as_str());
            assert(segments(refs@) == segments(before).push(parts@[k as int]@));
            assert(parts@.take(k + 1) == parts@.take(k as int).push(parts@[k as int]));
        }
        assert(parts@.take(parts.len() as int) == parts@);
        let ghost prev = root;
        root.insert(refs.as_slice());
        assert forall|q: Seq<Seq<char>>|
            has_path(root, q) <==> listed(paths@.take(i + 1), q) by {
            let pre = paths@.take(i as int);
            let post = paths@.take(i + 1);
            if listed(pre, q) {
                let j = choose|j: int| 0 <= j < pre.len() && q == split_on(#[trigger] pre[j]@, '/');
                assert(post[j] == pre[j]);
            }
            if q == split_on(paths@[i as int]@, '/') {
                assert(post[i as int] == paths@[i as int]);
            }
            if listed(post, q) {
                let j = choose|j: int| 0 <= j < post.len() && q == split_on(#[trigger] post[j]@, '/');
                if j < i {
                    assert(pre[j] == post[j]);
                }
            }
        }
    }
    assert(paths@.take(paths@.len() as int) == paths@);
    root
}

/// The tree listing of `paths`: one line per tree entry, children in sorted
/// order, each entry followed by its subtree. The lines are the drawing of
/// every well-formed tree that lists exactly `paths` (and such a tree exists).
pub fn tree(paths: &[&str]) -> (lines: Vec<TreeLine>)
    ensures
        exists|root: Node|
            #![trigger render_node(root, Seq::<char>::empty(), true)]
            wf(root) && (forall|q: Seq<Seq<char>>| has_path(root, q) <==> listed(paths@, q)),
        forall|root: Node|
            #![trigger render_node(root, Seq::<char>::empty(), true)]
            wf(root) && (forall|q: Seq<Seq<char>>| has_path(root, q) <==> listed(paths@, q))
                ==> lines_view(lines@) == render_node(root, Seq::<char>::empty(), true),
        forall|root: Node|
            #![trigger outline_node(root, 0, Seq::<bool>::empty())]
            wf(root) && (forall|q: Seq<Seq<char>>| has_path(root, q) <==> listed(paths@, q))
                ==> lines@.len() == outline_node(root, 0, Seq::<bool>::empty()).len() && (forall|
                i: int,
            |
                0 <= i < lines@.len() ==> drawn_as(
                    tree_line_view(#[trigger] lines@[i]),
                    outline_node(root, 0, Seq::<bool>::empty())[i],
                    Seq::<char>::empty(),
                    true,
                    0,
                    Seq::<bool>::empty(),
                )),
{
    let root = build_tree(paths);
    let mut lines: Vec<TreeLine> = Vec::new();
    render(&root, "", 0, &mut lines);
    assert(""@ == Seq::<char>::empty()) by {
        reveal_strlit("");
    }
    assert(lines_view(Seq::<TreeLine>::empty()) == Seq::<(Seq<char>, Seq<char>, bool)>::empty());
    assert forall|other: Node|
        #![trigger render_node(other, Seq::<char>::empty(), true)]
        wf(other) && (forall|q: Seq<Seq<char>>| has_path(other, q) <==> listed(paths@, q))
            implies lines_view(lines@) == render_node(other, Seq::<char>::empty(), true) by {
        assert(same_paths(root, other));
        lemma_render_same(root, other, Seq::<char>::empty(), true);
    }
    assert(render_node(root, Seq::<char>::empty(), true) == lines_view(lines@));
    assert forall|other: Node|
        #![trigger outline_node(other, 0, Seq::<bool>::empty())]
        wf(other) && (forall|q: Seq<Seq<char>>| has_path(other, q) <==> listed(paths@, q))
            implies lines@.len() == outline_node(other, 0, Seq::<bool>::empty()).len() && (forall|
            i: int,
        |
            0 <= i < lines@.len() ==> drawn_as(
                tree_line_view(#[trigger] lines@[i]),
                outline_node(other, 0, Seq::<bool>::empty())[i],
                Seq::<char>::empty(),
                true,
                0,
                Seq::<bool>::empty(),
            )) by {
        assert(lines_view(lines@) == render_node(other, Seq::<char>::empty(), true));
        lemma_render_outline(other, Seq::<char>::empty(), true, 0, Seq::<bool>::empty());
        assert forall|i: int| 0 <= i < lines@.len() implies drawn_as(
            tree_line_view(#[trigger] lines@[i]),
            outline_node(other, 0, Seq::<bool>::empty())[i],
            Seq::<char>::empty(),
            true,
            0,
            Seq::<bool>::empty(),
        ) by {
            assert(lines_view(lines@)[i] == tree_line_view(lines@[i]));
        }
    }
    lines
}

} // verus!
