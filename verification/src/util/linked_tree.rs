//! A tree that only grows, kept in one vector: a node is named by its place
//! in the vector, and a child always stands after its parent.

use vstd::prelude::*;

verus! {

/// One node of a tree: its value, where it hangs, and what hangs below it.
#[derive(Debug)]
pub struct TreeNode<T> {
    parent: Option<usize>,
    children: Vec<usize>,
    val: T,
    // count of this node with all nodes below it
    size: usize,
    // distance to the root, which has 0
    deepth: usize,
}

/// A node as a mathematical value.
pub struct NodeView<T> {
    pub parent: Option<int>,
    pub children: Seq<int>,
    pub val: T,
    pub size: nat,
    pub deepth: nat,
}

impl<T> View for TreeNode<T> {
    type V = NodeView<T>;

    closed spec fn view(&self) -> NodeView<T> {
        NodeView {
            parent: match self.parent {
                Some(p) => Some(p as int),
                None => None,
            },
            children: self.children@.map_values(|c: usize| c as int),
            val: self.val,
            size: self.size as nat,
            deepth: self.deepth as nat,
        }
    }
}

impl<T> TreeNode<T> {
    /// A node that hangs nowhere and has nothing below it.
    fn new(val: T) -> (r: TreeNode<T>)
        ensures
            r@ == (NodeView { parent: None, children: Seq::empty(), val, size: 1, deepth: 0 }),
    {
        let r = TreeNode { parent: None, children: vec![], val, size: 1, deepth: 0 };
        assert(r@.children =~= Seq::empty());
        r
    }

    /// Notes that the node `id` hangs below this one.
    fn push_child(&mut self, id: usize)
        ensures
            final(self)@ == (NodeView {
                children: old(self)@.children.push(id as int),
                ..old(self)@
            }),
    {
        self.children.push(id);
        assert(self@.children =~= old(self)@.children.push(id as int));
    }

    /// Counts one node more below this one.
    fn inc_size(&mut self)
        requires
            old(self)@.size < usize::MAX,
        ensures
            final(self)@ == (NodeView { size: old(self)@.size + 1, ..old(self)@ }),
    {
        self.size += 1;
    }
}

/// Whether `a` is the node `n` or stands above it.
pub open spec fn is_ancestor<T>(t: Seq<NodeView<T>>, a: int, n: int) -> bool
    decreases n,
{
    if a == n {
        true
    } else if t[n].parent is Some && 0 <= t[n].parent->Some_0 < n {
        is_ancestor(t, a, t[n].parent->Some_0)
    } else {
        false
    }
}

/// The sizes of the nodes `cs`, added up.
pub open spec fn sum_sizes<T>(t: Seq<NodeView<T>>, cs: Seq<int>) -> nat
    decreases cs.len(),
{
    if cs.len() == 0 {
        0
    } else {
        sum_sizes(t, cs.drop_last()) + t[cs.last()].size
    }
}

/// The values from the root down to the node `n`, both included.
pub open spec fn lineage<T>(t: Seq<NodeView<T>>, n: int) -> Seq<T>
    decreases n,
{
    if t[n].parent is Some && 0 <= t[n].parent->Some_0 < n {
        lineage(t, t[n].parent->Some_0).push(t[n].val)
    } else {
        seq![t[n].val]
    }
}

/// What holds of the node at place `i`: the root comes first and has depth 0;
/// any other node hangs below an earlier one, one level deeper; `children`
/// lists the nodes that hang below it, in the order in which they came;
/// `size` counts the node and all below it.
pub open spec fn node_wf<T>(t: Seq<NodeView<T>>, i: int) -> bool {
    let node = t[i];
    &&& i == 0 ==> node.parent is None && node.deepth == 0
    &&& i > 0 ==> node.parent is Some && 0 <= node.parent->Some_0 < i && node.deepth
        == t[node.parent->Some_0].deepth + 1
    &&& node.deepth <= i
    &&& node.size == 1 + sum_sizes(t, node.children)
    &&& node.size + i <= t.len()
    &&& forall|k: int|
        0 <= k < node.children.len() ==> i < #[trigger] node.children[k] < t.len()
            && t[node.children[k]].parent == Some(i)
    &&& forall|k1: int, k2: int|
        0 <= k1 < k2 < node.children.len() ==> #[trigger] node.children[k1]
            < #[trigger] node.children[k2]
    &&& forall|c: int|
        i < c < t.len() && (#[trigger] t[c]).parent == Some(i) ==> node.children.contains(c)
}

/// A tree: at least a root, and every node as `node_wf` says.
pub open spec fn tree_wf<T>(t: Seq<NodeView<T>>) -> bool {
    &&& t.len() >= 1
    &&& forall|i: int| 0 <= i < t.len() ==> #[trigger] node_wf(t, i)
}

/// The tree that is one root with the value `val`.
pub open spec fn spec_new_tree<T>(val: T) -> Seq<NodeView<T>> {
    seq![NodeView { parent: None, children: Seq::empty(), val, size: 1, deepth: 0 }]
}

/// The tree with one more node, of value `val`, as the last child of `n`:
/// `n` and every node above it count one more.
pub open spec fn spec_add_child<T>(t: Seq<NodeView<T>>, n: int, val: T) -> Seq<NodeView<T>> {
    Seq::new(
        t.len() + 1,
        |i: int|
            if i == t.len() {
                NodeView {
                    parent: Some(n),
                    children: Seq::empty(),
                    val,
                    size: 1,
                    deepth: t[n].deepth + 1,
                }
            } else {
                NodeView {
                    parent: t[i].parent,
                    children: if i == n {
                        t[i].children.push(t.len() as int)
                    } else {
                        t[i].children
                    },
                    val: t[i].val,
                    size: if is_ancestor(t, i, n) {
                        t[i].size + 1
                    } else {
                        t[i].size
                    },
                    deepth: t[i].deepth,
                }
            },
    )
}

/// A node does not stand before a node above it.
pub proof fn lemma_ancestor_le<T>(t: Seq<NodeView<T>>, a: int, n: int)
    requires
        is_ancestor(t, a, n),
    ensures
        a <= n,
    decreases n,
{
    if a != n {
        lemma_ancestor_le(t, a, t[n].parent->Some_0);
    }
}

/// What stands above a node stands above all that the node stands above.
pub proof fn lemma_ancestor_parent<T>(t: Seq<NodeView<T>>, c: int, n: int, i: int)
    requires
        is_ancestor(t, c, n),
        t[c].parent == Some(i),
        0 <= i < c,
    ensures
        is_ancestor(t, i, n),
    decreases n,
{
    if c == n {
        assert(is_ancestor(t, i, i));
    } else if i != n {
        lemma_ancestor_parent(t, c, t[n].parent->Some_0, i);
    }
}

/// Below a node that stands above `n` hangs a node that is `n` or stands above it.
pub proof fn lemma_ancestor_child<T>(t: Seq<NodeView<T>>, i: int, n: int) -> (c: int)
    requires
        is_ancestor(t, i, n),
        i != n,
    ensures
        t[c].parent == Some(i),
        is_ancestor(t, c, n),
        i < c <= n,
    decreases n,
{
    let p = t[n].parent->Some_0;
    lemma_ancestor_le(t, i, p);
    if i == p {
        n
    } else {
        let c = lemma_ancestor_child(t, i, p);
        c
    }
}

/// Of the nodes that hang below one node, at most one is `n` or stands above it.
pub proof fn lemma_ancestor_child_unique<T>(t: Seq<NodeView<T>>, i: int, c1: int, c2: int, n: int)
    requires
        t[c1].parent == Some(i),
        t[c2].parent == Some(i),
        i < c1,
        i < c2,
        is_ancestor(t, c1, n),
        is_ancestor(t, c2, n),
    ensures
        c1 == c2,
    decreases n,
{
    if c1 != c2 {
        if n == c1 {
            lemma_ancestor_le(t, c2, i);
        } else if n == c2 {
            lemma_ancestor_le(t, c1, i);
        } else {
            lemma_ancestor_child_unique(t, i, c1, c2, t[n].parent->Some_0);
        }
    }
}

/// Nodes of the same sizes add up to the same.
pub proof fn lemma_sum_same<T>(t: Seq<NodeView<T>>, t2: Seq<NodeView<T>>, cs: Seq<int>)
    requires
        forall|k: int| 0 <= k < cs.len() ==> t2[#[trigger] cs[k]].size == t[cs[k]].size,
    ensures
        sum_sizes(t2, cs) == sum_sizes(t, cs),
    decreases cs.len(),
{
    if cs.len() > 0 {
        let rest = cs.drop_last();
        assert forall|k: int| 0 <= k < rest.len() implies t2[#[trigger] rest[k]].size
            == t[rest[k]].size by {
            assert(rest[k] == cs[k]);
        }
        lemma_sum_same(t, t2, rest);
        assert(cs.last() == cs[cs.len() - 1]);
    }
}

/// When one of the nodes counts one more, so does the sum.
pub proof fn lemma_sum_bump<T>(t: Seq<NodeView<T>>, t2: Seq<NodeView<T>>, cs: Seq<int>, c0: int)
    requires
        cs.contains(c0),
        forall|k1: int, k2: int|
            0 <= k1 < k2 < cs.len() ==> #[trigger] cs[k1] < #[trigger] cs[k2],
        t2[c0].size == t[c0].size + 1,
        forall|k: int|
            0 <= k < cs.len() && cs[k] != c0 ==> t2[#[trigger] cs[k]].size == t[cs[k]].size,
    ensures
        sum_sizes(t2, cs) == sum_sizes(t, cs) + 1,
    decreases cs.len(),
{
    let rest = cs.drop_last();
    let last = cs.len() - 1;
    assert(cs.last() == cs[last]);
    assert forall|k: int| 0 <= k < rest.len() implies rest[k] == cs[k] by {}
    if cs[last] == c0 {
        assert forall|k: int| 0 <= k < rest.len() implies t2[#[trigger] rest[k]].size
            == t[rest[k]].size by {
            assert(rest[k] == cs[k]);
            assert(cs[k] < cs[last]);
        }
        lemma_sum_same(t, t2, rest);
    } else {
        let k0 = choose|k: int| 0 <= k < cs.len() && cs[k] == c0;
        assert(rest[k0] == c0);
        assert forall|k1: int, k2: int| 0 <= k1 < k2 < rest.len() implies #[trigger] rest[k1]
            < #[trigger] rest[k2] by {
            assert(rest[k1] == cs[k1]);
            assert(rest[k2] == cs[k2]);
        }
        assert forall|k: int| 0 <= k < rest.len() && rest[k] != c0 implies t2[#[trigger] rest[k]].size
            == t[rest[k]].size by {
            assert(rest[k] == cs[k]);
        }
        lemma_sum_bump(t, t2, rest, c0);
    }
}

/// A tree of one node is a tree.
pub proof fn lemma_new_tree_wf<T>(val: T)
    ensures
        tree_wf(spec_new_tree(val)),
{
    let t = spec_new_tree(val);
    assert(sum_sizes(t, t[0].children) == 0);
    assert(node_wf(t, 0));
}

/// A tree with one more node is a tree.
pub proof fn lemma_add_child_wf<T>(t: Seq<NodeView<T>>, n: int, val: T)
    requires
        tree_wf(t),
        0 <= n < t.len(),
    ensures
        tree_wf(spec_add_child(t, n, val)),
{
    let t2 = spec_add_child(t, n, val);
    let len = t.len() as int;
    assert forall|i: int| 0 <= i < t2.len() implies #[trigger] node_wf(t2, i) by {
        if i == len {
            assert(node_wf(t, n));
            assert(sum_sizes(t2, t2[i].children) == 0);
            assert(is_ancestor(t, n, n));
        } else {
            assert(node_wf(t, i));
            lemma_add_child_sizes(t, n, val, i);
            let cs = t[i].children;
            let cs2 = t2[i].children;
            if i > 0 {
                assert(node_wf(t, t[i].parent->Some_0));
            }
            if i == n {
                assert forall|k: int| 0 <= k < cs2.len() implies i < #[trigger] cs2[k] < t2.len()
                    && t2[cs2[k]].parent == Some(i) by {
                    if k < cs.len() {
                        assert(cs2[k] == cs[k]);
                    }
                }
                assert forall|k1: int, k2: int| 0 <= k1 < k2 < cs2.len() implies #[trigger] cs2[k1]
                    < #[trigger] cs2[k2] by {
                    assert(cs2[k1] == cs[k1]);
                    if k2 < cs.len() {
                        assert(cs2[k2] == cs[k2]);
                    }
                }
                assert forall|c: int|
                    i < c < t2.len() && (#[trigger] t2[c]).parent == Some(i) implies cs2.contains(
                    c,
                ) by {
                    if c == len {
                        assert(cs2[cs.len() as int] == c);
                    } else {
                        assert(t[c].parent == Some(i));
                        let k = choose|k: int| 0 <= k < cs.len() && cs[k] == c;
                        assert(cs2[k] == c);
                    }
                }
            } else {
                assert forall|c: int|
                    i < c < t2.len() && (#[trigger] t2[c]).parent == Some(i) implies cs2.contains(
                    c,
                ) by {
                    assert(t[c].parent == Some(i));
                }
            }
        }
    }
}

/// In a tree with one more node below `n`, each old node still counts itself
/// and what its children count.
proof fn lemma_add_child_sizes<T>(t: Seq<NodeView<T>>, n: int, val: T, i: int)
    requires
        tree_wf(t),
        0 <= n < t.len(),
        0 <= i < t.len(),
    ensures
        spec_add_child(t, n, val)[i].size == 1 + sum_sizes(
            spec_add_child(t, n, val),
            spec_add_child(t, n, val)[i].children,
        ),
{
    let t2 = spec_add_child(t, n, val);
    let len = t.len() as int;
    let cs = t[i].children;
    assert(node_wf(t, i));
    if i == n {
        assert(is_ancestor(t, n, n));
        assert forall|k: int| 0 <= k < cs.len() implies t2[#[trigger] cs[k]].size
            == t[cs[k]].size by {
            if is_ancestor(t, cs[k], n) {
                lemma_ancestor_le(t, cs[k], n);
            }
        }
        lemma_sum_same(t, t2, cs);
        assert(t2[i].children.drop_last() =~= cs);
        assert(t2[i].children.last() == len);
    } else if is_ancestor(t, i, n) {
        let c0 = lemma_ancestor_child(t, i, n);
        assert(cs.contains(c0));
        assert forall|k: int| 0 <= k < cs.len() && cs[k] != c0 implies t2[#[trigger] cs[k]].size
            == t[cs[k]].size by {
            if is_ancestor(t, cs[k], n) {
                lemma_ancestor_child_unique(t, i, cs[k], c0, n);
            }
        }
        lemma_sum_bump(t, t2, cs, c0);
    } else {
        assert forall|k: int| 0 <= k < cs.len() implies t2[#[trigger] cs[k]].size
            == t[cs[k]].size by {
            if is_ancestor(t, cs[k], n) {
                lemma_ancestor_parent(t, cs[k], n, i);
            }
        }
        lemma_sum_same(t, t2, cs);
    }
}

/// The node `i` and all nodes below it.
pub open spec fn subtree<T>(t: Seq<NodeView<T>>, i: int) -> Set<int> {
    Set::new(|j: int| 0 <= j < t.len() && is_ancestor(t, i, j))
}

/// The nodes that are one of the first `k` children of `i` or below one of them.
pub open spec fn below_first<T>(t: Seq<NodeView<T>>, i: int, k: int) -> Set<int> {
    Set::new(
        |j: int|
            0 <= j < t.len() && exists|m: int|
                0 <= m < k && is_ancestor(t, #[trigger] t[i].children[m], j),
    )
}

/// The size of a node is the number of nodes that are the node or below it.
pub proof fn lemma_size_counts<T>(t: Seq<NodeView<T>>, i: int)
    requires
        tree_wf(t),
        0 <= i < t.len(),
    ensures
        subtree(t, i).finite(),
        subtree(t, i).len() == t[i].size,
    decreases t.len() - i, t[i].children.len() + 1,
{
    let cs = t[i].children;
    assert(node_wf(t, i));
    lemma_children_count(t, i, cs.len() as int);
    let below = below_first(t, i, cs.len() as int);
    assert(cs.take(cs.len() as int) =~= cs);
    assert(!below.contains(i)) by {
        if below.contains(i) {
            let m = choose|m: int| 0 <= m < cs.len() && is_ancestor(t, #[trigger] cs[m], i);
            lemma_ancestor_le(t, cs[m], i);
        }
    }
    assert forall|j: int| subtree(t, i).contains(j) <==> below.insert(i).contains(j) by {
        if subtree(t, i).contains(j) && j != i {
            let c = lemma_ancestor_child(t, i, j);
            assert(cs.contains(c));
            let m = choose|m: int| 0 <= m < cs.len() && cs[m] == c;
            assert(is_ancestor(t, cs[m], j));
        }
        if below.contains(j) {
            let m = choose|m: int| 0 <= m < cs.len() && is_ancestor(t, #[trigger] cs[m], j);
            lemma_ancestor_parent(t, cs[m], j, i);
        }
    }
    assert(subtree(t, i) =~= below.insert(i));
}

/// The first `k` children of a node and all below them are as many as their sizes add up to.
proof fn lemma_children_count<T>(t: Seq<NodeView<T>>, i: int, k: int)
    requires
        tree_wf(t),
        0 <= i < t.len(),
        0 <= k <= t[i].children.len(),
    ensures
        below_first(t, i, k).finite(),
        below_first(t, i, k).len() == sum_sizes(t, t[i].children.take(k)),
    decreases t.len() - i, k,
{
    let cs = t[i].children;
    assert(node_wf(t, i));
    if k == 0 {
        assert(below_first(t, i, 0) =~= Set::<int>::empty());
        assert(cs.take(0) =~= Seq::<int>::empty());
    } else {
        let c = cs[k - 1];
        lemma_children_count(t, i, k - 1);
        lemma_size_counts(t, c);
        let before = below_first(t, i, k - 1);
        let now = below_first(t, i, k);
        assert(cs.take(k).drop_last() =~= cs.take(k - 1));
        assert(cs.take(k).last() == c);
        assert(before.disjoint(subtree(t, c))) by {
            assert forall|j: int| !(before.contains(j) && subtree(t, c).contains(j)) by {
                if before.contains(j) && subtree(t, c).contains(j) {
                    let m = choose|m: int| 0 <= m < k - 1 && is_ancestor(t, #[trigger] cs[m], j);
                    lemma_ancestor_child_unique(t, i, cs[m], c, j);
                    assert(cs[m] < cs[k - 1]);
                }
            }
        }
        assert forall|j: int| now.contains(j) <==> before.union(subtree(t, c)).contains(j) by {
            if now.contains(j) {
                let m = choose|m: int| 0 <= m < k && is_ancestor(t, #[trigger] cs[m], j);
                if m < k - 1 {
                    assert(before.contains(j));
                }
            }
            if before.contains(j) {
                let m = choose|m: int| 0 <= m < k - 1 && is_ancestor(t, #[trigger] cs[m], j);
                assert(0 <= m < k && is_ancestor(t, cs[m], j));
            }
            if subtree(t, c).contains(j) {
                assert(is_ancestor(t, cs[k - 1], j));
            }
        }
        assert(now =~= before.union(subtree(t, c)));
        vstd::set_lib::lemma_set_disjoint_lens(before, subtree(t, c));
    }
}

/// The size of the root is the number of nodes of the tree.
pub proof fn lemma_root_size<T>(t: Seq<NodeView<T>>)
    requires
        tree_wf(t),
    ensures
        t[0].size == t.len(),
{
    lemma_size_counts(t, 0);
    assert forall|j: int| 0 <= j < t.len() implies is_ancestor(t, 0, j) by {
        lemma_root_above(t, j);
    }
    assert(subtree(t, 0) =~= vstd::set_lib::set_int_range(0, t.len() as int));
    vstd::set_lib::lemma_int_range(0, t.len() as int);
}

/// The root stands above every node.
pub proof fn lemma_root_above<T>(t: Seq<NodeView<T>>, j: int)
    requires
        tree_wf(t),
        0 <= j < t.len(),
    ensures
        is_ancestor(t, 0, j),
    decreases j,
{
    assert(node_wf(t, j));
    if j > 0 {
        lemma_root_above(t, t[j].parent->Some_0);
    }
}

/// The line from the root to a node holds the value of every node above it.
pub proof fn lemma_lineage_contains<T>(t: Seq<NodeView<T>>, a: int, n: int)
    requires
        is_ancestor(t, a, n),
    ensures
        lineage(t, n).contains(t[a].val),
    decreases n,
{
    let line = lineage(t, n);
    if a == n {
        assert(line.last() == t[n].val);
        assert(line[line.len() - 1] == t[a].val);
    } else {
        let p = t[n].parent->Some_0;
        lemma_lineage_contains(t, a, p);
        let k = choose|k: int| 0 <= k < lineage(t, p).len() && lineage(t, p)[k] == t[a].val;
        assert(line[k] == t[a].val);
    }
}

/// The line from the root to a node has one value for each level.
pub proof fn lemma_lineage_len<T>(t: Seq<NodeView<T>>, n: int)
    requires
        tree_wf(t),
        0 <= n < t.len(),
    ensures
        lineage(t, n).len() == t[n].deepth + 1,
        lineage(t, n).last() == t[n].val,
    decreases n,
{
    assert(node_wf(t, n));
    if n > 0 {
        lemma_lineage_len(t, t[n].parent->Some_0);
    }
}

/// What can be done with a tree: start one, hang a node below another, and
/// read what a node holds and where it hangs. A node is named by the number
/// that `add_child` gave for it; the root is node 0.
pub trait LinkedTreeOperation<T>: Sized + View<V = Seq<NodeView<T>>> {
    /// A tree of one node, the root, with the value `val`.
    fn new_tree(val: T) -> (r: Self)
        ensures
            r@ == spec_new_tree(val),
            tree_wf(r@),
    ;

    /// Hangs a new node with the value `val` below the node `n`, after the
    /// children that `n` has, and gives the new node's number. The node `n`
    /// and every node above it count one more.
    fn add_child(&mut self, n: usize, val: T) -> (id: usize)
        requires
            tree_wf(old(self)@),
            n < old(self)@.len(),
        ensures
            final(self)@ == spec_add_child(old(self)@, n as int, val),
            tree_wf(final(self)@),
            id == old(self)@.len(),
    ;

    /// How many nodes the node `n` and all below it are.
    fn size(&self, n: usize) -> (r: usize)
        requires
            n < self@.len(),
        ensures
            r == self@[n as int].size,
    ;

    /// How many levels the node `n` is below the root.
    fn deepth(&self, n: usize) -> (r: usize)
        requires
            n < self@.len(),
        ensures
            r == self@[n as int].deepth,
    ;

    /// The value of the node `n`.
    fn val(&self, n: usize) -> (r: &T)
        requires
            n < self@.len(),
        ensures
            *r == self@[n as int].val,
    ;

    /// The node that `n` hangs below; the root hangs below none.
    fn parent(&self, n: usize) -> (r: Option<usize>)
        requires
            n < self@.len(),
        ensures
            r is Some <==> self@[n as int].parent is Some,
            r is Some ==> r->Some_0 == self@[n as int].parent->Some_0,
    ;

    /// How many nodes hang directly below the node `n`.
    fn child_len(&self, n: usize) -> (r: usize)
        requires
            n < self@.len(),
        ensures
            r == self@[n as int].children.len(),
    ;

    /// The node that came as number `i` (from 0) below the node `n`, if there is one.
    fn child(&self, n: usize, i: usize) -> (r: Option<usize>)
        requires
            n < self@.len(),
        ensures
            i < self@[n as int].children.len() ==> r is Some && r->Some_0
                == self@[n as int].children[i as int],
            i >= self@[n as int].children.len() ==> r is None,
    ;

    /// The values from the root down to the node `n`, both included.
    fn list_parents(&self, n: usize) -> (r: Vec<&T>)
        requires
            tree_wf(self@),
            n < self@.len(),
        ensures
            r@.len() == self@[n as int].deepth + 1,
            r@.len() == lineage(self@, n as int).len(),
            forall|i: int| 0 <= i < r@.len() ==> *(#[trigger] r@[i]) == lineage(self@, n as int)[i],
    ;
}

/// A tree of values of type `T`.
pub struct LinkedTree<T> {
    nodes: Vec<TreeNode<T>>,
}

impl<T> View for LinkedTree<T> {
    type V = Seq<NodeView<T>>;

    closed spec fn view(&self) -> Seq<NodeView<T>> {
        Seq::new(self.nodes@.len(), |i: int| self.nodes@[i]@)
    }
}

impl<T> LinkedTree<T> {
    /// The root of every tree.
    pub fn root(&self) -> (r: usize)
        ensures
            r == 0,
    {
        0
    }

    /// How many nodes the tree has.
    pub fn len(&self) -> (r: usize)
        ensures
            r == self@.len(),
    {
        self.nodes.len()
    }

    /// Lets the node `n` and every node above it count one more.
    fn inc_size(&mut self, n: usize)
        requires
            n < old(self)@.len(),
            forall|i: int|
                0 <= i < old(self)@.len() ==> (#[trigger] old(self)@[i]).size < old(self)@.len(),
            forall|i: int|
                0 < i < old(self)@.len() ==> (#[trigger] old(self)@[i]).parent is Some && 0 <= old(
                    self,
                )@[i].parent->Some_0 < i,
        ensures
            final(self)@.len() == old(self)@.len(),
            forall|i: int|
                0 <= i < old(self)@.len() ==> #[trigger] final(self)@[i] == (NodeView {
                    size: if is_ancestor(old(self)@, i, n as int) {
                        old(self)@[i].size + 1
                    } else {
                        old(self)@[i].size
                    },
                    ..old(self)@[i]
                }),
    {
        let ghost t = self@;
        let total = self.nodes.len();
        let mut cur: usize = n;
        loop
            invariant_except_break
                forall|i: int|
                    0 <= i < t.len() ==> #[trigger] self@[i] == (NodeView {
                        size: if is_ancestor(t, i, n as int) && !is_ancestor(t, i, cur as int) {
                            t[i].size + 1
                        } else {
                            t[i].size
                        },
                        ..t[i]
                    }),
            invariant
                self@.len() == t.len(),
                total == t.len(),
                cur < t.len(),
                is_ancestor(t, cur as int, n as int),
                forall|i: int| 0 <= i < t.len() ==> (#[trigger] t[i]).size < t.len(),
                forall|i: int|
                    0 < i < t.len() ==> (#[trigger] t[i]).parent is Some && 0
                        <= t[i].parent->Some_0 < i,
            ensures
                self@.len() == t.len(),
                forall|i: int|
                    0 <= i < t.len() ==> #[trigger] self@[i] == (NodeView {
                        size: if is_ancestor(t, i, n as int) {
                            t[i].size + 1
                        } else {
                            t[i].size
                        },
                        ..t[i]
                    }),
            decreases cur,
        {
            let ghost before = self@;
            assert(is_ancestor(t, cur as int, cur as int));
            assert(before[cur as int].size == t[cur as int].size);
            self.nodes[cur].inc_size();
            assert(self@ =~= before.update(
                cur as int,
                NodeView { size: before[cur as int].size + 1, ..before[cur as int] },
            ));
            match self.nodes[cur].parent {
                Some(p) => {
                    proof {
                        assert(self@[cur as int].parent == Some(p as int));
                        assert(t[cur as int].parent == Some(p as int));
                        if cur == 0 {
                            // the first node may hang anywhere: only what stands before counts
                            assert(!(0 <= p < cur));
                        }
                    }
                    if p >= cur {
                        proof {
                            assert forall|i: int| 0 <= i < t.len() implies (is_ancestor(
                                t,
                                i,
                                cur as int,
                            ) <==> i == cur) by {}
                        }
                        break ;
                    }
                    proof {
                        assert forall|i: int| 0 <= i < t.len() implies (is_ancestor(
                            t,
                            i,
                            cur as int,
                        ) <==> i == cur || is_ancestor(t, i, p as int)) by {}
                        if is_ancestor(t, cur as int, p as int) {
                            lemma_ancestor_le(t, cur as int, p as int);
                        }
                        lemma_ancestor_parent(t, cur as int, n as int, p as int);
                    }
                    cur = p;
                },
                None => {
                    proof {
                        assert(t[cur as int].parent is None);
                        assert forall|i: int| 0 <= i < t.len() implies (is_ancestor(
                            t,
                            i,
                            cur as int,
                        ) <==> i == cur) by {}
                    }
                    break ;
                },
            }
        }
    }
}

impl<T> LinkedTreeOperation<T> for LinkedTree<T> {
    fn new_tree(val: T) -> (r: Self) {
        let node = TreeNode::new(val);
        let mut nodes: Vec<TreeNode<T>> = Vec::new();
        nodes.push(node);
        let r = LinkedTree { nodes };
        proof {
            assert(r@ =~= spec_new_tree(val));
            lemma_new_tree_wf(val);
        }
        r
    }

    fn add_child(&mut self, n: usize, val: T) -> (id: usize) {
        let ghost t = self@;
        let id = self.nodes.len();
        let mut node = TreeNode::new(val);
        proof {
            assert(node_wf(t, n as int));
        }
        node.deepth = self.nodes[n].deepth + 1;
        node.parent = Some(n);
        let ghost fresh = node@;
        self.nodes.push(node);
        let ghost pushed = self@;
        proof {
            assert(pushed =~= t.push(fresh));
            assert forall|i: int| 0 <= i < pushed.len() implies (#[trigger] pushed[i]).size
                < pushed.len() by {
                if i < t.len() {
                    assert(node_wf(t, i));
                }
            }
            assert forall|i: int| 0 < i < pushed.len() implies (#[trigger] pushed[i]).parent is Some
                && 0 <= pushed[i].parent->Some_0 < i by {
                if i < t.len() {
                    assert(node_wf(t, i));
                }
            }
        }
        self.inc_size(n);
        let ghost counted = self@;
        self.nodes[n].push_child(id);
        proof {
            assert(self@ =~= counted.update(
                n as int,
                NodeView { children: counted[n as int].children.push(id as int), ..counted[n as int] },
            ));
            lemma_add_child_wf(t, n as int, val);
            let goal = spec_add_child(t, n as int, val);
            assert(self@.len() == goal.len());
            assert forall|i: int| 0 <= i < goal.len() implies self@[i] == goal[i] by {
                lemma_ancestor_pushed(t, fresh, i, n as int);
                if i == n {
                    assert(self@[i].children =~= goal[i].children);
                } else {
                    assert(self@[i] == counted[i]);
                    if i == t.len() {
                        if is_ancestor(pushed, i, n as int) {
                            lemma_ancestor_le(pushed, i, n as int);
                        }
                    }
                }
            }
            assert(self@ =~= goal);
        }
        id
    }

    fn size(&self, n: usize) -> (r: usize) {
        self.nodes[n].size
    }

    fn deepth(&self, n: usize) -> (r: usize) {
        self.nodes[n].deepth
    }

    fn val(&self, n: usize) -> (r: &T) {
        &self.nodes[n].val
    }

    fn parent(&self, n: usize) -> (r: Option<usize>) {
        match self.nodes[n].parent {
            None => None,
            Some(parent) => Some(parent),
        }
    }

    fn child_len(&self, n: usize) -> (r: usize) {
        self.nodes[n].children.len()
    }

    fn child(&self, n: usize, i: usize) -> (r: Option<usize>) {
        if i >= self.child_len(n) {
            return None;
        }
        Some(self.nodes[n].children[i])
    }

    fn list_parents(&self, n: usize) -> (r: Vec<&T>) {
        proof {
            lemma_lineage_len(self@, n as int);
        }
        self.line_to(n)
    }
}

impl<T> LinkedTree<T> {
    /// The values from the root down to the node `n`, both included.
    fn line_to(&self, n: usize) -> (r: Vec<&T>)
        requires
            tree_wf(self@),
            n < self@.len(),
        ensures
            r@.len() == lineage(self@, n as int).len(),
            forall|i: int| 0 <= i < r@.len() ==> *(#[trigger] r@[i]) == lineage(self@, n as int)[i],
        decreases n,
    {
        proof {
            assert(node_wf(self@, n as int));
        }
        match self.nodes[n].parent {
            None => {
                let mut ret: Vec<&T> = Vec::new();
                ret.push(&self.nodes[n].val);
                ret
            },
            Some(parent) => {
                let mut ret = self.line_to(parent);
                ret.push(&self.nodes[n].val);
                ret
            },
        }
    }
}

/// Whether a node stands above another does not change when a node is appended.
proof fn lemma_ancestor_pushed<T>(t: Seq<NodeView<T>>, fresh: NodeView<T>, a: int, n: int)
    requires
        0 <= n < t.len(),
    ensures
        is_ancestor(t.push(fresh), a, n) == is_ancestor(t, a, n),
    decreases n,
{
    let t2 = t.push(fresh);
    assert(t2[n] == t[n]);
    if a != n && t[n].parent is Some && 0 <= t[n].parent->Some_0 < n {
        lemma_ancestor_pushed(t, fresh, a, t[n].parent->Some_0);
    }
}

} // verus!
