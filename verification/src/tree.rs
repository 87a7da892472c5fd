//! The retention tree: each node stands for a class, holds the objects of
//! that class found on one retention path, and has the classes those objects
//! retain as children.

use vstd::prelude::*;
use crate::references::{extend_entries, sum_sizes, References};

verus! {

/// The value of a tree node: its key, its own objects (if any) and its
/// children, in order.
pub struct SpecTree {
    pub key: usize,
    pub value: Option<Seq<(usize, usize)>>,
    pub children: Seq<SpecTree>,
}

/// A node of the retention tree.
#[derive(Debug)]
pub struct TreeNode {
    pub key: usize,
    pub value: Option<References>,
    pub children: Vec<TreeNode>,
}

pub open spec fn view_node(n: TreeNode) -> SpecTree
    decreases n,
{
    SpecTree {
        key: n.key,
        value: match n.value {
            Some(r) => Some(r@),
            None => None,
        },
        children: view_nodes(n.children@),
    }
}

pub open spec fn view_nodes(cs: Seq<TreeNode>) -> Seq<SpecTree>
    decreases cs,
{
    if cs.len() == 0 {
        Seq::empty()
    } else {
        view_nodes(cs.drop_last()).push(view_node(cs.last()))
    }
}

impl View for TreeNode {
    type V = SpecTree;

    open spec fn view(&self) -> SpecTree {
        view_node(*self)
    }
}

pub proof fn lemma_view_nodes(cs: Seq<TreeNode>)
    ensures
        view_nodes(cs).len() == cs.len(),
        forall|i: int| 0 <= i < cs.len() ==> #[trigger] view_nodes(cs)[i] == view_node(cs[i]),
    decreases cs.len(),
{
    if cs.len() > 0 {
        lemma_view_nodes(cs.drop_last());
    }
}

/// The objects a node holds itself.
pub open spec fn own_entries(t: SpecTree) -> Seq<(usize, usize)> {
    match t.value {
        Some(e) => e,
        None => Seq::empty(),
    }
}

/// The inclusive value of a node: its own objects, then those of each child's
/// inclusive value inserted in the order of the children.
pub open spec fn inclusive(t: SpecTree) -> Seq<(usize, usize)>
    decreases t,
{
    merge_children(own_entries(t), t.children)
}

/// `acc` with the inclusive values of `cs` inserted, in order.
pub open spec fn merge_children(acc: Seq<(usize, usize)>, cs: Seq<SpecTree>) -> Seq<(usize, usize)>
    decreases cs,
{
    if cs.len() == 0 {
        acc
    } else {
        extend_entries(merge_children(acc, cs.drop_last()), inclusive(cs.last()))
    }
}


/// The key by which a node is ordered among its siblings: the total size of
/// its inclusive value, or its number of objects.
pub open spec fn sort_key(t: SpecTree, by_size: bool) -> nat {
    if by_size {
        sum_sizes(inclusive(t))
    } else {
        inclusive(t).len()
    }
}

/// Index of the first element of `s` whose key is at most `k`, or `s.len()`.
pub open spec fn first_not_above<T>(s: Seq<(nat, T)>, k: nat) -> int
    decreases s.len(),
{
    if s.len() == 0 {
        0
    } else if s[0].0 <= k {
        0
    } else {
        1 + first_not_above(s.drop_first(), k)
    }
}

/// `x` inserted before the first element whose key is not above its own.
pub open spec fn insert_desc<T>(s: Seq<(nat, T)>, x: (nat, T)) -> Seq<(nat, T)> {
    s.insert(first_not_above(s, x.0), x)
}

/// The stable sort of `s` by descending key: elements with equal keys keep
/// their relative order.
pub open spec fn stable_sort_desc<T>(s: Seq<(nat, T)>) -> Seq<(nat, T)>
    decreases s.len(),
{
    if s.len() == 0 {
        s
    } else {
        insert_desc(stable_sort_desc(s.drop_first()), s[0])
    }
}

/// A tree whose every node has its children sorted by descending key; each
/// node's children are ordered by the keys they have before their own
/// subtrees are sorted.
pub open spec fn sorted_tree(t: SpecTree, by_size: bool) -> SpecTree
    decreases t,
{
    SpecTree {
        key: t.key,
        value: t.value,
        children: stable_sort_desc(keyed_sorted(t.children, by_size)).map_values(
            |p: (nat, SpecTree)| p.1,
        ),
    }
}

/// Each child with its key, and the child with its subtree sorted.
pub open spec fn keyed_sorted(cs: Seq<SpecTree>, by_size: bool) -> Seq<(nat, SpecTree)>
    decreases cs,
{
    if cs.len() == 0 {
        Seq::empty()
    } else {
        keyed_sorted(cs.drop_last(), by_size).push(
            (sort_key(cs.last(), by_size), sorted_tree(cs.last(), by_size)),
        )
    }
}

pub proof fn lemma_keyed_sorted(cs: Seq<SpecTree>, by_size: bool)
    ensures
        keyed_sorted(cs, by_size).len() == cs.len(),
        forall|i: int|
            0 <= i < cs.len() ==> #[trigger] keyed_sorted(cs, by_size)[i] == (
                sort_key(cs[i], by_size),
                sorted_tree(cs[i], by_size),
            ),
    decreases cs.len(),
{
    if cs.len() > 0 {
        lemma_keyed_sorted(cs.drop_last(), by_size);
    }
}

pub proof fn lemma_first_not_above<T>(s: Seq<(nat, T)>, k: nat)
    ensures
        0 <= first_not_above(s, k) <= s.len(),
        forall|i: int| 0 <= i < first_not_above(s, k) ==> s[i].0 > k,
        first_not_above(s, k) < s.len() ==> s[first_not_above(s, k)].0 <= k,
    decreases s.len(),
{
    if s.len() > 0 && s[0].0 > k {
        lemma_first_not_above(s.drop_first(), k);
        assert forall|i: int| 0 < i < s.len() implies s[i] == s.drop_first()[i - 1] by {}
    }
}

pub proof fn lemma_stable_sort_len<T>(s: Seq<(nat, T)>)
    ensures
        stable_sort_desc(s).len() == s.len(),
    decreases s.len(),
{
    if s.len() > 0 {
        lemma_stable_sort_len(s.drop_first());
        lemma_first_not_above(stable_sort_desc(s.drop_first()), s[0].0);
    }
}

impl TreeNode {
    /// A node with the given key, no value and no children.
    pub fn new(key: usize) -> (n: TreeNode)
        ensures
            n@ == (SpecTree { key, value: None, children: Seq::empty() }),
    {
        let n = TreeNode { key, value: None, children: Vec::new() };
        assert(view_nodes(n.children@) =~= Seq::<SpecTree>::empty());
        n
    }

    /// The node's own objects merged with the inclusive values of all its
    /// children.
    pub fn get_inclusive_value(&self) -> (r: References)
        ensures
            r@ == inclusive(self@),
        decreases self,
    {
        let mut value = match &self.value {
            Some(v) => v.duplicate(),
            None => References::new(),
        };
        proof {
            lemma_view_nodes(self.children@);
        }
        let n = self.children.len();
        let mut i: usize = 0;
        while i < n
            invariant
                n == self.children@.len(),
                i <= n,
                view_nodes(self.children@).len() == n,
                forall|j: int| 0 <= j < n ==> #[trigger] view_nodes(self.children@)[j] == view_node(self.children@[j]),
                value@ == merge_children(own_entries(self@), self@.children.take(i as int)),
            decreases n - i,
        {
            assert(decreases_to!(self => self.children@[i as int]));
            let c = self.children[i].get_inclusive_value();
            proof {
                let cs = self@.children;
                assert(cs.take(i + 1).drop_last() =~= cs.take(i as int));
                assert(cs.take(i + 1).last() == cs[i as int]);
            }
            value.add_assign(&c);
            i = i + 1;
        }
        assert(self@.children.take(n as int) =~= self@.children);
        value
    }

    /// The key of this node among its siblings (see `sort_key`).
    pub fn sort_key(&self, by_size: bool) -> (k: u128)
        ensures
            k == sort_key(self@, by_size),
    {
        let v = self.get_inclusive_value();
        if by_size {
            v.total_size()
        } else {
            v.len() as u128
        }
    }

    /// This tree with the children of every node sorted (see `sorted_tree`).
    #[verifier::loop_isolation(false)]
    pub fn into_sorted(self, by_size: bool) -> (r: TreeNode)
        ensures
            r@ == sorted_tree(self@, by_size),
        decreases self,
    {
        let ghost whole = self;
        let TreeNode { key, value, children } = self;
        let mut children = children;
        let ghost orig = children@;
        let ghost ks = keyed_sorted(view_nodes(orig), by_size);
        proof {
            lemma_view_nodes(orig);
            lemma_keyed_sorted(view_nodes(orig), by_size);
            assert(ks.skip(orig.len() as int) =~= Seq::<(nat, SpecTree)>::empty());
        }
        let mut keys: Vec<u128> = Vec::new();
        let mut nodes: Vec<TreeNode> = Vec::new();
        while children.len() > 0
            invariant
                whole.children@ == orig,
                children@.len() <= orig.len(),
                children@ == orig.take(children@.len() as int),
                view_nodes(orig).len() == orig.len(),
                forall|j: int| 0 <= j < orig.len() ==> #[trigger] view_nodes(orig)[j] == view_node(orig[j]),
                ks == keyed_sorted(view_nodes(orig), by_size),
                ks.len() == orig.len(),
                forall|j: int|
                    0 <= j < orig.len() ==> #[trigger] ks[j] == (
                        sort_key(view_nodes(orig)[j], by_size),
                        sorted_tree(view_nodes(orig)[j], by_size),
                    ),
                keys@.len() == nodes@.len(),
                stable_sort_desc(ks.skip(children@.len() as int)).len() == keys@.len(),
                forall|j: int|
                    0 <= j < keys@.len() ==> keys@[j] as nat == #[trigger] stable_sort_desc(
                        ks.skip(children@.len() as int),
                    )[j].0 && view_node(nodes@[j]) == stable_sort_desc(
                        ks.skip(children@.len() as int),
                    )[j].1,
            decreases children@.len(),
        {
            let ghost m = children@.len() as int;
            assert(orig.take(m)[m - 1] == orig[m - 1]);
            let c = children.pop().unwrap();
            assert(c == orig[m - 1]);
            assert(decreases_to!(whole => whole.children@[m - 1]));
            let k = c.sort_key(by_size);
            let sc = c.into_sorted(by_size);
            let ghost prev = stable_sort_desc(ks.skip(m));
            proof {
                lemma_first_not_above(prev, k as nat);
            }
            let mut j: usize = 0;
            while j < keys.len() && keys[j] > k
                invariant
                    j <= keys@.len(),
                    keys@.len() == prev.len(),
                    forall|i: int| 0 <= i < keys@.len() ==> keys@[i] as nat == #[trigger] prev[i].0,
                    forall|i: int| 0 <= i < j ==> prev[i].0 > k,
                decreases keys@.len() - j,
            {
                j = j + 1;
            }
            proof {
                lemma_first_not_above(prev, k as nat);
                if j < keys@.len() {
                    assert(keys@[j as int] <= k);
                    assert(prev[j as int].0 <= k);
                }
                assert(first_not_above(prev, k as nat) == j);
                assert(ks.skip(m - 1).drop_first() =~= ks.skip(m));
                assert(ks.skip(m - 1)[0] == ks[m - 1]);
                assert(ks[m - 1] == (k as nat, sc@));
                lemma_stable_sort_len(ks.skip(m - 1));
            }
            let ghost keys_before = keys@;
            let ghost nodes_before = nodes@;
            keys.insert(j, k);
            nodes.insert(j, sc);
            proof {
                let cur = stable_sort_desc(ks.skip(m - 1));
                assert(cur == prev.insert(j as int, (k as nat, sc@)));
                assert forall|i: int| 0 <= i < keys@.len() implies keys@[i] as nat == #[trigger] cur[i].0
                    && view_node(nodes@[i]) == cur[i].1 by {
                    if i < j {
                        assert(keys@[i] == keys_before[i]);
                        assert(nodes@[i] == nodes_before[i]);
                    } else if i == j {
                    } else {
                        assert(keys@[i] == keys_before[i - 1]);
                        assert(nodes@[i] == nodes_before[i - 1]);
                    }
                }
                assert(children@ =~= orig.take(m - 1));
            }
        }
        let ghost sorted = stable_sort_desc(ks.skip(0));
        proof {
            assert(ks.skip(0) =~= ks);
            lemma_view_nodes(nodes@);
            assert forall|i: int| 0 <= i < nodes@.len() implies #[trigger] view_nodes(nodes@)[i]
                == sorted.map_values(|p: (nat, SpecTree)| p.1)[i] by {
                assert(keys@[i] as nat == stable_sort_desc(ks.skip(children@.len() as int))[i].0);
                assert(view_node(nodes@[i]) == sorted[i].1);
            }
            assert(view_nodes(nodes@) =~= sorted.map_values(|p: (nat, SpecTree)| p.1));
            assert(view_nodes(orig) == whole@.children);
        }
        TreeNode { key, value, children: nodes }
    }

    /// Sorts the children of every node of this tree by descending key
    /// (stably; see `sorted_tree`).
    pub fn sort_by_iterative(&mut self, by_size: bool)
        ensures
            final(self)@ == sorted_tree(old(self)@, by_size),
    {
        let mut tree = TreeNode::new(0);
        std::mem::swap(&mut tree, self);
        *self = tree.into_sorted(by_size);
    }
}

} // verus!
