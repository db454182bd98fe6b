//! The Huffman tree: a strict binary tree whose leaves hold byte values.
use vstd::prelude::*;

verus! {

/// A node of a Huffman tree.
///
/// Each node carries its weight and its branch flag: `true` when the node is
/// its parent's left child, `false` when it is the right child or the root.
/// Children are owned; a node reaches its parent only through the path that
/// leads down to it, so no back-reference is stored.
#[derive(Debug, PartialEq, Eq)]
pub enum HuffmanTree {
    /// weight, branch flag, left child, right child
    Node(u128, bool, Box<HuffmanTree>, Box<HuffmanTree>),
    /// weight, branch flag, byte value
    Leaf(u128, bool, u8),
}

impl HuffmanTree {
    pub open spec fn weight(self) -> u128 {
        match self {
            HuffmanTree::Node(w, _, _, _) => w,
            HuffmanTree::Leaf(w, _, _) => w,
        }
    }

    pub open spec fn is_left(self) -> bool {
        match self {
            HuffmanTree::Node(_, f, _, _) => f,
            HuffmanTree::Leaf(_, f, _) => f,
        }
    }

    /// The same node with its branch flag set to `f`.
    pub open spec fn with_flag(self, f: bool) -> HuffmanTree {
        match self {
            HuffmanTree::Node(w, _, l, r) => HuffmanTree::Node(w, f, l, r),
            HuffmanTree::Leaf(w, _, v) => HuffmanTree::Leaf(w, f, v),
        }
    }

    /// Every internal node weighs what its two children weigh together.
    pub open spec fn weights_consistent(self) -> bool
        decreases self,
    {
        match self {
            HuffmanTree::Node(w, _, l, r) => {
                &&& w == l.weight() + r.weight()
                &&& l.weights_consistent()
                &&& r.weights_consistent()
            },
            HuffmanTree::Leaf(_, _, _) => true,
        }
    }

    /// Every left child is flagged left and every right child is flagged right.
    pub open spec fn flags_consistent(self) -> bool
        decreases self,
    {
        match self {
            HuffmanTree::Node(_, _, l, r) => {
                &&& l.is_left()
                &&& !r.is_left()
                &&& l.flags_consistent()
                &&& r.flags_consistent()
            },
            HuffmanTree::Leaf(_, _, _) => true,
        }
    }

    /// At every internal node the left child weighs no more than the right
    /// one: the lighter of two merged nodes goes left.
    pub open spec fn left_lighter(self) -> bool
        decreases self,
    {
        match self {
            HuffmanTree::Node(_, _, l, r) => {
                &&& l.weight() <= r.weight()
                &&& l.left_lighter()
                &&& r.left_lighter()
            },
            HuffmanTree::Leaf(_, _, _) => true,
        }
    }

    pub open spec fn wf(self) -> bool {
        self.weights_consistent() && self.flags_consistent()
    }

    /// The byte values of the leaves, from left to right.
    pub open spec fn leaves(self) -> Seq<u8>
        decreases self,
    {
        match self {
            HuffmanTree::Node(_, _, l, r) => l.leaves() + r.leaves(),
            HuffmanTree::Leaf(_, _, v) => seq![v],
        }
    }

    /// How many leaves hold the value `v`.
    pub open spec fn leaf_count(self, v: u8) -> nat
        decreases self,
    {
        match self {
            HuffmanTree::Node(_, _, l, r) => l.leaf_count(v) + r.leaf_count(v),
            HuffmanTree::Leaf(_, _, x) => if x == v {
                1
            } else {
                0
            },
        }
    }

    pub open spec fn num_leaves(self) -> nat
        decreases self,
    {
        match self {
            HuffmanTree::Node(_, _, l, r) => l.num_leaves() + r.num_leaves(),
            HuffmanTree::Leaf(_, _, _) => 1,
        }
    }

    /// The code of `v`: the branch decisions from the root down to the
    /// leftmost leaf holding `v` (`true` for left), if there is one.
    pub open spec fn path_of(self, v: u8) -> Option<Seq<bool>>
        decreases self,
    {
        match self {
            HuffmanTree::Leaf(_, _, x) => if x == v {
                Some(Seq::empty())
            } else {
                None
            },
            HuffmanTree::Node(_, _, l, r) => match l.path_of(v) {
                Some(p) => Some(seq![true] + p),
                None => match r.path_of(v) {
                    Some(p) => Some(seq![false] + p),
                    None => None,
                },
            },
        }
    }

    /// Descends from this node following `bits` from position `pos` on
    /// (`true` goes left) until a leaf: its value and the position after the
    /// bits used. `None` when the bits run out first.
    pub open spec fn walk(self, bits: Seq<bool>, pos: int) -> Option<(u8, int)>
        decreases self,
    {
        match self {
            HuffmanTree::Leaf(_, _, v) => Some((v, pos)),
            HuffmanTree::Node(_, _, l, r) => if 0 <= pos < bits.len() {
                if bits[pos] {
                    l.walk(bits, pos + 1)
                } else {
                    r.walk(bits, pos + 1)
                }
            } else {
                None
            },
        }
    }

    pub fn get_weight(&self) -> (r: u128)
        ensures
            r == self.weight(),
    {
        match self {
            HuffmanTree::Node(w, _, _, _) => *w,
            HuffmanTree::Leaf(w, _, _) => *w,
        }
    }

    /// Whether this node is its parent's left child.
    pub fn get_left_right(&self) -> (r: bool)
        ensures
            r == self.is_left(),
    {
        match self {
            HuffmanTree::Node(_, lr, _, _) => *lr,
            HuffmanTree::Leaf(_, lr, _) => *lr,
        }
    }

    /// Records on which side of its parent this node hangs.
    pub fn set_parent(&mut self, left_right: bool)
        ensures
            *final(self) == old(self).with_flag(left_right),
    {
        match self {
            HuffmanTree::Node(_, lr, _, _) => {
                *lr = left_right;
            },
            HuffmanTree::Leaf(_, lr, _) => {
                *lr = left_right;
            },
        }
    }

    /// The byte value of a leaf; `None` for an internal node.
    pub fn get_data(&self) -> (r: Option<u8>)
        ensures
            r == (match self {
                HuffmanTree::Leaf(_, _, v) => Some(*v),
                HuffmanTree::Node(_, _, _, _) => None::<u8>,
            }),
    {
        match self {
            HuffmanTree::Node(_, _, _, _) => None,
            HuffmanTree::Leaf(_, _, d) => Some(*d),
        }
    }

    /// Appends the code of `v` to `acc` and returns `true`, or leaves `acc`
    /// as it was and returns `false` when no leaf holds `v`.
    pub fn find_path(&self, v: u8, acc: &mut Vec<bool>) -> (found: bool)
        ensures
            found == self.path_of(v) is Some,
            found ==> final(acc)@ == old(acc)@ + self.path_of(v).unwrap(),
            !found ==> final(acc)@ == old(acc)@,
        decreases self,
    {
        match self {
            HuffmanTree::Leaf(_, _, x) => {
                assert(old(acc)@ + Seq::<bool>::empty() =~= old(acc)@);
                *x == v
            },
            HuffmanTree::Node(_, _, l, r) => {
                acc.push(true);
                if l.find_path(v, acc) {
                    assert(old(acc)@.push(true) + l.path_of(v).unwrap() =~= old(acc)@ + (seq![true]
                        + l.path_of(v).unwrap()));
                    return true;
                }
                acc.pop();
                assert(acc@ =~= old(acc)@);
                acc.push(false);
                if r.find_path(v, acc) {
                    assert(old(acc)@.push(false) + r.path_of(v).unwrap() =~= old(acc)@ + (seq![
                        false,
                    ] + r.path_of(v).unwrap()));
                    return true;
                }
                acc.pop();
                assert(acc@ =~= old(acc)@);
                false
            },
        }
    }

    /// Appends the values of the leaves, from left to right, to `out`.
    pub fn collect_leaves(&self, out: &mut Vec<u8>)
        ensures
            final(out)@ == old(out)@ + self.leaves(),
        decreases self,
    {
        match self {
            HuffmanTree::Leaf(_, _, v) => {
                out.push(*v);
            },
            HuffmanTree::Node(_, _, l, r) => {
                l.collect_leaves(out);
                r.collect_leaves(out);
                assert(old(out)@ + l.leaves() + r.leaves() =~= old(out)@ + (l.leaves()
                    + r.leaves()));
            },
        }
    }
}

/// Following the bits of `v`'s code from `pos` on leads to a leaf holding `v`,
/// and uses exactly those bits.
pub proof fn lemma_walk_code(t: HuffmanTree, v: u8, bits: Seq<bool>, pos: int)
    requires
        t.path_of(v) is Some,
        0 <= pos,
        pos + t.path_of(v).unwrap().len() <= bits.len(),
        forall|j: int|
            0 <= j < t.path_of(v).unwrap().len() ==> bits[pos + j] == t.path_of(v).unwrap()[j],
    ensures
        t.walk(bits, pos) == Some((v, pos + t.path_of(v).unwrap().len())),
    decreases t,
{
    match t {
        HuffmanTree::Leaf(_, _, x) => {},
        HuffmanTree::Node(_, _, l, r) => {
            let p = t.path_of(v).unwrap();
            assert(bits[pos + 0] == p[0]);
            match l.path_of(v) {
                Some(q) => {
                    assert forall|j: int| 0 <= j < q.len() implies bits[pos + 1 + j] == q[j] by {
                        assert(bits[pos + (j + 1)] == p[j + 1]);
                    }
                    lemma_walk_code(*l, v, bits, pos + 1);
                },
                None => {
                    let q = r.path_of(v).unwrap();
                    assert forall|j: int| 0 <= j < q.len() implies bits[pos + 1 + j] == q[j] by {
                        assert(bits[pos + (j + 1)] == p[j + 1]);
                    }
                    lemma_walk_code(*r, v, bits, pos + 1);
                },
            }
        },
    }
}

/// Codes are prefix-free: the code of one value is never a prefix of the code
/// of another value.
pub proof fn lemma_codes_prefix_free(t: HuffmanTree, a: u8, b: u8)
    requires
        a != b,
        t.path_of(a) is Some,
        t.path_of(b) is Some,
    ensures
        !t.path_of(a).unwrap().is_prefix_of(t.path_of(b).unwrap()),
    decreases t,
{
    match t {
        HuffmanTree::Leaf(_, _, _) => {},
        HuffmanTree::Node(_, _, l, r) => {
            let pa = t.path_of(a).unwrap();
            let pb = t.path_of(b).unwrap();
            if pa.is_prefix_of(pb) {
                assert(pa[0] == pb[0]);
                match (l.path_of(a), l.path_of(b)) {
                    (Some(qa), Some(qb)) => {
                        lemma_codes_prefix_free(*l, a, b);
                        assert(qa =~= pa.subrange(1, pa.len() as int));
                        assert(pa =~= pb.subrange(0, pa.len() as int));
                        assert(qa =~= pb.subrange(1, pa.len() as int));
                        assert(qb.subrange(0, qa.len() as int) =~= pb.subrange(
                            1,
                            pa.len() as int,
                        ));
                    },
                    (None, None) => {
                        let qa = r.path_of(a).unwrap();
                        let qb = r.path_of(b).unwrap();
                        lemma_codes_prefix_free(*r, a, b);
                        assert(qa =~= pa.subrange(1, pa.len() as int));
                        assert(pa =~= pb.subrange(0, pa.len() as int));
                        assert(qa =~= pb.subrange(1, pa.len() as int));
                        assert(qb.subrange(0, qa.len() as int) =~= pb.subrange(
                            1,
                            pa.len() as int,
                        ));
                    },
                    _ => {},
                }
            }
        },
    }
}

/// A value has a code exactly when some leaf holds it.
pub proof fn lemma_path_exists(t: HuffmanTree, v: u8)
    ensures
        (t.path_of(v) is Some) == (t.leaf_count(v) > 0),
        t.leaves().contains(v) == (t.leaf_count(v) > 0),
    decreases t,
{
    match t {
        HuffmanTree::Leaf(_, _, x) => {
            assert(t.leaves()[0] == x);
        },
        HuffmanTree::Node(_, _, l, r) => {
            lemma_path_exists(*l, v);
            lemma_path_exists(*r, v);
            let ls = l.leaves();
            let rs = r.leaves();
            if ls.contains(v) {
                let i = choose|i: int| 0 <= i < ls.len() && ls[i] == v;
                assert(t.leaves()[i] == v);
            }
            if rs.contains(v) {
                let i = choose|i: int| 0 <= i < rs.len() && rs[i] == v;
                assert(t.leaves()[ls.len() + i] == v);
            }
            if t.leaves().contains(v) {
                let i = choose|i: int| 0 <= i < t.leaves().len() && t.leaves()[i] == v;
                if i < ls.len() {
                    assert(ls[i] == v);
                } else {
                    assert(rs[i - ls.len()] == v);
                }
            }
        },
    }
}

/// How many leaves hold a value below `k`.
pub open spec fn leaves_below(t: HuffmanTree, k: nat) -> nat
    decreases k,
{
    if k == 0 {
        0
    } else {
        leaves_below(t, (k - 1) as nat) + t.leaf_count((k - 1) as u8)
    }
}

proof fn lemma_leaves_below_node(w: u128, f: bool, l: HuffmanTree, r: HuffmanTree, k: nat)
    ensures
        leaves_below(HuffmanTree::Node(w, f, Box::new(l), Box::new(r)), k) == leaves_below(l, k)
            + leaves_below(r, k),
    decreases k,
{
    if k > 0 {
        lemma_leaves_below_node(w, f, l, r, (k - 1) as nat);
    }
}

proof fn lemma_leaves_below_leaf(w: u128, f: bool, x: u8, k: nat)
    requires
        k <= 256,
    ensures
        leaves_below(HuffmanTree::Leaf(w, f, x), k) == if (x as nat) < k {
            1nat
        } else {
            0nat
        },
    decreases k,
{
    if k > 0 {
        lemma_leaves_below_leaf(w, f, x, (k - 1) as nat);
        assert(((k - 1) as u8) as nat == k - 1);
    }
}

proof fn lemma_num_leaves(t: HuffmanTree)
    ensures
        t.num_leaves() == leaves_below(t, 256),
    decreases t,
{
    match t {
        HuffmanTree::Node(w, f, l, r) => {
            lemma_num_leaves(*l);
            lemma_num_leaves(*r);
            lemma_leaves_below_node(w, f, *l, *r, 256);
        },
        HuffmanTree::Leaf(w, f, x) => {
            lemma_leaves_below_leaf(w, f, x, 256);
        },
    }
}

proof fn lemma_leaves_below_bound(t: HuffmanTree, k: nat)
    requires
        forall|v: u8| t.leaf_count(v) <= 1,
    ensures
        leaves_below(t, k) <= k,
    decreases k,
{
    if k > 0 {
        lemma_leaves_below_bound(t, (k - 1) as nat);
        assert(t.leaf_count((k - 1) as u8) <= 1);
    }
}

/// A tree whose leaves hold pairwise distinct values has at most 256 leaves.
pub proof fn lemma_leaf_bound(t: HuffmanTree)
    requires
        forall|v: u8| t.leaf_count(v) <= 1,
    ensures
        t.num_leaves() <= 256,
{
    lemma_num_leaves(t);
    lemma_leaves_below_bound(t, 256);
}

} // verus!
