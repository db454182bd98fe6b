//! Building a Huffman tree from byte frequencies, and the compressed artifact.
//!
//! An artifact is the tree's binary form, the number of source bytes as an
//! 8-byte big-endian integer, then the codes of the source bytes packed
//! eight to a byte.
use vstd::prelude::*;
use vstd::slice::slice_subrange;
use crate::codec::{fits, lemma_serialise_round_trip, lemma_serialised_header, lemma_small_tree_fits, parse_tree, serialised};
use crate::error::CodecError;
use crate::packing::{
    bit_at,
    bits_of,
    body_bits,
    decode_body,
    decode_from,
    finish_bits,
    lemma_bits_of_push,
    lemma_decode_codes,
    pack_state,
    packs,
    push_bit,
};
use crate::tree::{HuffmanTree, lemma_leaf_bound, lemma_path_exists};
use crate::wire::{be_bytes, be_value, get_u16, get_u64, lemma_be_bytes_len, lemma_be_round_trip, lemma_byte_ranges, put_u64};

verus! {

/// How many times `v` occurs in `s`.
pub open spec fn occurrences(s: Seq<u8>, v: u8) -> nat
    decreases s.len(),
{
    if s.len() == 0 {
        0
    } else {
        occurrences(s.drop_last(), v) + if s.last() == v {
            1nat
        } else {
            0nat
        }
    }
}

/// Every leaf weighs as much as its value occurs in `d`.
pub open spec fn leaves_weigh(t: HuffmanTree, d: Seq<u8>) -> bool
    decreases t,
{
    match t {
        HuffmanTree::Leaf(w, _, v) => w == occurrences(d, v),
        HuffmanTree::Node(_, _, l, r) => leaves_weigh(*l, d) && leaves_weigh(*r, d),
    }
}

/// `t` is a Huffman tree for the bytes `d`: weights add up at every internal
/// node, children are flagged by side, the lighter child is on the left, and
/// there is exactly one leaf for each value that occurs in `d`, weighing its
/// number of occurrences.
pub open spec fn is_tree_for(t: HuffmanTree, d: Seq<u8>) -> bool {
    &&& t.wf()
    &&& t.left_lighter()
    &&& !t.is_left()
    &&& leaves_weigh(t, d)
    &&& forall|v: u8|
        #[trigger] t.leaf_count(v) == if occurrences(d, v) > 0 {
            1nat
        } else {
            0nat
        }
}

/// `a` is the artifact of `d` compressed with the tree `t`.
pub open spec fn is_artifact(t: HuffmanTree, d: Seq<u8>, a: Seq<u8>) -> bool {
    let n = serialised(t).len() + 8;
    &&& a.len() >= n
    &&& a.take(n as int) == serialised(t) + be_bytes(d.len(), 8)
    &&& packs(a.skip(n as int), bits_of(t, d))
}

/// What decompressing the artifact `a` gives.
pub open spec fn decompressed(a: Seq<u8>) -> Result<Seq<u8>, CodecError> {
    if a.len() < 18 {
        Err(CodecError::FormatError)
    } else {
        let tree_len = 18 + be_value(a.subrange(16, 18));
        if a.len() < tree_len + 8 {
            Err(CodecError::FormatError)
        } else {
            match parse_tree(a.take(tree_len as int), false) {
                None => Err(CodecError::FormatError),
                Some(t) => match decode_from(
                    t,
                    body_bits(a.skip(tree_len + 8 as int)),
                    0,
                    be_value(a.subrange(tree_len as int, tree_len + 8 as int)),
                ) {
                    Some(d) => Ok(d),
                    None => Err(CodecError::TruncatedStream),
                },
            }
        }
    }
}

/// The sum of the weights of `s`.
pub open spec fn weight_total(s: Seq<HuffmanTree>) -> nat
    decreases s.len(),
{
    if s.len() == 0 {
        0
    } else {
        weight_total(s.drop_last()) + s.last().weight() as nat
    }
}

/// How many leaves of the trees of `s` hold `v`.
pub open spec fn leaf_total(s: Seq<HuffmanTree>, v: u8) -> nat
    decreases s.len(),
{
    if s.len() == 0 {
        0
    } else {
        leaf_total(s.drop_last(), v) + s.last().leaf_count(v)
    }
}

/// How many bytes of `d` are below `k`.
pub open spec fn occurrences_below(d: Seq<u8>, k: nat) -> nat
    decreases k,
{
    if k == 0 {
        0
    } else {
        occurrences_below(d, (k - 1) as nat) + occurrences(d, (k - 1) as u8)
    }
}

/// Heaviest first.
pub open spec fn sorted_by_weight(s: Seq<HuffmanTree>) -> bool {
    forall|i: int, j: int| 0 <= i < j < s.len() ==> s[i].weight() >= s[j].weight()
}

proof fn lemma_totals_insert(s: Seq<HuffmanTree>, p: int, x: HuffmanTree, v: u8)
    requires
        0 <= p <= s.len(),
    ensures
        weight_total(s.insert(p, x)) == weight_total(s) + x.weight(),
        leaf_total(s.insert(p, x), v) == leaf_total(s, v) + x.leaf_count(v),
    decreases s.len(),
{
    let t = s.insert(p, x);
    if p == s.len() {
        assert(t.drop_last() =~= s);
    } else {
        assert(t.drop_last() =~= s.drop_last().insert(p, x));
        assert(t.last() == s.last());
        lemma_totals_insert(s.drop_last(), p, x, v);
    }
}

proof fn lemma_occurrences_le(s: Seq<u8>, v: u8)
    ensures
        occurrences(s, v) <= s.len(),
    decreases s.len(),
{
    if s.len() > 0 {
        lemma_occurrences_le(s.drop_last(), v);
    }
}

proof fn lemma_occurs(s: Seq<u8>, i: int)
    requires
        0 <= i < s.len(),
    ensures
        occurrences(s, s[i]) > 0,
    decreases s.len(),
{
    if i < s.len() - 1 {
        lemma_occurs(s.drop_last(), i);
    }
}

proof fn lemma_occurrences_below_last(d: Seq<u8>, k: nat)
    requires
        d.len() > 0,
        k <= 256,
    ensures
        occurrences_below(d, k) == occurrences_below(d.drop_last(), k) + if (d.last() as nat) < k {
            1nat
        } else {
            0nat
        },
    decreases k,
{
    if k > 0 {
        lemma_occurrences_below_last(d, (k - 1) as nat);
        assert(((k - 1) as u8) as nat == k - 1);
    }
}

proof fn lemma_occurrences_total(d: Seq<u8>)
    ensures
        occurrences_below(d, 256) == d.len(),
    decreases d.len(),
{
    if d.len() == 0 {
        assert forall|k: nat| k <= 256 implies occurrences_below(d, k) == 0 by {
            lemma_occurrences_zero(d, k);
        }
    } else {
        lemma_occurrences_total(d.drop_last());
        lemma_occurrences_below_last(d, 256);
    }
}

proof fn lemma_occurrences_zero(d: Seq<u8>, k: nat)
    requires
        d.len() == 0,
    ensures
        occurrences_below(d, k) == 0,
    decreases k,
{
    if k > 0 {
        lemma_occurrences_zero(d, (k - 1) as nat);
    }
}

proof fn lemma_with_flag(t: HuffmanTree, f: bool, d: Seq<u8>)
    ensures
        t.with_flag(f).weight() == t.weight(),
        t.with_flag(f).is_left() == f,
        t.with_flag(f).wf() == t.wf(),
        t.with_flag(f).left_lighter() == t.left_lighter(),
        leaves_weigh(t.with_flag(f), d) == leaves_weigh(t, d),
        t.with_flag(f).leaves() == t.leaves(),
        forall|v: u8| #[trigger] t.with_flag(f).leaf_count(v) == t.leaf_count(v),
{
}

/// A Huffman tree together with the values of its leaves, from left to right.
pub struct Huffman {
    pub tree: HuffmanTree,
    pub leaves: Vec<u8>,
}

/// Counts how many times each byte value occurs in `data`.
pub fn byte_frequencies(data: &[u8]) -> (r: Vec<u128>)
    ensures
        r@.len() == 256,
        forall|v: u8| #[trigger] r@[v as int] == occurrences(data@, v),
{
    let mut counts: Vec<u128> = Vec::new();
    let mut k: usize = 0;
    while k < 256
        invariant
            k <= 256,
            counts@.len() == k,
            forall|j: int| 0 <= j < k ==> counts@[j] == 0,
        decreases 256 - k,
    {
        counts.push(0);
        k = k + 1;
    }
    let mut i: usize = 0;
    while i < data.len()
        invariant
            i <= data@.len(),
            counts@.len() == 256,
            forall|v: u8| #[trigger] counts@[v as int] == occurrences(data@.take(i as int), v),
        decreases data@.len() - i,
    {
        let b = data[i];
        proof {
            lemma_occurrences_le(data@.take(i as int), b);
            assert(data@.take(i as int + 1).drop_last() =~= data@.take(i as int));
        }
        let c = counts[b as usize];
        counts.set(b as usize, c + 1);
        i = i + 1;
    }
    assert(data@.take(data@.len() as int) =~= data@);
    counts
}

/// Inserts `x` after every node at least as heavy, keeping `nodes` sorted
/// heaviest first; returns where it went.
fn insert_sorted(nodes: &mut Vec<HuffmanTree>, x: HuffmanTree) -> (p: usize)
    requires
        sorted_by_weight(old(nodes)@),
    ensures
        p <= old(nodes)@.len(),
        final(nodes)@ == old(nodes)@.insert(p as int, x),
        sorted_by_weight(final(nodes)@),
{
    let w = x.get_weight();
    let mut p: usize = 0;
    while p < nodes.len() && nodes[p].get_weight() >= w
        invariant
            p <= nodes@.len(),
            forall|i: int| 0 <= i < p ==> nodes@[i].weight() >= w,
        decreases nodes@.len() - p,
    {
        p = p + 1;
    }
    let ghost s = nodes@;
    nodes.insert(p, x);
    proof {
        s.insert_ensures(p as int, x);
        assert forall|i: int, j: int| 0 <= i < j < nodes@.len() implies nodes@[i].weight()
            >= nodes@[j].weight() by {
            if j < p {
            } else if j == p {
            } else if i < p {
                assert(nodes@[j] == s[j - 1]);
            } else if i == p {
                assert(nodes@[j] == s[j - 1]);
                assert(s[p as int].weight() < w);
            } else {
                assert(nodes@[i] == s[i - 1]);
                assert(nodes@[j] == s[j - 1]);
            }
        }
    }
    p
}

impl Huffman {
    /// The tree of `self` is well formed and `leaves` lists its leaves.
    pub open spec fn wf(self) -> bool {
        &&& self.tree.wf()
        &&& !self.tree.is_left()
        &&& self.leaves@ == self.tree.leaves()
        &&& forall|v: u8| #[trigger] self.tree.leaf_count(v) <= 1
    }

    /// Builds the Huffman tree of `data`: `None` when `data` is empty.
    pub fn from_data(data: &[u8]) -> (r: Option<Huffman>)
        ensures
            data@.len() == 0 <==> r is None,
            r matches Some(h) ==> {
                &&& is_tree_for(h.tree, data@)
                &&& h.tree.weight() == data@.len()
                &&& h.leaves@ == h.tree.leaves()
                &&& h.wf()
            },
    {
        if data.len() == 0 {
            return None;
        }
        let counts = byte_frequencies(data);
        let ghost d = data@;
        let mut nodes: Vec<HuffmanTree> = Vec::new();
        let mut k: usize = 0;
        while k < 256
            invariant
                k <= 256,
                counts@.len() == 256,
                forall|v: u8| #[trigger] counts@[v as int] == occurrences(d, v),
                d == data@,
                sorted_by_weight(nodes@),
                forall|i: int|
                    0 <= i < nodes@.len() ==> {
                        &&& (#[trigger] nodes@[i]).wf()
                        &&& nodes@[i].left_lighter()
                        &&& !nodes@[i].is_left()
                        &&& leaves_weigh(nodes@[i], d)
                    },
                forall|v: u8|
                    #[trigger] leaf_total(nodes@, v) == if (v as int) < k && occurrences(d, v) > 0 {
                        1nat
                    } else {
                        0nat
                    },
                weight_total(nodes@) == occurrences_below(d, k as nat),
            decreases 256 - k,
        {
            let c = counts[k];
            let ghost before = nodes@;
            proof {
                assert(counts@[(k as u8) as int] == occurrences(d, k as u8));
            }
            if c > 0 {
                let leaf = HuffmanTree::Leaf(c, false, k as u8);
                let p = insert_sorted(&mut nodes, leaf);
                proof {
                    before.insert_ensures(p as int, leaf);
                    assert forall|v: u8|
                        #[trigger] leaf_total(nodes@, v) == if (v as int) < k + 1 && occurrences(
                            d,
                            v,
                        ) > 0 {
                            1nat
                        } else {
                            0nat
                        } by {
                        lemma_totals_insert(before, p as int, leaf, v);
                    }
                    lemma_totals_insert(before, p as int, leaf, 0);
                    assert forall|i: int| 0 <= i < nodes@.len() implies {
                        &&& (#[trigger] nodes@[i]).wf()
                        &&& nodes@[i].left_lighter()
                        &&& !nodes@[i].is_left()
                        &&& leaves_weigh(nodes@[i], d)
                    } by {
                        if i < p {
                        } else if i > p {
                            assert(nodes@[i] == before[i - 1]);
                        }
                    }
                }
            } else {
                proof {
                    assert forall|v: u8|
                        #[trigger] leaf_total(nodes@, v) == if (v as int) < k + 1 && occurrences(
                            d,
                            v,
                        ) > 0 {
                            1nat
                        } else {
                            0nat
                        } by {
                        if v as int == k {
                            assert(v == k as u8);
                        }
                    }
                }
            }
            k = k + 1;
        }
        proof {
            lemma_occurrences_total(d);
            let v = data@[0];
            lemma_occurs(d, 0);
            if nodes@.len() == 0 {
                assert(leaf_total(nodes@, v) == 0);
            }
        }
        while nodes.len() > 1
            invariant
                nodes@.len() >= 1,
                d == data@,
                d.len() <= usize::MAX,
                sorted_by_weight(nodes@),
                forall|i: int|
                    0 <= i < nodes@.len() ==> {
                        &&& (#[trigger] nodes@[i]).wf()
                        &&& nodes@[i].left_lighter()
                        &&& !nodes@[i].is_left()
                        &&& leaves_weigh(nodes@[i], d)
                    },
                forall|v: u8|
                    #[trigger] leaf_total(nodes@, v) == if occurrences(d, v) > 0 {
                        1nat
                    } else {
                        0nat
                    },
                weight_total(nodes@) == d.len(),
            decreases nodes@.len(),
        {
            let ghost s0 = nodes@;
            let mut a = match nodes.pop() {
                Some(x) => x,
                None => {
                    return None;
                },
            };
            let mut b = match nodes.pop() {
                Some(x) => x,
                None => {
                    return None;
                },
            };
            let ghost s2 = nodes@;
            proof {
                assert(s0.drop_last().drop_last() =~= s2);
                assert(a == s0[s0.len() - 1]);
                assert(b == s0[s0.len() - 2]);
                assert(sorted_by_weight(s2));
            }
            let ghost (a0, b0) = (a, b);
            a.set_parent(true);
            b.set_parent(false);
            proof {
                lemma_with_flag(a0, true, d);
                lemma_with_flag(b0, false, d);
                assert(s0.drop_last() =~= s2.push(b0));
                assert(s0.last() == a0);
                assert(s0.drop_last().last() == b0);
                assert(s0.drop_last().drop_last() == s2);
                assert(weight_total(s0) == weight_total(s0.drop_last()) + a0.weight());
                assert(weight_total(s0.drop_last()) == weight_total(s2) + b0.weight());
                assert(d.len() <= u128::MAX);
            }
            let w = a.get_weight() + b.get_weight();
            let node = HuffmanTree::Node(w, false, Box::new(a), Box::new(b));
            let p = insert_sorted(&mut nodes, node);
            proof {
                s2.insert_ensures(p as int, node);
                assert(node.wf());
                assert(node.left_lighter());
                assert forall|v: u8| #[trigger]
                    leaf_total(nodes@, v) == if occurrences(d, v) > 0 {
                        1nat
                    } else {
                        0nat
                    } by {
                    lemma_totals_insert(s2, p as int, node, v);
                    assert(s0.drop_last() =~= s2.push(b0));
                    assert(leaf_total(s0.drop_last(), v) == leaf_total(s2, v) + b0.leaf_count(v));
                    assert(leaf_total(s0, v) == leaf_total(s0.drop_last(), v) + a0.leaf_count(v));
                    assert(a0.with_flag(true).leaf_count(v) == a0.leaf_count(v));
                    assert(b0.with_flag(false).leaf_count(v) == b0.leaf_count(v));
                    assert(node.leaf_count(v) == a0.leaf_count(v) + b0.leaf_count(v));
                }
                lemma_totals_insert(s2, p as int, node, 0);
                assert(s0.drop_last() =~= s2.push(b0));
                assert forall|i: int| 0 <= i < nodes@.len() implies {
                    &&& (#[trigger] nodes@[i]).wf()
                    &&& nodes@[i].left_lighter()
                    &&& !nodes@[i].is_left()
                    &&& leaves_weigh(nodes@[i], d)
                } by {
                    if i < p {
                        assert(nodes@[i] == s0[i]);
                    } else if i > p {
                        assert(nodes@[i] == s2[i - 1]);
                        assert(s2[i - 1] == s0[i - 1]);
                    }
                }
            }
        }
        let ghost last = nodes@;
        let root = match nodes.pop() {
            Some(x) => x,
            None => {
                return None;
            },
        };
        proof {
            assert(last.drop_last() =~= Seq::<HuffmanTree>::empty());
            assert(root == last[0]);
            assert forall|v: u8| #[trigger] root.leaf_count(v) == if occurrences(d, v) > 0 {
                1nat
            } else {
                0nat
            } by {
                assert(leaf_total(last, v) == leaf_total(last.drop_last(), v) + root.leaf_count(v));
            }
            assert(weight_total(last) == weight_total(last.drop_last()) + root.weight());
        }
        Some(Huffman::from_tree(root))
    }

    /// Pairs a tree with the list of its leaves.
    pub fn from_tree(tree: HuffmanTree) -> (r: Huffman)
        ensures
            r.tree == tree,
            r.leaves@ == tree.leaves(),
    {
        let mut leaves: Vec<u8> = Vec::new();
        tree.collect_leaves(&mut leaves);
        assert(Seq::<u8>::empty() + tree.leaves() =~= tree.leaves());
        Huffman { tree, leaves }
    }

    /// The code of `data`: the branch decisions from the root to its leaf
    /// (`true` for left), or `None` when no leaf holds it.
    pub fn get_path(&self, data: u8) -> (r: Option<Vec<bool>>)
        ensures
            match self.tree.path_of(data) {
                Some(p) => r matches Some(c) && c@ == p,
                None => r is None,
            },
    {
        let mut acc: Vec<bool> = Vec::new();
        if self.tree.find_path(data, &mut acc) {
            assert(Seq::<bool>::empty() + self.tree.path_of(data).unwrap() =~= self.tree.path_of(
                data,
            ).unwrap());
            Some(acc)
        } else {
            None
        }
    }

    /// The values held by the leaves, in the order of `leaves`.
    pub fn get_all_bytes(&self) -> (r: Vec<u8>)
        ensures
            r@ == self.leaves@,
    {
        let mut res: Vec<u8> = Vec::new();
        let mut i: usize = 0;
        while i < self.leaves.len()
            invariant
                i <= self.leaves@.len(),
                res@ == self.leaves@.take(i as int),
            decreases self.leaves@.len() - i,
        {
            res.push(self.leaves[i]);
            i = i + 1;
            assert(res@ =~= self.leaves@.take(i as int));
        }
        assert(self.leaves@.take(i as int) =~= self.leaves@);
        res
    }

    /// Packs the codes of the bytes of `data`, eight bits to a byte; `None`
    /// when some byte of `data` has no leaf.
    pub fn encode(&self, data: &[u8]) -> (r: Option<Vec<u8>>)
        ensures
            (forall|i: int| 0 <= i < data@.len() ==> (#[trigger] self.tree.path_of(data@[i])) is Some)
                ==> (r matches Some(b) && packs(b@, bits_of(self.tree, data@))),
            !(forall|i: int| 0 <= i < data@.len() ==> (#[trigger] self.tree.path_of(data@[i])) is Some)
                ==> r is None,
    {
        let ghost t = self.tree;
        let mut table: Vec<Option<Vec<bool>>> = Vec::new();
        let mut v: usize = 0;
        while v < 256
            invariant
                v <= 256,
                table@.len() == v,
                t == self.tree,
                forall|u: int|
                    0 <= u < v ==> match #[trigger] table@[u] {
                        Some(c) => t.path_of(u as u8) == Some(c@),
                        None => t.path_of(u as u8) is None,
                    },
            decreases 256 - v,
        {
            let code = self.get_path(v as u8);
            table.push(code);
            v = v + 1;
        }
        let mut res: Vec<u8> = Vec::new();
        let mut byte: u8 = 0;
        let mut nb: u8 = 0;
        proof {
            assert forall|q: u8| q < 8 implies (((byte >> q) & 1u8 == 1u8) == (q < nb
                && Seq::<bool>::empty()[8 * res@.len() + q])) by {
                assert((0u8 >> q) & 1u8 == 0u8) by (bit_vector);
            }
            assert(data@.take(0) =~= Seq::<u8>::empty());
        }
        let mut i: usize = 0;
        while i < data.len()
            invariant
                i <= data@.len(),
                t == self.tree,
                table@.len() == 256,
                forall|u: int|
                    0 <= u < 256 ==> match #[trigger] table@[u] {
                        Some(c) => t.path_of(u as u8) == Some(c@),
                        None => t.path_of(u as u8) is None,
                    },
                forall|j: int| 0 <= j < i ==> (#[trigger] t.path_of(data@[j])) is Some,
                pack_state(res@, byte, nb, bits_of(t, data@.take(i as int))),
            decreases data@.len() - i,
        {
            let x = data[i];
            let ghost done = bits_of(t, data@.take(i as int));
            assert(table@[x as int] == table@[(x as u8) as int]);
            match &table[x as usize] {
                None => {
                    assert(t.path_of(data@[i as int]) is None);
                    return None;
                },
                Some(code) => {
                    let mut j: usize = 0;
                    while j < code.len()
                        invariant
                            j <= code@.len(),
                            pack_state(res@, byte, nb, done + code@.take(j as int)),
                        decreases code@.len() - j,
                    {
                        push_bit(&mut res, &mut byte, &mut nb, code[j], Ghost(done + code@.take(j as int)));
                        assert(done + code@.take(j as int).push(code@[j as int]) =~= done + code@.take(j as int + 1));
                        assert((done + code@.take(j as int)).push(code@[j as int]) =~= done + code@.take(j as int + 1));
                        j = j + 1;
                    }
                    proof {
                        assert(code@.take(j as int) =~= code@);
                        assert(data@.take(i as int + 1) =~= data@.take(i as int).push(x));
                        lemma_bits_of_push(t, data@.take(i as int), x);
                    }
                },
            }
            i = i + 1;
        }
        assert(data@.take(i as int) =~= data@);
        finish_bits(&mut res, byte, nb, Ghost(bits_of(t, data@)));
        Some(res)
    }

    /// Compresses `data` into an artifact; fails on empty input.
    pub fn compress(data: &[u8]) -> (r: Result<Vec<u8>, CodecError>)
        ensures
            data@.len() == 0 ==> r == Err::<Vec<u8>, CodecError>(CodecError::EmptyInput),
            data@.len() > 0 ==> (r matches Ok(a) && {
                &&& exists|t: HuffmanTree| #[trigger] is_tree_for(t, data@) && is_artifact(t, data@, a@)
                &&& decompressed(a@) == Ok::<Seq<u8>, CodecError>(data@)
            }),
    {
        let h = match Huffman::from_data(data) {
            Some(h) => h,
            None => {
                return Err(CodecError::EmptyInput);
            },
        };
        let ghost t = h.tree;
        proof {
            lemma_leaf_bound(t);
            lemma_small_tree_fits(t);
        }
        let mut res = match h.tree.serialise() {
            Ok(b) => b,
            Err(e) => {
                return Err(e);
            },
        };
        put_u64(&mut res, data.len() as u64);
        proof {
            assert forall|i: int| 0 <= i < data@.len() implies (#[trigger] t.path_of(data@[i])) is Some by {
                lemma_occurs(data@, i);
                lemma_path_exists(t, data@[i]);
            }
        }
        let mut body = match h.encode(data) {
            Some(b) => b,
            None => {
                return Err(CodecError::FormatError);
            },
        };
        let ghost header = res@;
        let ghost packed = body@;
        res.append(&mut body);
        proof {
            let n = serialised(t).len() + 8;
            lemma_be_bytes_len(data@.len(), 8);
            assert(header == serialised(t) + be_bytes(data@.len(), 8));
            assert(header.len() == n);
            assert(res@.take(n as int) =~= header);
            assert(res@.skip(n as int) =~= packed);
            lemma_round_trip(t, data@, res@);
        }
        Ok(res)
    }

    /// Recovers the bytes that an artifact was compressed from.
    pub fn decompress(data: &[u8]) -> (r: Result<Vec<u8>, CodecError>)
        ensures
            match decompressed(data@) {
                Ok(d) => r matches Ok(out) && out@ == d,
                Err(e) => r == Err::<Vec<u8>, CodecError>(e),
            },
    {
        if data.len() < 18 {
            return Err(CodecError::FormatError);
        }
        let size_field = slice_subrange(data, 16, 18);
        let size = get_u16(size_field);
        assert(size_field@.subrange(0, 2) =~= data@.subrange(16, 18));
        let tree_len = 18 + size as usize;
        if data.len() < tree_len + 8 {
            return Err(CodecError::FormatError);
        }
        let tree = match HuffmanTree::deserialise(slice_subrange(data, 0, tree_len)) {
            Ok(t) => t,
            Err(e) => {
                return Err(e);
            },
        };
        let len_field = slice_subrange(data, tree_len, tree_len + 8);
        let n = get_u64(len_field);
        assert(len_field@.subrange(0, 8) =~= data@.subrange(tree_len as int, tree_len + 8));
        let body = slice_subrange(data, tree_len + 8, data.len());
        match decode_body(&tree, body, n) {
            Some(out) => Ok(out),
            None => Err(CodecError::TruncatedStream),
        }
    }
}

/// The tree built for some bytes fits its binary form, and parsing that form
/// gives back the same tree: the same weights, values and codes.
pub proof fn lemma_tree_serialise_round_trip(t: HuffmanTree, d: Seq<u8>)
    requires
        is_tree_for(t, d),
    ensures
        fits(t),
        parse_tree(serialised(t), false) == Some(t),
{
    assert forall|v: u8| #[trigger] t.leaf_count(v) <= 1 by {
        assert(t.leaf_count(v) == if occurrences(d, v) > 0 { 1nat } else { 0nat });
    }
    lemma_leaf_bound(t);
    lemma_small_tree_fits(t);
    lemma_serialise_round_trip(t);
}

/// Decompressing an artifact of `d` gives back `d`.
pub proof fn lemma_round_trip(t: HuffmanTree, d: Seq<u8>, a: Seq<u8>)
    requires
        d.len() <= u64::MAX,
        is_tree_for(t, d),
        is_artifact(t, d, a),
    ensures
        decompressed(a) == Ok::<Seq<u8>, CodecError>(d),
{
    let st = serialised(t);
    lemma_tree_serialise_round_trip(t, d);
    lemma_serialised_header(t);
    lemma_byte_ranges();
    let n = st.len() + 8;
    let prefix = st + be_bytes(d.len(), 8);
    assert(a.subrange(16, 18) =~= st.subrange(16, 18)) by {
        assert(a.take(n as int)[16] == prefix[16]);
        assert(a.take(n as int)[17] == prefix[17]);
    }
    lemma_be_round_trip((st.len() - 18) as nat, 2);
    let tree_len = 18 + be_value(a.subrange(16, 18));
    assert(tree_len == st.len());
    assert(a.take(tree_len as int) =~= st) by {
        assert forall|i: int| 0 <= i < st.len() implies a[i] == st[i] by {
            assert(a.take(n as int)[i] == prefix[i]);
        }
    }
    lemma_be_round_trip(d.len(), 8);
    assert(a.subrange(tree_len as int, tree_len + 8 as int) =~= be_bytes(d.len(), 8)) by {
        assert forall|i: int| 0 <= i < 8 implies a[st.len() + i] == be_bytes(d.len(), 8)[i] by {
            assert(a.take(n as int)[st.len() + i] == prefix[st.len() + i]);
        }
    }
    let body = a.skip(n as int);
    let bits = bits_of(t, d);
    assert forall|i: int| 0 <= i < d.len() implies (#[trigger] t.path_of(d[i])) is Some by {
        lemma_occurs(d, i);
        lemma_path_exists(t, d[i]);
        assert(t.leaf_count(d[i]) == 1);
    }
    assert forall|j: int| 0 <= j < bits.len() implies body_bits(body)[0 + j] == bits[j] by {
        assert(bit_at(body, j) == (j < bits.len() && bits[j]));
    }
    lemma_decode_codes(t, d, body_bits(body), 0);
}

} // verus!
