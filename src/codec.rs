//! The binary form of a Huffman tree.
//!
//! Each node is written depth-first as a 16-byte big-endian weight, a 2-byte
//! big-endian payload size, then its payload: for a leaf (payload size 1) the
//! byte value, for an internal node the left subtree's form followed by the
//! right subtree's form, whose lengths add up to the payload size.
use vstd::prelude::*;
use vstd::slice::slice_subrange;
use crate::error::CodecError;
use crate::tree::HuffmanTree;
use crate::wire::{
    be_bytes,
    be_value,
    byte_range,
    get_u128,
    get_u16,
    lemma_be_bytes_len,
    lemma_be_round_trip,
    lemma_byte_ranges,
    put_u128,
    put_u16,
};

verus! {

/// The bytes that the tree is written as.
pub open spec fn serialised(t: HuffmanTree) -> Seq<u8>
    decreases t,
{
    match t {
        HuffmanTree::Leaf(w, _, v) => be_bytes(w as nat, 16) + be_bytes(1, 2) + seq![v],
        HuffmanTree::Node(w, _, l, r) => be_bytes(w as nat, 16) + be_bytes(
            (serialised(*l).len() + serialised(*r).len()) as nat,
            2,
        ) + serialised(*l) + serialised(*r),
    }
}

/// Every internal node's payload fits the 16-bit size field.
pub open spec fn fits(t: HuffmanTree) -> bool
    decreases t,
{
    match t {
        HuffmanTree::Leaf(_, _, _) => true,
        HuffmanTree::Node(_, _, l, r) => {
            &&& serialised(*l).len() + serialised(*r).len() <= 0xffff
            &&& fits(*l)
            &&& fits(*r)
        },
    }
}

/// The tree that the bytes `s` denote, exactly and entirely, with the branch
/// flag `flag` on its root; `None` when the size fields do not agree with the
/// bytes present.
pub open spec fn parse_tree(s: Seq<u8>, flag: bool) -> Option<HuffmanTree>
    decreases s.len(),
{
    if s.len() < 18 {
        None
    } else {
        let w = be_value(s.subrange(0, 16));
        let size = be_value(s.subrange(16, 18));
        if s.len() != 18 + size {
            None
        } else if size == 1 {
            Some(HuffmanTree::Leaf(w as u128, flag, s[18]))
        } else if size < 18 {
            None
        } else {
            let split = 36 + be_value(s.subrange(34, 36));
            if split > s.len() {
                None
            } else {
                match (
                    parse_tree(s.subrange(18, split as int), true),
                    parse_tree(s.subrange(split as int, s.len() as int), false),
                ) {
                    (Some(l), Some(r)) => Some(
                        HuffmanTree::Node(w as u128, flag, Box::new(l), Box::new(r)),
                    ),
                    _ => None,
                }
            }
        }
    }
}

/// The header of a node's form: its size field holds the length of what follows.
pub proof fn lemma_serialised_header(t: HuffmanTree)
    ensures
        serialised(t).len() == 37 * t.num_leaves() - 18,
        serialised(t).len() >= 19,
        fits(t) ==> serialised(t).len() <= 18 + 0xffff,
        fits(t) ==> serialised(t).subrange(16, 18) == be_bytes(
            (serialised(t).len() - 18) as nat,
            2,
        ),
    decreases t,
{
    let s = serialised(t);
    match t {
        HuffmanTree::Leaf(w, _, v) => {
            lemma_be_bytes_len(w as nat, 16);
            lemma_be_bytes_len(1, 2);
            assert(s.subrange(16, 18) =~= be_bytes(1, 2));
        },
        HuffmanTree::Node(w, _, l, r) => {
            lemma_serialised_header(*l);
            lemma_serialised_header(*r);
            let size = (serialised(*l).len() + serialised(*r).len()) as nat;
            lemma_be_bytes_len(w as nat, 16);
            lemma_be_bytes_len(size, 2);
            assert(s.subrange(16, 18) =~= be_bytes(size, 2));
        },
    }
}

/// A tree with at most 256 leaves always fits the size fields.
pub proof fn lemma_small_tree_fits(t: HuffmanTree)
    requires
        t.num_leaves() <= 256,
    ensures
        fits(t),
    decreases t,
{
    if let HuffmanTree::Node(_, _, l, r) = t {
        lemma_serialised_header(*l);
        lemma_serialised_header(*r);
        lemma_small_tree_fits(*l);
        lemma_small_tree_fits(*r);
    }
}

/// Parsing the form of a tree gives back the tree.
pub proof fn lemma_serialise_round_trip(t: HuffmanTree)
    requires
        t.flags_consistent(),
        fits(t),
    ensures
        parse_tree(serialised(t), t.is_left()) == Some(t),
    decreases t,
{
    let s = serialised(t);
    lemma_byte_ranges();
    lemma_serialised_header(t);
    match t {
        HuffmanTree::Leaf(w, f, v) => {
            lemma_be_round_trip(w as nat, 16);
            lemma_be_round_trip(1, 2);
            assert(s.subrange(0, 16) =~= be_bytes(w as nat, 16));
            assert(s[18] == v);
        },
        HuffmanTree::Node(w, f, l, r) => {
            let sl = serialised(*l);
            let sr = serialised(*r);
            let size = (sl.len() + sr.len()) as nat;
            lemma_serialised_header(*l);
            lemma_serialised_header(*r);
            lemma_be_round_trip(w as nat, 16);
            lemma_be_round_trip(size, 2);
            lemma_be_round_trip((sl.len() - 18) as nat, 2);
            assert(s.subrange(0, 16) =~= be_bytes(w as nat, 16));
            assert(s.subrange(34, 36) =~= sl.subrange(16, 18));
            let split = 18 + sl.len();
            assert(s.subrange(18, split as int) =~= sl);
            assert(s.subrange(split as int, s.len() as int) =~= sr);
            lemma_serialise_round_trip(*l);
            lemma_serialise_round_trip(*r);
        },
    }
}

/// Changing the size field of a valid tree form, and nothing else, makes it
/// invalid: the form's length no longer matches the declared payload.
pub proof fn lemma_size_field_checked(s: Seq<u8>, c: Seq<u8>, flag: bool)
    requires
        parse_tree(s, flag) is Some,
        c.len() == s.len(),
        c.subrange(16, 18) != s.subrange(16, 18),
    ensures
        parse_tree(c, flag) is None,
{
    let x = s.subrange(16, 18);
    let y = c.subrange(16, 18);
    assert(x.drop_last().drop_last() =~= Seq::<u8>::empty());
    assert(y.drop_last().drop_last() =~= Seq::<u8>::empty());
    assert(be_value(x.drop_last().drop_last()) == 0);
    assert(be_value(y.drop_last().drop_last()) == 0);
    assert(be_value(x.drop_last()) == x[0] as nat);
    assert(be_value(y.drop_last()) == y[0] as nat);
    assert(be_value(x) == x[0] as nat * 256 + x[1] as nat);
    assert(be_value(y) == y[0] as nat * 256 + y[1] as nat);
    if x[0] == y[0] && x[1] == y[1] {
        assert(x =~= y);
    }
}

impl HuffmanTree {
    /// Writes the tree in its binary form; fails when a subtree's payload
    /// exceeds the 16-bit size field.
    pub fn serialise(&self) -> (r: Result<Vec<u8>, CodecError>)
        ensures
            fits(*self) ==> (r matches Ok(b) && b@ == serialised(*self)),
            !fits(*self) ==> r == Err::<Vec<u8>, CodecError>(CodecError::OversizedSubtree),
        decreases self,
    {
        match self {
            HuffmanTree::Leaf(w, _, v) => {
                let mut res: Vec<u8> = Vec::new();
                put_u128(&mut res, *w);
                put_u16(&mut res, 1);
                res.push(*v);
                Ok(res)
            },
            HuffmanTree::Node(w, _, l, r) => {
                let mut left_bytes = match l.serialise() {
                    Ok(b) => b,
                    Err(e) => {
                        return Err(e);
                    },
                };
                let mut right_bytes = match r.serialise() {
                    Ok(b) => b,
                    Err(e) => {
                        return Err(e);
                    },
                };
                proof {
                    lemma_serialised_header(**l);
                    lemma_serialised_header(**r);
                }
                if left_bytes.len() + right_bytes.len() > 0xffff {
                    return Err(CodecError::OversizedSubtree);
                }
                let size = (left_bytes.len() + right_bytes.len()) as u16;
                let mut res: Vec<u8> = Vec::new();
                put_u128(&mut res, *w);
                put_u16(&mut res, size);
                res.append(&mut left_bytes);
                res.append(&mut right_bytes);
                Ok(res)
            },
        }
    }

    /// Reads a tree from its binary form, which must fill `bytes` exactly.
    pub fn deserialise(bytes: &[u8]) -> (r: Result<HuffmanTree, CodecError>)
        ensures
            r == match parse_tree(bytes@, false) {
                Some(t) => Ok(t),
                None => Err(CodecError::FormatError),
            },
    {
        match parse_slice(bytes, false) {
            Some(t) => Ok(t),
            None => Err(CodecError::FormatError),
        }
    }
}

fn parse_slice(s: &[u8], flag: bool) -> (r: Option<HuffmanTree>)
    ensures
        r == parse_tree(s@, flag),
    decreases s@.len(),
{
    if s.len() < 18 {
        return None;
    }
    let w = get_u128(s);
    let size_field = slice_subrange(s, 16, 18);
    let size = get_u16(size_field);
    assert(size_field@.subrange(0, 2) =~= s@.subrange(16, 18));
    if s.len() != 18 + size as usize {
        return None;
    }
    if size == 1 {
        return Some(HuffmanTree::Leaf(w, flag, s[18]));
    }
    if size < 18 {
        return None;
    }
    let left_field = slice_subrange(s, 34, 36);
    let left_size = get_u16(left_field);
    assert(left_field@.subrange(0, 2) =~= s@.subrange(34, 36));
    let split = 36 + left_size as usize;
    if split > s.len() {
        return None;
    }
    let left = match parse_slice(slice_subrange(s, 18, split), true) {
        Some(t) => t,
        None => {
            return None;
        },
    };
    let right = match parse_slice(slice_subrange(s, split, s.len()), false) {
        Some(t) => t,
        None => {
            return None;
        },
    };
    Some(HuffmanTree::Node(w, flag, Box::new(left), Box::new(right)))
}

} // verus!
