//! Packing codes into bytes and walking the tree over packed bits.
//!
//! Bit `k` of a packed body is bit `k % 8` (least significant first) of byte
//! `k / 8`; the unused high bits of the last byte are zero.
use vstd::prelude::*;
use crate::tree::{HuffmanTree, lemma_walk_code};

verus! {

/// Bit `k` of the packed bytes `body`.
pub open spec fn bit_at(body: Seq<u8>, k: int) -> bool {
    (body[k / 8] >> ((k % 8) as u8)) & 1u8 == 1u8
}

/// All the bits of the packed bytes `body`, padding included.
pub open spec fn body_bits(body: Seq<u8>) -> Seq<bool> {
    Seq::new(8 * body.len(), |k: int| bit_at(body, k))
}

/// `body` holds exactly the bits `bits`, in as few bytes as they need, and
/// zeros after them.
pub open spec fn packs(body: Seq<u8>, bits: Seq<bool>) -> bool {
    &&& body.len() == (bits.len() + 7) / 8
    &&& forall|k: int| 0 <= k < 8 * body.len() ==> bit_at(body, k) == (k < bits.len() && bits[k])
}

/// The code of `v` in `t`, empty when no leaf holds `v`.
pub open spec fn code_of(t: HuffmanTree, v: u8) -> Seq<bool> {
    match t.path_of(v) {
        Some(p) => p,
        None => Seq::empty(),
    }
}

/// The codes of the bytes of `d`, one after the other.
pub open spec fn bits_of(t: HuffmanTree, d: Seq<u8>) -> Seq<bool>
    decreases d.len(),
{
    if d.len() == 0 {
        Seq::empty()
    } else {
        code_of(t, d[0]) + bits_of(t, d.skip(1))
    }
}

/// The `n` bytes read by walking `t` from its root `n` times over `bits`,
/// starting at position `pos`; `None` when the bits run out first.
pub open spec fn decode_from(t: HuffmanTree, bits: Seq<bool>, pos: int, n: nat) -> Option<Seq<u8>>
    decreases n,
{
    if n == 0 {
        Some(Seq::empty())
    } else {
        match t.walk(bits, pos) {
            None => None,
            Some((v, p)) => match decode_from(t, bits, p, (n - 1) as nat) {
                Some(rest) => Some(seq![v] + rest),
                None => None,
            },
        }
    }
}

/// The state of a packer that has taken the bits `bits`: full bytes in
/// `res`, the `nb` bits that follow in the low bits of `byte`.
pub open spec fn pack_state(res: Seq<u8>, byte: u8, nb: u8, bits: Seq<bool>) -> bool {
    &&& nb <= 8
    &&& bits.len() == 8 * res.len() + nb
    &&& forall|k: int| 0 <= k < 8 * res.len() ==> bit_at(res, k) == bits[k]
    &&& forall|q: u8| q < 8 ==> (((byte >> q) & 1u8 == 1u8) == (q < nb && bits[8 * res.len() + q]))
}

pub proof fn lemma_bits_of_push(t: HuffmanTree, d: Seq<u8>, x: u8)
    ensures
        bits_of(t, d.push(x)) == bits_of(t, d) + code_of(t, x),
    decreases d.len(),
{
    if d.len() == 0 {
        assert(d.push(x).skip(1) =~= Seq::<u8>::empty());
        assert(d.push(x)[0] == x);
        assert(bits_of(t, d.push(x).skip(1)) == Seq::<bool>::empty());
        assert(bits_of(t, d.push(x)) =~= code_of(t, x) + Seq::<bool>::empty());
        assert(bits_of(t, d) + code_of(t, x) =~= code_of(t, x));
    } else {
        assert(d.push(x).skip(1) =~= d.skip(1).push(x));
        lemma_bits_of_push(t, d.skip(1), x);
        assert(d.push(x)[0] == d[0]);
        assert(bits_of(t, d.push(x)) =~= bits_of(t, d) + code_of(t, x));
    }
}

/// Walking the tree over bits that begin with the codes of `d` reads back `d`.
pub proof fn lemma_decode_codes(t: HuffmanTree, d: Seq<u8>, bits: Seq<bool>, pos: int)
    requires
        forall|i: int| 0 <= i < d.len() ==> (#[trigger] t.path_of(d[i])) is Some,
        0 <= pos,
        pos + bits_of(t, d).len() <= bits.len(),
        forall|j: int| 0 <= j < bits_of(t, d).len() ==> bits[pos + j] == bits_of(t, d)[j],
    ensures
        decode_from(t, bits, pos, d.len()) == Some(d),
    decreases d.len(),
{
    if d.len() > 0 {
        let c = code_of(t, d[0]);
        let rest = d.skip(1);
        let all = bits_of(t, d);
        assert(t.path_of(d[0]) is Some);
        assert forall|j: int| 0 <= j < c.len() implies bits[pos + j] == t.path_of(d[0]).unwrap()[j] by {
            assert(all[j] == c[j]);
        }
        lemma_walk_code(t, d[0], bits, pos);
        assert forall|i: int| 0 <= i < rest.len() implies (#[trigger] t.path_of(rest[i])) is Some by {
            assert(rest[i] == d[i + 1]);
        }
        assert forall|j: int| 0 <= j < bits_of(t, rest).len() implies bits[pos + c.len() + j] == bits_of(t, rest)[j] by {
            assert(all[c.len() + j] == bits_of(t, rest)[j]);
        }
        lemma_decode_codes(t, rest, bits, pos + c.len());
        assert(seq![d[0]] + rest =~= d);
    }
}

/// Adds one bit to a packer's state, emitting a byte when eight are waiting.
pub(crate) fn push_bit(res: &mut Vec<u8>, byte: &mut u8, nb: &mut u8, bit: bool, Ghost(bits): Ghost<Seq<bool>>)
    requires
        pack_state(old(res)@, *old(byte), *old(nb), bits),
    ensures
        pack_state(final(res)@, *final(byte), *final(nb), bits.push(bit)),
{
    if *nb == 8 {
        let ghost b = *byte;
        let ghost len = res@.len();
        res.push(*byte);
        *byte = 0;
        *nb = 0;
        assert forall|k: int| 0 <= k < 8 * res@.len() implies bit_at(res@, k) == bits[k] by {
            if k >= 8 * len {
                assert(k / 8 == len);
                let q = (k % 8) as u8;
                assert(k == 8 * len + q);
                assert(res@[k / 8] == b);
            } else {
                assert(res@[k / 8] == old(res)@[k / 8]);
            }
        }
        assert forall|q: u8| q < 8 implies (0u8 >> q) & 1u8 != 1u8 by {
            assert((0u8 >> q) & 1u8 == 0u8) by (bit_vector);
        }
    }
    let ghost before = *byte;
    let n = *nb;
    if bit {
        *byte = *byte | (1u8 << n);
    }
    *nb = n + 1;
    let ghost new_bits = bits.push(bit);
    assert forall|q: u8| q < 8 implies (((*byte >> q) & 1u8 == 1u8) == (q < *nb && new_bits[8 * res@.len() + q])) by {
        let after = *byte;
        if bit {
            assert(((before | (1u8 << n)) >> q) & 1u8 == if q == n { 1u8 } else { (before >> q) & 1u8 }) by (bit_vector)
                requires n < 8, q < 8;
        }
        if q < n {
            assert(new_bits[8 * res@.len() + q] == bits[8 * res@.len() + q]);
        }
    }
    assert forall|k: int| 0 <= k < 8 * res@.len() implies bit_at(res@, k) == new_bits[k] by {
        assert(new_bits[k] == bits[k]);
    }
}

/// Emits the last, partly filled byte of a packer, if there is one.
pub(crate) fn finish_bits(res: &mut Vec<u8>, byte: u8, nb: u8, Ghost(bits): Ghost<Seq<bool>>)
    requires
        pack_state(old(res)@, byte, nb, bits),
    ensures
        packs(final(res)@, bits),
{
    let ghost len = res@.len();
    if nb > 0 {
        res.push(byte);
    }
    assert forall|k: int| 0 <= k < 8 * res@.len() implies bit_at(res@, k) == (k < bits.len() && bits[k]) by {
        if k >= 8 * len {
            assert(k / 8 == len);
            let q = (k % 8) as u8;
            assert(k == 8 * len + q);
            assert(res@[k / 8] == byte);
        } else {
            assert(res@[k / 8] == old(res)@[k / 8]);
        }
    }
}

/// Walks `t` from its root over the bits of `body` from position `pos` on.
pub(crate) fn walk_body(t: &HuffmanTree, body: &[u8], pos: u128) -> (r: Option<(u8, u128)>)
    requires
        pos <= 8 * body@.len(),
    ensures
        match r {
            Some((v, p)) => t.walk(body_bits(body@), pos as int) == Some((v, p as int)) && pos <= p
                <= 8 * body@.len(),
            None => t.walk(body_bits(body@), pos as int) is None,
        },
    decreases t,
{
    match t {
        HuffmanTree::Leaf(_, _, v) => Some((*v, pos)),
        HuffmanTree::Node(_, _, l, r) => {
            if pos >= 8 * (body.len() as u128) {
                return None;
            }
            let b = body[(pos / 8) as usize];
            let bit = (b >> ((pos % 8) as u8)) & 1u8 == 1u8;
            assert(bit == body_bits(body@)[pos as int]);
            if bit {
                walk_body(l, body, pos + 1)
            } else {
                walk_body(r, body, pos + 1)
            }
        },
    }
}

/// Reads `n` bytes from the packed `body` by walking `t` from its root once
/// per byte; `None` when the bits run out first.
pub fn decode_body(t: &HuffmanTree, body: &[u8], n: u64) -> (r: Option<Vec<u8>>)
    ensures
        match decode_from(*t, body_bits(body@), 0, n as nat) {
            Some(d) => r matches Some(out) && out@ == d,
            None => r is None,
        },
{
    let ghost bits = body_bits(body@);
    let mut out: Vec<u8> = Vec::new();
    let mut pos: u128 = 0;
    let mut i: u64 = 0;
    while i < n
        invariant
            i <= n,
            pos <= 8 * body@.len(),
            bits == body_bits(body@),
            decode_from(*t, bits, 0, n as nat) == match decode_from(*t, bits, pos as int, (n - i) as nat) {
                Some(rest) => Some(out@ + rest),
                None => None,
            },
        decreases n - i,
    {
        match walk_body(t, body, pos) {
            None => {
                return None;
            },
            Some((v, p)) => {
                let ghost prev = out@;
                out.push(v);
                proof {
                    match decode_from(*t, bits, p as int, (n - i - 1) as nat) {
                        Some(rest) => {
                            assert(prev + (seq![v] + rest) =~= out@ + rest);
                        },
                        None => {},
                    }
                }
                pos = p;
                i = i + 1;
            },
        }
    }
    assert(out@ + Seq::<u8>::empty() =~= out@);
    Some(out)
}

} // verus!
