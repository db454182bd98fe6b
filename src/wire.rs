//! Fixed-width big-endian integers on byte buffers, through the `bytes` crate.
use vstd::prelude::*;

verus! {

/// The number that the bytes of `s` denote, most significant byte first.
pub open spec fn be_value(s: Seq<u8>) -> nat
    decreases s.len(),
{
    if s.len() == 0 {
        0
    } else {
        be_value(s.drop_last()) * 256 + s.last() as nat
    }
}

/// The `k` lowest bytes of `n`, most significant byte first.
pub open spec fn be_bytes(n: nat, k: nat) -> Seq<u8>
    decreases k,
{
    if k == 0 {
        Seq::empty()
    } else {
        be_bytes(n / 256, (k - 1) as nat).push((n % 256) as u8)
    }
}

/// `256` to the power `k`: the count of values that `k` bytes can hold.
pub open spec fn byte_range(k: nat) -> nat
    decreases k,
{
    if k == 0 {
        1
    } else {
        256 * byte_range((k - 1) as nat)
    }
}

pub proof fn lemma_be_bytes_len(n: nat, k: nat)
    ensures
        be_bytes(n, k).len() == k,
    decreases k,
{
    if k > 0 {
        lemma_be_bytes_len(n / 256, (k - 1) as nat);
    }
}

/// Reading back `k` bytes written for a number below `256^k` gives the number.
pub proof fn lemma_be_round_trip(n: nat, k: nat)
    requires
        n < byte_range(k),
    ensures
        be_value(be_bytes(n, k)) == n,
        be_bytes(n, k).len() == k,
    decreases k,
{
    lemma_be_bytes_len(n, k);
    if k > 0 {
        let p = byte_range((k - 1) as nat);
        assert(n / 256 < p) by (nonlinear_arith)
            requires
                n < 256 * p,
        ;
        lemma_be_round_trip(n / 256, (k - 1) as nat);
        let s = be_bytes(n, k);
        assert(s.drop_last() =~= be_bytes(n / 256, (k - 1) as nat));
        assert(n == (n / 256) * 256 + n % 256) by (nonlinear_arith);
    }
}

pub proof fn lemma_byte_ranges()
    ensures
        byte_range(2) == 0x1_0000,
        byte_range(8) == 0x1_0000_0000_0000_0000,
        byte_range(16) == 0x1_0000_0000_0000_0000_0000_0000_0000_0000,
{
    reveal_with_fuel(byte_range, 17);
}

/// Relies on `bytes::BufMut::put_u128` for `Vec<u8>`: it appends the
/// 16 big-endian bytes of `n` (`n.to_be_bytes()`).
#[verifier::external_body]
pub(crate) fn put_u128(buf: &mut Vec<u8>, n: u128)
    ensures
        final(buf)@ == old(buf)@ + be_bytes(n as nat, 16),
{
    bytes::BufMut::put_u128(buf, n)
}

/// Relies on `bytes::BufMut::put_u64` for `Vec<u8>`: it appends the
/// 8 big-endian bytes of `n`.
#[verifier::external_body]
pub(crate) fn put_u64(buf: &mut Vec<u8>, n: u64)
    ensures
        final(buf)@ == old(buf)@ + be_bytes(n as nat, 8),
{
    bytes::BufMut::put_u64(buf, n)
}

/// Relies on `bytes::BufMut::put_u16` for `Vec<u8>`: it appends the
/// 2 big-endian bytes of `n`.
#[verifier::external_body]
pub(crate) fn put_u16(buf: &mut Vec<u8>, n: u16)
    ensures
        final(buf)@ == old(buf)@ + be_bytes(n as nat, 2),
{
    bytes::BufMut::put_u16(buf, n)
}

/// Relies on `bytes::Buf::get_u128` for `&[u8]`: it reads the first 16 bytes
/// as a big-endian number (`u128::from_be_bytes`); it panics on fewer bytes.
#[verifier::external_body]
pub(crate) fn get_u128(s: &[u8]) -> (r: u128)
    requires
        s@.len() >= 16,
    ensures
        r as nat == be_value(s@.subrange(0, 16)),
{
    let mut cursor: &[u8] = s;
    bytes::Buf::get_u128(&mut cursor)
}

/// Relies on `bytes::Buf::get_u64` for `&[u8]`: it reads the first 8 bytes
/// as a big-endian number; it panics on fewer bytes.
#[verifier::external_body]
pub(crate) fn get_u64(s: &[u8]) -> (r: u64)
    requires
        s@.len() >= 8,
    ensures
        r as nat == be_value(s@.subrange(0, 8)),
{
    let mut cursor: &[u8] = s;
    bytes::Buf::get_u64(&mut cursor)
}

/// Relies on `bytes::Buf::get_u16` for `&[u8]`: it reads the first 2 bytes
/// as a big-endian number; it panics on fewer bytes.
#[verifier::external_body]
pub(crate) fn get_u16(s: &[u8]) -> (r: u16)
    requires
        s@.len() >= 2,
    ensures
        r as nat == be_value(s@.subrange(0, 2)),
{
    let mut cursor: &[u8] = s;
    bytes::Buf::get_u16(&mut cursor)
}

} // verus!
