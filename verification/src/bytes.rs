//! Byte sequences: copies, comparison, bitwise sums.

use vstd::prelude::*;

verus! {

/// The byte sequences held by a sequence of vectors.
pub open spec fn byte_views(v: Seq<Vec<u8>>) -> Seq<Seq<u8>> {
    Seq::new(v.len(), |i: int| v[i]@)
}

/// Bitwise sum of two byte sequences, as long as the first.
pub open spec fn xor_bytes(a: Seq<u8>, b: Seq<u8>) -> Seq<u8> {
    Seq::new(a.len(), |i: int| a[i] ^ b[i])
}

/// `len` zero bytes.
pub open spec fn zero_bytes(len: nat) -> Seq<u8> {
    Seq::new(len, |i: int| 0u8)
}

pub proof fn lemma_xor_zero(a: Seq<u8>, len: nat)
    requires
        a.len() == len,
    ensures
        xor_bytes(a, zero_bytes(len)) == a,
{
    assert forall|i: int| 0 <= i < a.len() implies (#[trigger] xor_bytes(a, zero_bytes(len))[i])
        == a[i] by {
        let x = a[i];
        assert(x ^ 0u8 == x) by (bit_vector);
    }
    assert(xor_bytes(a, zero_bytes(len)) =~= a);
}

/// Copies a byte slice into a vector of its own.
pub fn copy_bytes(bytes: &[u8]) -> (r: Vec<u8>)
    ensures
        r@ == bytes@,
{
    let mut out: Vec<u8> = Vec::with_capacity(bytes.len());
    let mut i: usize = 0;
    while i < bytes.len()
        invariant
            i <= bytes.len(),
            out@ == bytes@.take(i as int),
        decreases bytes.len() - i,
    {
        out.push(bytes[i]);
        i += 1;
        assert(bytes@.take(i as int) =~= bytes@.take(i - 1).push(bytes@[i - 1]));
    }
    assert(bytes@.take(i as int) =~= bytes@);
    out
}

/// Appends bytes to a vector.
pub fn append_bytes(out: &mut Vec<u8>, bytes: &[u8])
    ensures
        final(out)@ == old(out)@ + bytes@,
{
    let ghost before = out@;
    let mut i: usize = 0;
    while i < bytes.len()
        invariant
            i <= bytes.len(),
            out@ == before + bytes@.take(i as int),
        decreases bytes.len() - i,
    {
        out.push(bytes[i]);
        i += 1;
        assert(out@ =~= before + bytes@.take(i as int));
    }
    assert(bytes@.take(i as int) =~= bytes@);
}

/// Whether two byte slices hold the same bytes.
pub fn bytes_equal(a: &[u8], b: &[u8]) -> (r: bool)
    ensures
        r == (a@ == b@),
{
    if a.len() != b.len() {
        return false;
    }
    let mut i: usize = 0;
    while i < a.len()
        invariant
            i <= a.len(),
            a.len() == b.len(),
            forall|j: int| 0 <= j < i ==> a@[j] == b@[j],
        decreases a.len() - i,
    {
        if a[i] != b[i] {
            return false;
        }
        i += 1;
    }
    assert(a@ =~= b@);
    true
}

/// `len` zero bytes.
pub fn zeros(len: usize) -> (r: Vec<u8>)
    ensures
        r@ == zero_bytes(len as nat),
{
    let mut out: Vec<u8> = Vec::with_capacity(len);
    let mut i: usize = 0;
    while i < len
        invariant
            i <= len,
            out@ == zero_bytes(i as nat),
        decreases len - i,
    {
        out.push(0u8);
        i += 1;
        assert(out@ =~= zero_bytes(i as nat));
    }
    out
}

/// A number in two bytes, the high one first.
pub open spec fn be16(n: int) -> Seq<u8> {
    seq![(n / 256) as u8, (n % 256) as u8]
}

/// A number in four bytes, the high ones first.
pub open spec fn be32(n: int) -> Seq<u8> {
    be16(n / 65536) + be16(n % 65536)
}

/// A number in eight bytes, the high ones first; a negative one as its
/// complement.
pub open spec fn be64(n: int) -> Seq<u8> {
    let bits = if n < 0 {
        n + 0x1_0000_0000_0000_0000
    } else {
        n
    };
    be32(bits / 0x1_0000_0000) + be32(bits % 0x1_0000_0000)
}

/// Appends a number in two bytes.
pub fn append_be16(out: &mut Vec<u8>, n: u16)
    ensures
        final(out)@ == old(out)@ + be16(n as int),
{
    let ghost before = out@;
    out.push((n / 256) as u8);
    out.push((n % 256) as u8);
    assert(out@ =~= before + be16(n as int));
}

/// Appends a number in four bytes.
pub fn append_be32(out: &mut Vec<u8>, n: u32)
    ensures
        final(out)@ == old(out)@ + be32(n as int),
{
    let ghost before = out@;
    append_be16(out, (n / 65536) as u16);
    append_be16(out, (n % 65536) as u16);
    assert(out@ =~= before + be32(n as int));
}

/// Appends an integer in eight bytes.
pub fn append_be64(out: &mut Vec<u8>, n: i64)
    ensures
        final(out)@ == old(out)@ + be64(n as int),
{
    let ghost before = out@;
    let bits: u64 = if n < 0 {
        (n as i128 + 0x1_0000_0000_0000_0000) as u64
    } else {
        n as u64
    };
    append_be32(out, (bits / 0x1_0000_0000) as u32);
    append_be32(out, (bits % 0x1_0000_0000) as u32);
    assert(out@ =~= before + be64(n as int));
}

} // verus!
