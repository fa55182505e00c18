//! Big-endian, length-prefixed coding of primitives, and the errors a
//! decoder can report on malformed input.

use vstd::prelude::*;

verus! {

/// Why a decoder rejected its input.
#[derive(Clone, Copy, Debug, PartialEq, Eq, Structural)]
pub enum DecodeError {
    /// A tagged sum carried an unknown tag byte.
    InvalidTag(u8),
    /// The input ended before the announced structure was complete.
    UnexpectedEof,
}

/// The four big-endian bytes of a 32-bit integer.
pub open spec fn be_bytes_u32(x: u32) -> Seq<u8> {
    seq![
        ((x >> 24) & 0xff) as u8,
        ((x >> 16) & 0xff) as u8,
        ((x >> 8) & 0xff) as u8,
        (x & 0xff) as u8,
    ]
}

/// The eight big-endian bytes of a 64-bit integer.
pub open spec fn be_bytes_u64(x: u64) -> Seq<u8> {
    seq![
        ((x >> 56) & 0xff) as u8,
        ((x >> 48) & 0xff) as u8,
        ((x >> 40) & 0xff) as u8,
        ((x >> 32) & 0xff) as u8,
        ((x >> 24) & 0xff) as u8,
        ((x >> 16) & 0xff) as u8,
        ((x >> 8) & 0xff) as u8,
        (x & 0xff) as u8,
    ]
}

/// The 32-bit integer read back from four big-endian bytes.
pub open spec fn u32_of_be(b: Seq<u8>) -> u32
    recommends
        b.len() == 4,
{
    ((b[0] as u32) << 24 | (b[1] as u32) << 16 | (b[2] as u32) << 8 | (b[3] as u32)) as u32
}

/// The 64-bit integer read back from eight big-endian bytes.
pub open spec fn u64_of_be(b: Seq<u8>) -> u64
    recommends
        b.len() == 8,
{
    ((b[0] as u64) << 56 | (b[1] as u64) << 48 | (b[2] as u64) << 40 | (b[3] as u64) << 32
        | (b[4] as u64) << 24 | (b[5] as u64) << 16 | (b[6] as u64) << 8 | (b[7] as u64)) as u64
}

pub proof fn lemma_u32_be_roundtrip(x: u32)
    ensures
        u32_of_be(be_bytes_u32(x)) == x,
{
    let b0 = ((x >> 24) & 0xff) as u8;
    let b1 = ((x >> 16) & 0xff) as u8;
    let b2 = ((x >> 8) & 0xff) as u8;
    let b3 = (x & 0xff) as u8;
    assert(((b0 as u32) << 24 | (b1 as u32) << 16 | (b2 as u32) << 8 | (b3 as u32)) as u32 == x)
        by (bit_vector)
        requires
            b0 == ((x >> 24) & 0xff) as u8,
            b1 == ((x >> 16) & 0xff) as u8,
            b2 == ((x >> 8) & 0xff) as u8,
            b3 == (x & 0xff) as u8,
    ;
}

pub proof fn lemma_u64_be_roundtrip(x: u64)
    ensures
        u64_of_be(be_bytes_u64(x)) == x,
{
    let b0 = ((x >> 56) & 0xff) as u8;
    let b1 = ((x >> 48) & 0xff) as u8;
    let b2 = ((x >> 40) & 0xff) as u8;
    let b3 = ((x >> 32) & 0xff) as u8;
    let b4 = ((x >> 24) & 0xff) as u8;
    let b5 = ((x >> 16) & 0xff) as u8;
    let b6 = ((x >> 8) & 0xff) as u8;
    let b7 = (x & 0xff) as u8;
    assert(((b0 as u64) << 56 | (b1 as u64) << 48 | (b2 as u64) << 40 | (b3 as u64) << 32
        | (b4 as u64) << 24 | (b5 as u64) << 16 | (b6 as u64) << 8 | (b7 as u64)) as u64 == x)
        by (bit_vector)
        requires
            b0 == ((x >> 56) & 0xff) as u8,
            b1 == ((x >> 48) & 0xff) as u8,
            b2 == ((x >> 40) & 0xff) as u8,
            b3 == ((x >> 32) & 0xff) as u8,
            b4 == ((x >> 24) & 0xff) as u8,
            b5 == ((x >> 16) & 0xff) as u8,
            b6 == ((x >> 8) & 0xff) as u8,
            b7 == (x & 0xff) as u8,
    ;
}

/// Appends the four big-endian bytes of `x`.
pub fn put_u32_be(out: &mut Vec<u8>, x: u32)
    ensures
        final(out)@ == old(out)@ + be_bytes_u32(x),
{
    out.push(((x >> 24) & 0xff) as u8);
    out.push(((x >> 16) & 0xff) as u8);
    out.push(((x >> 8) & 0xff) as u8);
    out.push((x & 0xff) as u8);
    proof {
        assert(out@ =~= old(out)@ + be_bytes_u32(x));
    }
}

/// Appends the eight big-endian bytes of `x`.
pub fn put_u64_be(out: &mut Vec<u8>, x: u64)
    ensures
        final(out)@ == old(out)@ + be_bytes_u64(x),
{
    out.push(((x >> 56) & 0xff) as u8);
    out.push(((x >> 48) & 0xff) as u8);
    out.push(((x >> 40) & 0xff) as u8);
    out.push(((x >> 32) & 0xff) as u8);
    out.push(((x >> 24) & 0xff) as u8);
    out.push(((x >> 16) & 0xff) as u8);
    out.push(((x >> 8) & 0xff) as u8);
    out.push((x & 0xff) as u8);
    proof {
        assert(out@ =~= old(out)@ + be_bytes_u64(x));
    }
}

/// Appends a whole byte string.
pub fn put_bytes(out: &mut Vec<u8>, v: &Vec<u8>)
    ensures
        final(out)@ == old(out)@ + v@,
{
    let ghost base = out@;
    let mut i: usize = 0;
    proof {
        assert(out@ =~= base + v@.take(0));
    }
    while i < v.len()
        invariant
            0 <= i <= v@.len(),
            out@ == base + v@.take(i as int),
        decreases v@.len() - i,
    {
        out.push(v[i]);
        proof {
            assert(out@ =~= base + v@.take(i + 1));
        }
        i = i + 1;
    }
    proof {
        assert(v@.take(v@.len() as int) =~= v@);
    }
}

/// Reads a big-endian 32-bit integer at `pos`.
pub fn read_u32_be(data: &Vec<u8>, pos: usize) -> (r: u32)
    requires
        pos + 4 <= data@.len(),
    ensures
        r == u32_of_be(data@.subrange(pos as int, pos + 4)),
{
    let _n: usize = data.len();
    let b0 = data[pos];
    let b1 = data[pos + 1];
    let b2 = data[pos + 2];
    let b3 = data[pos + 3];
    proof {
        assert((b0 as u32) << 24 <= 0xff000000u32) by (bit_vector);
        assert((b1 as u32) << 16 <= 0xff0000u32) by (bit_vector);
        assert((b2 as u32) << 8 <= 0xff00u32) by (bit_vector);
    }
    let r = (b0 as u32) << 24 | (b1 as u32) << 16 | (b2 as u32) << 8 | (b3 as u32);
    proof {
        let b = data@.subrange(pos as int, pos + 4);
        assert(b[0] == data@[pos as int]);
        assert(b[1] == data@[pos + 1]);
        assert(b[2] == data@[pos + 2]);
        assert(b[3] == data@[pos + 3]);
    }
    r
}

/// Reads a big-endian 64-bit integer at `pos`.
pub fn read_u64_be(data: &Vec<u8>, pos: usize) -> (r: u64)
    requires
        pos + 8 <= data@.len(),
    ensures
        r == u64_of_be(data@.subrange(pos as int, pos + 8)),
{
    let _n: usize = data.len();
    let b0 = data[pos];
    let b1 = data[pos + 1];
    let b2 = data[pos + 2];
    let b3 = data[pos + 3];
    let b4 = data[pos + 4];
    let b5 = data[pos + 5];
    let b6 = data[pos + 6];
    let b7 = data[pos + 7];
    proof {
        assert((b0 as u64) << 56 <= 0xff00000000000000u64) by (bit_vector);
        assert((b1 as u64) << 48 <= 0xff000000000000u64) by (bit_vector);
        assert((b2 as u64) << 40 <= 0xff0000000000u64) by (bit_vector);
        assert((b3 as u64) << 32 <= 0xff00000000u64) by (bit_vector);
        assert((b4 as u64) << 24 <= 0xff000000u64) by (bit_vector);
        assert((b5 as u64) << 16 <= 0xff0000u64) by (bit_vector);
        assert((b6 as u64) << 8 <= 0xff00u64) by (bit_vector);
    }
    let r = (b0 as u64) << 56 | (b1 as u64) << 48 | (b2 as u64) << 40 | (b3 as u64) << 32
        | (b4 as u64) << 24 | (b5 as u64) << 16 | (b6 as u64) << 8 | (b7 as u64);
    proof {
        let b = data@.subrange(pos as int, pos + 8);
        assert(b[0] == data@[pos as int]);
        assert(b[1] == data@[pos + 1]);
        assert(b[2] == data@[pos + 2]);
        assert(b[3] == data@[pos + 3]);
        assert(b[4] == data@[pos + 4]);
        assert(b[5] == data@[pos + 5]);
        assert(b[6] == data@[pos + 6]);
        assert(b[7] == data@[pos + 7]);
    }
    r
}

} // verus!
