//! A value which may or may not be inlined into the index tree.
//!
//! If not inlined, the value lives in a separate value log and is reached
//! through a handle `(segment_id, offset)`; only the storable encoding of
//! that choice is modelled here.

use crate::coding::{
    be_bytes_u32, be_bytes_u64, lemma_u32_be_roundtrip, lemma_u64_be_roundtrip, put_u32_be,
    put_u64_be, read_u32_be, read_u64_be, u32_of_be, u64_of_be, DecodeError,
};
use vstd::prelude::*;

verus! {

/// A pointer into the value log.
#[derive(Clone, Copy, Debug, PartialEq, Eq, Structural)]
pub struct ValueHandle {
    pub segment_id: u64,
    pub offset: u64,
}

/// A value stored in the tree: inlined bytes, or a handle to the value log
/// plus the size of the value it points at.
#[derive(Clone, Debug, PartialEq, Eq)]
pub enum MaybeInlineValue {
    /// Inlined value (classic LSM-tree).
    Inline(Vec<u8>),
    /// The value is a handle (pointer) into the value log.
    Indirect { vhandle: ValueHandle, size: u32 },
}

/// Mathematical image of a [`MaybeInlineValue`].
pub ghost enum MivModel {
    Inline(Seq<u8>),
    Indirect { vhandle: ValueHandle, size: u32 },
}

impl View for MaybeInlineValue {
    type V = MivModel;

    open spec fn view(&self) -> MivModel {
        match self {
            MaybeInlineValue::Inline(b) => MivModel::Inline(b@),
            MaybeInlineValue::Indirect { vhandle, size } => MivModel::Indirect {
                vhandle: *vhandle,
                size: *size,
            },
        }
    }
}

pub const TAG_INLINE: u8 = 0;

pub const TAG_INDIRECT: u8 = 1;

/// Wire form of a handle: offset then segment id, both big-endian.
pub open spec fn handle_encoding(h: ValueHandle) -> Seq<u8> {
    be_bytes_u64(h.offset) + be_bytes_u64(h.segment_id)
}

/// An inline value can be encoded only while its length fits the u32
/// length prefix.
pub open spec fn miv_valid(m: MivModel) -> bool {
    match m {
        MivModel::Inline(b) => b.len() <= u32::MAX,
        MivModel::Indirect { .. } => true,
    }
}

/// Wire form of a maybe-inline value: a tag byte, then the variant body.
pub open spec fn miv_encoding(m: MivModel) -> Seq<u8> {
    match m {
        MivModel::Inline(b) => seq![TAG_INLINE] + be_bytes_u32(b.len() as u32) + b,
        MivModel::Indirect { vhandle, size } => seq![TAG_INDIRECT] + handle_encoding(vhandle)
            + be_bytes_u32(size),
    }
}

/// The unique parse of a byte string that starts with an encoded
/// maybe-inline value: the decoded model and how many bytes it covered.
pub open spec fn miv_decode(s: Seq<u8>) -> Result<(MivModel, int), DecodeError> {
    if s.len() < 1 {
        Err(DecodeError::UnexpectedEof)
    } else if s[0] == TAG_INLINE {
        if s.len() < 5 {
            Err(DecodeError::UnexpectedEof)
        } else {
            let n = u32_of_be(s.subrange(1, 5)) as int;
            if s.len() < 5 + n {
                Err(DecodeError::UnexpectedEof)
            } else {
                Ok((MivModel::Inline(s.subrange(5, 5 + n)), 5 + n))
            }
        }
    } else if s[0] == TAG_INDIRECT {
        if s.len() < 21 {
            Err(DecodeError::UnexpectedEof)
        } else {
            Ok(
                (
                    MivModel::Indirect {
                        vhandle: ValueHandle {
                            offset: u64_of_be(s.subrange(1, 9)),
                            segment_id: u64_of_be(s.subrange(9, 17)),
                        },
                        size: u32_of_be(s.subrange(17, 21)),
                    },
                    21,
                ),
            )
        }
    } else {
        Err(DecodeError::InvalidTag(s[0]))
    }
}

impl ValueHandle {
    /// Appends the wire form of this handle.
    pub fn encode_into(&self, out: &mut Vec<u8>)
        ensures
            final(out)@ == old(out)@ + handle_encoding(*self),
    {
        put_u64_be(out, self.offset);
        put_u64_be(out, self.segment_id);
        proof {
            assert(out@ =~= old(out)@ + handle_encoding(*self));
        }
    }

    /// Reads a handle back from its wire form at `pos`.
    pub fn decode_from(data: &Vec<u8>, pos: usize) -> (r: Result<(ValueHandle, usize), DecodeError>)
        requires
            pos <= data@.len(),
        ensures
            match r {
                Ok(p) => pos + 16 <= data@.len() && p.1 == pos + 16 && p.0 == (ValueHandle {
                    offset: u64_of_be(data@.subrange(pos as int, pos + 8)),
                    segment_id: u64_of_be(data@.subrange(pos + 8, pos + 16)),
                }),
                Err(e) => data@.len() < pos + 16 && e == DecodeError::UnexpectedEof,
            },
    {
        let n = data.len();
        if n - pos < 16 {
            return Err(DecodeError::UnexpectedEof);
        }
        let offset = read_u64_be(data, pos);
        let segment_id = read_u64_be(data, pos + 8);
        Ok((ValueHandle { segment_id, offset }, pos + 16))
    }
}

impl MaybeInlineValue {
    /// Appends the wire form of this value.
    pub fn encode_into(&self, out: &mut Vec<u8>)
        requires
            miv_valid(self@),
        ensures
            final(out)@ == old(out)@ + miv_encoding(self@),
    {
        match self {
            MaybeInlineValue::Inline(bytes) => {
                out.push(TAG_INLINE);
                put_u32_be(out, bytes.len() as u32);
                let ghost mid = out@;
                let mut i: usize = 0;
                while i < bytes.len()
                    invariant
                        0 <= i <= bytes@.len(),
                        out@ == mid + bytes@.take(i as int),
                    decreases bytes@.len() - i,
                {
                    out.push(bytes[i]);
                    proof {
                        assert(out@ =~= mid + bytes@.take(i + 1));
                    }
                    i = i + 1;
                }
                proof {
                    assert(bytes@.take(bytes@.len() as int) =~= bytes@);
                    assert(out@ =~= old(out)@ + miv_encoding(self@));
                }
            }
            MaybeInlineValue::Indirect { vhandle, size } => {
                out.push(TAG_INDIRECT);
                vhandle.encode_into(out);
                put_u32_be(out, *size);
                proof {
                    assert(out@ =~= old(out)@ + miv_encoding(self@));
                }
            }
        }
    }

    /// Reads a value back from its wire form at `pos`; the result is exactly
    /// what [`miv_decode`] says of the bytes from `pos` on.
    pub fn decode_from(data: &Vec<u8>, pos: usize) -> (r: Result<
        (MaybeInlineValue, usize),
        DecodeError,
    >)
        requires
            pos <= data@.len(),
        ensures
            match r {
                Ok(p) => pos <= p.1 <= data@.len() && miv_decode(data@.skip(pos as int)) == Ok::<
                    _,
                    DecodeError,
                >((p.0@, p.1 - pos)),
                Err(e) => miv_decode(data@.skip(pos as int)) == Err::<(MivModel, int), _>(e),
            },
    {
        let ghost s = data@.skip(pos as int);
        let n = data.len();
        if pos >= n {
            return Err(DecodeError::UnexpectedEof);
        }
        let tag = data[pos];
        proof {
            assert(s[0] == data@[pos as int]);
        }
        if tag == TAG_INLINE {
            if n - pos < 5 {
                return Err(DecodeError::UnexpectedEof);
            }
            let len32 = read_u32_be(data, pos + 1);
            proof {
                assert(s.subrange(1, 5) =~= data@.subrange(pos + 1, pos + 5));
            }
            let len = len32 as usize;
            if n - pos - 5 < len {
                return Err(DecodeError::UnexpectedEof);
            }
            let mut bytes: Vec<u8> = Vec::new();
            let mut i: usize = 0;
            while i < len
                invariant
                    0 <= i <= len,
                    pos + 5 + len <= data@.len(),
                    data@.len() <= usize::MAX,
                    bytes@ == data@.subrange(pos + 5, pos + 5 + i),
                decreases len - i,
            {
                bytes.push(data[pos + 5 + i]);
                proof {
                    assert(bytes@ =~= data@.subrange(pos + 5, pos + 5 + i + 1));
                }
                i = i + 1;
            }
            proof {
                assert(s.subrange(5, 5 + len as int) =~= data@.subrange(pos + 5, pos + 5 + len));
            }
            Ok((MaybeInlineValue::Inline(bytes), pos + 5 + len))
        } else if tag == TAG_INDIRECT {
            if n - pos < 21 {
                return Err(DecodeError::UnexpectedEof);
            }
            let offset = read_u64_be(data, pos + 1);
            let segment_id = read_u64_be(data, pos + 9);
            let size = read_u32_be(data, pos + 17);
            proof {
                assert(s.subrange(1, 9) =~= data@.subrange(pos + 1, pos + 9));
                assert(s.subrange(9, 17) =~= data@.subrange(pos + 9, pos + 17));
                assert(s.subrange(17, 21) =~= data@.subrange(pos + 17, pos + 21));
            }
            Ok((MaybeInlineValue::Indirect { vhandle: ValueHandle { segment_id, offset }, size },
                pos + 21))
        } else {
            Err(DecodeError::InvalidTag(tag))
        }
    }
}

/// Round trip: decoding an encoded value from the front of any byte string
/// yields the value back and consumes exactly its encoding.
pub proof fn lemma_miv_roundtrip(m: MivModel, rest: Seq<u8>)
    requires
        miv_valid(m),
    ensures
        miv_decode(miv_encoding(m) + rest) == Ok::<_, DecodeError>(
            (m, miv_encoding(m).len() as int),
        ),
{
    let e = miv_encoding(m);
    let s = e + rest;
    match m {
        MivModel::Inline(b) => {
            assert(s[0] == TAG_INLINE);
            assert(s.subrange(1, 5) =~= be_bytes_u32(b.len() as u32));
            lemma_u32_be_roundtrip(b.len() as u32);
            let n = u32_of_be(s.subrange(1, 5)) as int;
            assert(n == b.len());
            assert(s.len() >= 5 + n);
            assert(s.subrange(5, 5 + n) =~= b);
            assert(e.len() == 5 + n);
        }
        MivModel::Indirect { vhandle, size } => {
            assert(s[0] == TAG_INDIRECT);
            assert(s.subrange(1, 9) =~= be_bytes_u64(vhandle.offset));
            assert(s.subrange(9, 17) =~= be_bytes_u64(vhandle.segment_id));
            assert(s.subrange(17, 21) =~= be_bytes_u32(size));
            lemma_u64_be_roundtrip(vhandle.offset);
            lemma_u64_be_roundtrip(vhandle.segment_id);
            lemma_u32_be_roundtrip(size);
            assert(e.len() == 21);
        }
    }
}

} // verus!
