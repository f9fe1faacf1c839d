//! The snapshot wire format: a flat, headerless stream of records, each an
//! 8-byte little-endian length followed by exactly that many body bytes.
//! A stream that ends exactly at a record boundary is well formed; a partial
//! length field or a body shorter than its declared length is corruption.
//!
//! This module frames and splits byte streams; what a record body means is
//! the concern of the per-type codec modules.

use vstd::prelude::*;
use vstd::bytes::{spec_u64_from_le_bytes, spec_u64_to_le_bytes, u64_from_le_bytes, u64_to_le_bytes};
use vstd::bytes::lemma_auto_spec_u64_to_from_le_bytes;
use vstd::slice::{slice_subrange, slice_to_vec};
use crate::SnapshotError;

verus! {

/// The bytes of one record: the body's length as 8 little-endian bytes,
/// then the body.
pub open spec fn frame_bytes(body: Seq<u8>) -> Seq<u8> {
    spec_u64_to_le_bytes(body.len() as u64) + body
}

/// The record bodies a byte stream splits into, or `None` where the stream
/// is not a clean sequence of length-prefixed records.
pub open spec fn frames(data: Seq<u8>) -> Option<Seq<Seq<u8>>>
    decreases data.len(),
{
    if data.len() == 0 {
        Some(Seq::empty())
    } else if data.len() < 8 {
        None
    } else {
        let len = spec_u64_from_le_bytes(data.subrange(0, 8)) as int;
        if data.len() - 8 < len {
            None
        } else {
            match frames(data.skip(8 + len)) {
                Some(rest) => Some(seq![data.subrange(8, 8 + len)] + rest),
                None => None,
            }
        }
    }
}

/// Appending one whole record to a well-formed stream keeps it well formed
/// and appends exactly that record's body to the split.
pub proof fn lemma_frames_append(stream: Seq<u8>, body: Seq<u8>)
    requires
        frames(stream) is Some,
        body.len() <= u64::MAX,
    ensures
        frames(stream + frame_bytes(body)) == Some(frames(stream).unwrap().push(body)),
    decreases stream.len(),
{
    lemma_auto_spec_u64_to_from_le_bytes();
    let whole = stream + frame_bytes(body);
    if stream.len() == 0 {
        assert(whole =~= frame_bytes(body));
        assert(whole.subrange(0, 8) =~= spec_u64_to_le_bytes(body.len() as u64));
        assert(spec_u64_from_le_bytes(whole.subrange(0, 8)) == body.len() as u64);
        assert(whole.subrange(8, 8 + body.len() as int) =~= body);
        assert(whole.skip(8 + body.len() as int) =~= Seq::<u8>::empty());
        assert(frames(Seq::<u8>::empty()) == Some(Seq::<Seq<u8>>::empty()));
        assert(frames(whole) == Some(seq![body] + Seq::<Seq<u8>>::empty()));
        assert(seq![body] + Seq::<Seq<u8>>::empty() =~= frames(stream).unwrap().push(body));
    } else {
        assert(stream.len() >= 8);
        let len = spec_u64_from_le_bytes(stream.subrange(0, 8)) as int;
        assert(whole.subrange(0, 8) =~= stream.subrange(0, 8));
        assert(stream.len() - 8 >= len);
        assert(whole.subrange(8, 8 + len) =~= stream.subrange(8, 8 + len));
        assert(whole.skip(8 + len) =~= stream.skip(8 + len) + frame_bytes(body));
        lemma_frames_append(stream.skip(8 + len), body);
        let rest = frames(stream.skip(8 + len)).unwrap();
        assert(frames(whole) == Some(seq![stream.subrange(8, 8 + len)] + rest.push(body)));
        assert(seq![stream.subrange(8, 8 + len)] + rest.push(body)
            =~= (seq![stream.subrange(8, 8 + len)] + rest).push(body));
    }
}

/// A stream whose first length field declares more body bytes than the
/// stream still holds is corrupt, not a clean end of input.
pub proof fn lemma_truncated_stream(data: Seq<u8>)
    requires
        8 <= data.len(),
        data.len() - 8 < spec_u64_from_le_bytes(data.subrange(0, 8)),
    ensures
        frames(data) is None,
{
}

/// A stream that is one whole record, with zero trailing bytes, splits into
/// exactly that record's body.
pub proof fn lemma_single_record_stream(body: Seq<u8>)
    requires
        body.len() <= u64::MAX,
    ensures
        frames(frame_bytes(body)) == Some(seq![body]),
{
    lemma_frames_append(Seq::empty(), body);
    assert(Seq::<u8>::empty() + frame_bytes(body) =~= frame_bytes(body));
    assert(frames(Seq::<u8>::empty()).unwrap().push(body) =~= seq![body]);
}

/// Appends one record holding `body` to `out`.
pub fn append_frame(out: &mut Vec<u8>, body: &Vec<u8>)
    ensures
        final(out)@ == old(out)@ + frame_bytes(body@),
{
    let mut len_bytes = u64_to_le_bytes(body.len() as u64);
    out.append(&mut len_bytes);
    let mut body_copy = slice_to_vec(body.as_slice());
    out.append(&mut body_copy);
    proof {
        assert(out@ =~= old(out)@ + frame_bytes(body@));
    }
}

/// Splits a byte stream into its record bodies, or reports corruption where
/// the stream is not a clean sequence of length-prefixed records.
pub fn split_frames(data: &[u8]) -> (r: Result<Vec<Vec<u8>>, SnapshotError>)
    ensures
        match r {
            Ok(bodies) => frames(data@) == Some(bodies@.map_values(|b: Vec<u8>| b@)),
            Err(e) => frames(data@) is None && e == SnapshotError::Corrupt,
        },
{
    let mut bodies: Vec<Vec<u8>> = Vec::new();
    let mut pos: usize = 0;
    proof {
        assert(data@.skip(0) =~= data@);
        if frames(data@) is Some {
            assert(bodies@.map_values(|b: Vec<u8>| b@) + frames(data@).unwrap()
                =~= frames(data@).unwrap());
        }
    }
    loop
        invariant
            pos <= data@.len(),
            match frames(data@.skip(pos as int)) {
                Some(rest) => frames(data@) == Some(
                    bodies@.map_values(|b: Vec<u8>| b@) + rest,
                ),
                None => frames(data@) is None,
            },
        decreases data@.len() - pos,
    {
        let remaining = data.len() - pos;
        let ghost suffix = data@.skip(pos as int);
        if remaining == 0 {
            proof {
                assert(suffix =~= Seq::<u8>::empty());
                assert(bodies@.map_values(|b: Vec<u8>| b@) + Seq::<Seq<u8>>::empty()
                    =~= bodies@.map_values(|b: Vec<u8>| b@));
            }
            return Ok(bodies);
        }
        if remaining < 8 {
            return Err(SnapshotError::Corrupt);
        }
        let len_field = slice_subrange(data, pos, pos + 8);
        let len64 = u64_from_le_bytes(len_field);
        proof {
            assert(suffix.subrange(0, 8) =~= data@.subrange(pos as int, pos as int + 8));
        }
        if ((remaining - 8) as u64) < len64 {
            return Err(SnapshotError::Corrupt);
        }
        let len = len64 as usize;
        let body = slice_to_vec(slice_subrange(data, pos + 8, pos + 8 + len));
        proof {
            assert(suffix.subrange(8, 8 + len64 as int)
                =~= data@.subrange(pos as int + 8, pos as int + 8 + len64 as int));
            assert(suffix.skip(8 + len64 as int)
                =~= data@.skip(pos as int + 8 + len64 as int));
            let f = |b: Vec<u8>| b@;
            assert(bodies@.push(body).map_values(f)
                =~= bodies@.map_values(f).push(body@));
            if frames(data@.skip(pos as int + 8 + len64 as int)) is Some {
                let rest = frames(data@.skip(pos as int + 8 + len64 as int)).unwrap();
                assert(bodies@.map_values(f) + (seq![body@] + rest)
                    =~= bodies@.map_values(f).push(body@) + rest);
            }
        }
        bodies.push(body);
        pos = pos + 8 + len;
    }
}

} // verus!
