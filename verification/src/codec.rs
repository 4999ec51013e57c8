//! The record codec: the byte layout of one log-record payload, and its
//! encoder and decoder.
//!
//! A payload is, in order: the timestamp as 8 little-endian bytes (the
//! two's-complement image of the signed value), the key length as 8
//! little-endian bytes, the key bytes, one presence flag (0 for a
//! tombstone, 1 for a live value), and, when the flag is 1, the value
//! length as 8 little-endian bytes followed by the value bytes. Decoding
//! is the exact inverse and consumes the whole payload; any other shape
//! is a corruption.

use vstd::assert_seqs_equal;
use vstd::bytes::{
    lemma_auto_spec_u64_to_from_le_bytes, spec_u64_from_le_bytes, spec_u64_to_le_bytes,
    u64_from_le_bytes, u64_to_le_bytes,
};
use vstd::prelude::*;
use vstd::slice::{slice_index_get, slice_subrange, slice_to_vec};

use crate::types::{DataFileEntry, RecordModel, StoreError};

verus! {

/// The two's-complement image of a signed 64-bit value as an unsigned one.
pub open spec fn spec_u64_of_i64(t: i64) -> u64 {
    if t >= 0 {
        t as u64
    } else {
        (t + 0x1_0000_0000_0000_0000) as u64
    }
}

/// The signed reading of an unsigned 64-bit two's-complement image.
pub open spec fn spec_i64_of_u64(x: u64) -> i64 {
    if x <= i64::MAX as u64 {
        x as i64
    } else {
        (x - 0x1_0000_0000_0000_0000) as i64
    }
}

/// Reading back the unsigned image of a signed value gives the value.
pub proof fn lemma_i64_u64_round_trip(t: i64)
    ensures
        spec_i64_of_u64(spec_u64_of_i64(t)) == t,
{
}

/// Whether the key and value of a record are small enough for their
/// lengths to be stated in the 8-byte fields of the layout. Every record
/// held in actual vectors satisfies this.
pub open spec fn record_sizes_ok(r: RecordModel) -> bool {
    &&& r.key.len() <= u64::MAX
    &&& match r.value {
        Option::Some(v) => v.len() <= u64::MAX,
        Option::None => true,
    }
}

/// The length of the payload that encodes `r`.
pub open spec fn spec_payload_len(r: RecordModel) -> int {
    match r.value {
        Option::Some(v) => 25 + r.key.len() as int + v.len() as int,
        Option::None => 17 + r.key.len() as int,
    }
}

/// The payload bytes that encode `r`.
pub open spec fn spec_encode_record(r: RecordModel) -> Seq<u8> {
    spec_u64_to_le_bytes(spec_u64_of_i64(r.tstamp)) + spec_u64_to_le_bytes(r.key.len() as u64)
        + r.key + (match r.value {
        Option::None => seq![0u8],
        Option::Some(v) => seq![1u8] + spec_u64_to_le_bytes(v.len() as u64) + v,
    })
}

/// The record that the payload bytes `p` describe, or `None` when `p` was
/// not produced by the encoder.
pub open spec fn spec_decode_record(p: Seq<u8>) -> Option<RecordModel> {
    if p.len() < 17 {
        Option::None
    } else {
        let ts = spec_i64_of_u64(spec_u64_from_le_bytes(p.subrange(0, 8)));
        let klen = spec_u64_from_le_bytes(p.subrange(8, 16)) as int;
        if p.len() < 17 + klen {
            Option::None
        } else {
            let key = p.subrange(16, 16 + klen);
            let flag = p[16 + klen];
            if flag == 0u8 {
                if p.len() == 17 + klen {
                    Option::Some(RecordModel { tstamp: ts, key, value: Option::None })
                } else {
                    Option::None
                }
            } else if flag == 1u8 {
                if p.len() < 25 + klen {
                    Option::None
                } else {
                    let vlen = spec_u64_from_le_bytes(p.subrange(17 + klen, 25 + klen)) as int;
                    if p.len() == 25 + klen + vlen {
                        Option::Some(
                            RecordModel {
                                tstamp: ts,
                                key,
                                value: Option::Some(p.subrange(25 + klen, 25 + klen + vlen)),
                            },
                        )
                    } else {
                        Option::None
                    }
                }
            } else {
                Option::None
            }
        }
    }
}

/// The codec is symmetric: decoding an encoded record gives the record
/// back, for every record whose lengths fit the layout, including an
/// empty key, an empty value, and a tombstone.
pub proof fn lemma_codec_round_trip(r: RecordModel)
    requires
        record_sizes_ok(r),
    ensures
        spec_encode_record(r).len() == spec_payload_len(r),
        spec_decode_record(spec_encode_record(r)) == Option::Some(r),
{
    lemma_auto_spec_u64_to_from_le_bytes();
    let e = spec_encode_record(r);
    let ts_bytes = spec_u64_to_le_bytes(spec_u64_of_i64(r.tstamp));
    let kl_bytes = spec_u64_to_le_bytes(r.key.len() as u64);
    let klen = r.key.len() as int;
    assert_seqs_equal!(e.subrange(0, 8) == ts_bytes);
    assert_seqs_equal!(e.subrange(8, 16) == kl_bytes);
    assert(spec_u64_from_le_bytes(e.subrange(8, 16)) as int == klen);
    assert_seqs_equal!(e.subrange(16, 16 + klen) == r.key);
    lemma_i64_u64_round_trip(r.tstamp);
    match r.value {
        Option::None => {
            assert(e.len() == 17 + klen);
            assert(e[16 + klen] == 0u8);
        },
        Option::Some(v) => {
            let vl_bytes = spec_u64_to_le_bytes(v.len() as u64);
            let vlen = v.len() as int;
            assert(e.len() == 25 + klen + vlen);
            assert(e[16 + klen] == 1u8);
            assert_seqs_equal!(e.subrange(17 + klen, 25 + klen) == vl_bytes);
            assert(spec_u64_from_le_bytes(e.subrange(17 + klen, 25 + klen)) as int == vlen);
            assert_seqs_equal!(e.subrange(25 + klen, 25 + klen + vlen) == v);
        },
    }
}

/// A decodable payload has exactly the length that its record's sizes
/// dictate, and those sizes fit the layout.
pub proof fn lemma_decode_len(p: Seq<u8>, r: RecordModel)
    requires
        spec_decode_record(p) == Option::Some(r),
    ensures
        p.len() == spec_payload_len(r),
        record_sizes_ok(r),
{
}

/// The two's-complement image of a signed value, as executable code.
pub fn u64_of_i64(t: i64) -> (x: u64)
    ensures
        x == spec_u64_of_i64(t),
{
    if t >= 0 {
        t as u64
    } else {
        let neg: i64 = -(t + 1);
        u64::MAX - (neg as u64)
    }
}

/// The signed reading of an unsigned image, as executable code.
pub fn i64_of_u64(x: u64) -> (t: i64)
    ensures
        t == spec_i64_of_u64(x),
{
    if x <= i64::MAX as u64 {
        x as i64
    } else {
        let d: u64 = u64::MAX - x;
        -(d as i64) - 1
    }
}

/// A fresh vector holding the bytes of `s` between `i` and `j`.
pub fn copy_range(s: &[u8], i: usize, j: usize) -> (out: Vec<u8>)
    requires
        i <= j <= s@.len(),
    ensures
        out@ == s@.subrange(i as int, j as int),
{
    slice_to_vec(slice_subrange(s, i, j))
}

/// Appends all bytes of `src` to `dst`.
pub fn push_bytes(dst: &mut Vec<u8>, src: &[u8])
    ensures
        final(dst)@ == old(dst)@ + src@,
{
    let mut i: usize = 0;
    while i < src.len()
        invariant
            i <= src@.len(),
            dst@ == old(dst)@ + src@.subrange(0, i as int),
        decreases src@.len() - i,
    {
        dst.push(*slice_index_get(src, i));
        proof {
            assert_seqs_equal!(src@.subrange(0, i + 1) == src@.subrange(0, i as int).push(src@[i as int]));
        }
        i = i + 1;
    }
    proof {
        assert_seqs_equal!(src@.subrange(0, src@.len() as int) == src@);
    }
}

/// Whether two byte strings hold the same bytes.
pub fn bytes_eq(a: &[u8], b: &[u8]) -> (r: bool)
    ensures
        r == (a@ == b@),
{
    if a.len() != b.len() {
        return false;
    }
    let mut i: usize = 0;
    while i < a.len()
        invariant
            a@.len() == b@.len(),
            i <= a@.len(),
            forall|j: int| 0 <= j < i ==> a@[j] == b@[j],
        decreases a@.len() - i,
    {
        if *slice_index_get(a, i) != *slice_index_get(b, i) {
            assert(a@[i as int] != b@[i as int]);
            return false;
        }
        i = i + 1;
    }
    proof {
        assert_seqs_equal!(a@ == b@);
    }
    true
}

/// Encodes one record into its payload bytes.
pub fn encode_record(e: &DataFileEntry) -> (out: Vec<u8>)
    ensures
        out@ == spec_encode_record(e@),
        out@.len() == spec_payload_len(e@),
{
    proof {
        lemma_auto_spec_u64_to_from_le_bytes();
    }
    let mut out = u64_to_le_bytes(u64_of_i64(e.tstamp));
    let mut kl = u64_to_le_bytes(e.key.len() as u64);
    out.append(&mut kl);
    push_bytes(&mut out, e.key.as_slice());
    match &e.value {
        Option::None => {
            out.push(0u8);
            proof {
                assert_seqs_equal!(out@ == spec_encode_record(e@));
            }
        },
        Option::Some(v) => {
            out.push(1u8);
            let mut vl = u64_to_le_bytes(v.len() as u64);
            out.append(&mut vl);
            push_bytes(&mut out, v.as_slice());
            proof {
                assert_seqs_equal!(out@ == spec_encode_record(e@));
            }
        },
    }
    out
}

/// Decodes one payload back into a record, or reports a corruption when
/// the bytes were not produced by the encoder.
pub fn decode_record(p: &[u8]) -> (r: Result<DataFileEntry, StoreError>)
    ensures
        match r {
            Result::Ok(rec) => spec_decode_record(p@) == Option::Some(rec@),
            Result::Err(e) => spec_decode_record(p@) == Option::<RecordModel>::None && e
                == StoreError::Corruption,
        },
{
    let n = p.len();
    if n < 17 {
        return Err(StoreError::Corruption);
    }
    let ts = i64_of_u64(u64_from_le_bytes(slice_subrange(p, 0, 8)));
    let klen64 = u64_from_le_bytes(slice_subrange(p, 8, 16));
    if ((n - 17) as u64) < klen64 {
        return Err(StoreError::Corruption);
    }
    let klen = klen64 as usize;
    let key = copy_range(p, 16, 16 + klen);
    let flag = *slice_index_get(p, 16 + klen);
    if flag == 0u8 {
        if n == 17 + klen {
            Ok(DataFileEntry { tstamp: ts, key, value: None })
        } else {
            Err(StoreError::Corruption)
        }
    } else if flag == 1u8 {
        if n - 17 - klen < 8 {
            return Err(StoreError::Corruption);
        }
        let vlen64 = u64_from_le_bytes(slice_subrange(p, 17 + klen, 25 + klen));
        if ((n - 25 - klen) as u64) != vlen64 {
            return Err(StoreError::Corruption);
        }
        let vlen = vlen64 as usize;
        let value = copy_range(p, 25 + klen, 25 + klen + vlen);
        Ok(DataFileEntry { tstamp: ts, key, value: Some(value) })
    } else {
        Err(StoreError::Corruption)
    }
}

} // verus!
