//! The log: a byte stream that is a concatenation of frames, each frame
//! an 8-byte little-endian payload length followed by that many payload
//! bytes. Replaying the frames front to back, applying "last record per
//! key wins, tombstone removes", yields the index; this module states
//! that replay mathematically and proves the facts the engine needs
//! about appending a frame, about the locations replay hands out, and
//! about how many bytes those locations cover.

use vstd::assert_seqs_equal;
use vstd::bytes::{
    lemma_auto_spec_u64_to_from_le_bytes, spec_u64_from_le_bytes, spec_u64_to_le_bytes,
};
use vstd::prelude::*;

use crate::codec::{spec_decode_record, spec_payload_len};
use crate::sums::{lemma_map_sum_insert, lemma_map_sum_remove, map_sum};
use crate::types::{LogIndex, RecordModel, StoreError};

verus! {

/// One replay step: a live record binds its key to its location, a
/// tombstone removes its key.
pub open spec fn apply_record(
    m: Map<Seq<u8>, LogIndex>,
    r: RecordModel,
    loc: LogIndex,
) -> Map<Seq<u8>, LogIndex> {
    match r.value {
        Option::Some(_) => m.insert(r.key, loc),
        Option::None => m.remove(r.key),
    }
}

/// Replay of the frames of `bytes` from offset `off` onward, starting
/// from the accumulated index `acc`.
///
/// Fewer than 8 bytes of tail, or a full length prefix standing
/// immediately at the end, is a clean terminator. A prefix announcing
/// more payload than remains is a truncation; a payload the codec cannot
/// decode is a corruption.
pub open spec fn spec_replay_from(
    bytes: Seq<u8>,
    off: int,
    acc: Map<Seq<u8>, LogIndex>,
) -> Result<Map<Seq<u8>, LogIndex>, StoreError>
    decreases bytes.len() - off,
    when 0 <= off <= bytes.len()
{
    if bytes.len() - off <= 8 {
        Result::Ok(acc)
    } else {
        let n = spec_u64_from_le_bytes(bytes.subrange(off, off + 8)) as int;
        if bytes.len() - off - 8 < n {
            Result::Err(StoreError::Truncation)
        } else {
            match spec_decode_record(bytes.subrange(off + 8, off + 8 + n)) {
                Option::None => Result::Err(StoreError::Corruption),
                Option::Some(r) => spec_replay_from(
                    bytes,
                    off + 8 + n,
                    apply_record(acc, r, LogIndex { pos: (off + 8) as u64, len: n as u64 }),
                ),
            }
        }
    }
}

/// Whether `bytes` from `off` onward is a concatenation of whole,
/// decodable frames with nothing left over.
pub open spec fn frames_complete(bytes: Seq<u8>, off: int) -> bool
    decreases bytes.len() - off,
    when 0 <= off <= bytes.len()
{
    if off == bytes.len() {
        true
    } else if bytes.len() - off <= 8 {
        false
    } else {
        let n = spec_u64_from_le_bytes(bytes.subrange(off, off + 8)) as int;
        if bytes.len() - off - 8 < n {
            false
        } else {
            spec_decode_record(bytes.subrange(off + 8, off + 8 + n)) is Some && frames_complete(
                bytes,
                off + 8 + n,
            )
        }
    }
}

/// The offset up to which replay from `off` consumes whole frames: the
/// clean terminator cuts the scan short of the end.
pub open spec fn spec_scan_end(bytes: Seq<u8>, off: int) -> int
    decreases bytes.len() - off,
    when 0 <= off <= bytes.len()
{
    if bytes.len() - off <= 8 {
        off
    } else {
        let n = spec_u64_from_le_bytes(bytes.subrange(off, off + 8)) as int;
        if bytes.len() - off - 8 < n {
            off
        } else {
            match spec_decode_record(bytes.subrange(off + 8, off + 8 + n)) {
                Option::None => off,
                Option::Some(r) => spec_scan_end(bytes, off + 8 + n),
            }
        }
    }
}

/// Whether `loc` points at a whole payload inside `bytes` that decodes
/// to a live record keyed `k`.
pub open spec fn loc_ok(bytes: Seq<u8>, k: Seq<u8>, loc: LogIndex) -> bool {
    &&& 8 <= loc.pos
    &&& loc.pos + loc.len <= bytes.len()
    &&& match spec_decode_record(bytes.subrange(loc.pos as int, loc.pos + loc.len)) {
        Option::Some(r) => r.key == k && r.value is Some,
        Option::None => false,
    }
}

/// The value of the live record that `loc` points at.
pub open spec fn live_value_at(bytes: Seq<u8>, loc: LogIndex) -> Seq<u8> {
    match spec_decode_record(bytes.subrange(loc.pos as int, loc.pos + loc.len)) {
        Option::Some(r) => match r.value {
            Option::Some(v) => v,
            Option::None => Seq::empty(),
        },
        Option::None => Seq::empty(),
    }
}

/// Whether every binding of `m` points at a live record of its key.
pub open spec fn locs_ok(bytes: Seq<u8>, m: Map<Seq<u8>, LogIndex>) -> bool {
    forall|k: Seq<u8>| #[trigger] m.contains_key(k) ==> loc_ok(bytes, k, m[k])
}

/// The bytes that the frame of one binding occupies: the prefix and the
/// payload.
pub open spec fn frame_weight() -> spec_fn(Seq<u8>, LogIndex) -> int {
    |k: Seq<u8>, loc: LogIndex| 8 + loc.len as int
}

/// A location that points into `bytes` keeps its record when more bytes
/// are appended after `bytes`.
pub proof fn lemma_loc_ok_extend(bytes: Seq<u8>, tail: Seq<u8>, k: Seq<u8>, loc: LogIndex)
    requires
        loc_ok(bytes, k, loc),
    ensures
        loc_ok(bytes + tail, k, loc),
        live_value_at(bytes + tail, loc) == live_value_at(bytes, loc),
{
    assert_seqs_equal!((bytes + tail).subrange(loc.pos as int, loc.pos + loc.len)
        == bytes.subrange(loc.pos as int, loc.pos + loc.len));
}

/// Appending bytes to the log disturbs no binding that points into the
/// bytes already there.
pub proof fn lemma_locs_ok_extend(bytes: Seq<u8>, tail: Seq<u8>, m: Map<Seq<u8>, LogIndex>)
    requires
        locs_ok(bytes, m),
    ensures
        locs_ok(bytes + tail, m),
        forall|k: Seq<u8>| #[trigger] m.contains_key(k) ==> live_value_at(bytes + tail, m[k])
            == live_value_at(bytes, m[k]),
{
    assert forall|k: Seq<u8>| #[trigger] m.contains_key(k) implies loc_ok(bytes + tail, k, m[k])
        && live_value_at(bytes + tail, m[k]) == live_value_at(bytes, m[k]) by {
        lemma_loc_ok_extend(bytes, tail, k, m[k]);
    }
}

/// Appending one whole frame to a log of whole frames leaves a log of
/// whole frames, and replay of the longer log applies exactly the
/// appended record after everything the shorter log applied.
pub proof fn lemma_replay_append(
    bytes: Seq<u8>,
    payload: Seq<u8>,
    off: int,
    acc: Map<Seq<u8>, LogIndex>,
)
    requires
        0 <= off <= bytes.len(),
        frames_complete(bytes, off),
        bytes.len() + 8 + payload.len() <= u64::MAX,
        spec_decode_record(payload) is Some,
    ensures
        ({
            let ext = bytes + spec_u64_to_le_bytes(payload.len() as u64) + payload;
            let r = spec_decode_record(payload)->Some_0;
            let loc = LogIndex { pos: (bytes.len() + 8) as u64, len: payload.len() as u64 };
            &&& frames_complete(ext, off)
            &&& spec_replay_from(bytes, off, acc) is Ok
            &&& spec_replay_from(ext, off, acc) == Result::<_, StoreError>::Ok(
                apply_record(spec_replay_from(bytes, off, acc)->Ok_0, r, loc),
            )
            &&& spec_scan_end(ext, off) == ext.len()
            &&& ext.subrange(bytes.len() as int + 8, bytes.len() as int + 8 + payload.len() as int)
                == payload
        }),
    decreases bytes.len() - off,
{
    lemma_auto_spec_u64_to_from_le_bytes();
    let plen = payload.len() as int;
    let prefix = spec_u64_to_le_bytes(payload.len() as u64);
    let ext = bytes + prefix + payload;
    let r = spec_decode_record(payload)->Some_0;
    let loc = LogIndex { pos: (bytes.len() + 8) as u64, len: payload.len() as u64 };
    assert(ext.len() == bytes.len() + 8 + plen);
    assert_seqs_equal!(ext.subrange(bytes.len() as int, bytes.len() as int + 8) == prefix);
    assert_seqs_equal!(ext.subrange(bytes.len() as int + 8, bytes.len() as int + 8 + plen) == payload);
    // A decodable payload is at least 17 bytes long.
    assert(plen >= 17);
    if off == bytes.len() {
        assert(spec_replay_from(bytes, off, acc) == Result::<_, StoreError>::Ok(acc));
        assert(ext.len() - off - 8 == plen);
        assert(spec_u64_from_le_bytes(ext.subrange(off, off + 8)) as int == plen);
        assert(frames_complete(ext, ext.len() as int));
        assert(frames_complete(ext, off));
        assert(spec_scan_end(ext, ext.len() as int) == ext.len());
        assert(spec_scan_end(ext, off) == spec_scan_end(ext, off + 8 + plen));
        assert(spec_replay_from(ext, off, acc) == spec_replay_from(
            ext,
            off + 8 + plen,
            apply_record(acc, r, loc),
        ));
        assert(spec_replay_from(ext, ext.len() as int, apply_record(acc, r, loc))
            == Result::<_, StoreError>::Ok(apply_record(acc, r, loc)));
    } else {
        assert(bytes.len() - off > 8);
        let n = spec_u64_from_le_bytes(bytes.subrange(off, off + 8)) as int;
        assert(n >= 0);
        assert(bytes.len() - off - 8 >= n);
        let payload0 = bytes.subrange(off + 8, off + 8 + n);
        assert(spec_decode_record(payload0) is Some);
        assert(frames_complete(bytes, off + 8 + n));
        assert_seqs_equal!(ext.subrange(off, off + 8) == bytes.subrange(off, off + 8));
        assert_seqs_equal!(ext.subrange(off + 8, off + 8 + n) == bytes.subrange(off + 8, off + 8 + n));
        let r0 = spec_decode_record(payload0)->Some_0;
        let loc0 = LogIndex { pos: (off + 8) as u64, len: n as u64 };
        let acc2 = apply_record(acc, r0, loc0);
        lemma_replay_append(bytes, payload, off + 8 + n, acc2);
        assert(spec_replay_from(bytes, off, acc) == spec_replay_from(bytes, off + 8 + n, acc2));
        assert(ext.len() - off - 8 >= n);
        assert(spec_u64_from_le_bytes(ext.subrange(off, off + 8)) as int == n);
        assert(spec_replay_from(ext, off, acc) == spec_replay_from(ext, off + 8 + n, acc2));
        assert(frames_complete(ext, off));
        assert(spec_scan_end(ext, off) == spec_scan_end(ext, off + 8 + n));
    }
}

/// Replay that starts within byte and weight budget stays within it:
/// the frames behind the bindings of the final index never cover more
/// bytes than the log holds.
pub proof fn lemma_replay_sum(bytes: Seq<u8>, off: int, acc: Map<Seq<u8>, LogIndex>)
    requires
        0 <= off <= bytes.len() <= u64::MAX,
        acc.dom().finite(),
        map_sum(acc, frame_weight()) <= off,
        spec_replay_from(bytes, off, acc) is Ok,
    ensures
        ({
            let m = spec_replay_from(bytes, off, acc)->Ok_0;
            m.dom().finite() && map_sum(m, frame_weight()) <= bytes.len()
        }),
    decreases bytes.len() - off,
{
    if bytes.len() - off <= 8 {
    } else {
        let n = spec_u64_from_le_bytes(bytes.subrange(off, off + 8)) as int;
        let r = spec_decode_record(bytes.subrange(off + 8, off + 8 + n))->Some_0;
        let loc = LogIndex { pos: (off + 8) as u64, len: n as u64 };
        let acc2 = apply_record(acc, r, loc);
        let w = frame_weight();
        match r.value {
            Option::Some(_) => {
                lemma_map_sum_insert(acc, w, r.key, loc);
                assert(w(r.key, loc) == 8 + n);
                if acc.dom().contains(r.key) {
                    assert(w(r.key, acc[r.key]) >= 0);
                }
            },
            Option::None => {
                if acc.dom().contains(r.key) {
                    lemma_map_sum_remove(acc, w, r.key);
                    assert(w(r.key, acc[r.key]) >= 0);
                } else {
                    assert(acc.remove(r.key) =~= acc);
                }
            },
        }
        assert(map_sum(acc2, w) <= off + 8 + n);
        lemma_replay_sum(bytes, off + 8 + n, acc2);
    }
}

} // verus!
