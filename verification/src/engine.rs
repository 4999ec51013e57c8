//! The storage engine: open-with-replay, `set`, `del`, `get`, and
//! compaction over an append-only log of length-prefixed record frames.
//!
//! The engine holds the log as a byte vector and the index as a derived
//! in-memory map; a host process persists the log bytes between runs and
//! hands them back to [`Engine::load`]. The logical content of an engine
//! is the map from each live key to its latest value, and every
//! operation's contract is stated against that map.

use vstd::assert_seqs_equal;
use vstd::bytes::{
    lemma_auto_spec_u64_to_from_le_bytes, spec_u64_to_le_bytes, u64_from_le_bytes, u64_to_le_bytes,
};
use vstd::prelude::*;
use vstd::slice::{slice_subrange, slice_to_vec};

use crate::codec::{
    copy_range, decode_record, encode_record, lemma_codec_round_trip, lemma_decode_len,
    spec_decode_record,
};
use crate::constants::DEFAULT_COMPACT_THRESHOLD;
use crate::index::IndexMap;
use crate::log::{
    apply_record, frame_weight, frames_complete, lemma_locs_ok_extend, lemma_replay_append,
    lemma_replay_sum, live_value_at, loc_ok, locs_ok, spec_replay_from, spec_scan_end,
};
use crate::sums::{lemma_map_sum_congruent, lemma_map_sum_insert, map_sum};
use crate::types::{DataFileEntry, LogIndex, StoreError};

verus! {

/// The logical content of a log: replaying its frames gives the map
/// from each live key to its latest value, or the error the replay
/// stops with.
pub open spec fn spec_recover(bytes: Seq<u8>) -> Result<Map<Seq<u8>, Seq<u8>>, StoreError> {
    match spec_replay_from(bytes, 0, Map::empty()) {
        Result::Ok(m) => Result::Ok(
            m.map_values(|loc: LogIndex| live_value_at(bytes, loc)),
        ),
        Result::Err(e) => Result::Err(e),
    }
}

/// The bytes that one live binding occupies in a log: 8 prefix bytes
/// and a payload of 25 bytes plus the key and the value.
pub open spec fn value_weight() -> spec_fn(Seq<u8>, Seq<u8>) -> int {
    |k: Seq<u8>, v: Seq<u8>| 33 + k.len() as int + v.len() as int
}

/// How many bytes a log holding exactly one live frame per binding of
/// `m` occupies.
pub open spec fn spec_live_size(m: Map<Seq<u8>, Seq<u8>>) -> int {
    map_sum(m, value_weight())
}

/// The bindings of an index weigh as much as the frames of a log that
/// holds each of their records exactly once; stating the weights over
/// the logical values instead of the locations gives the same sum.
proof fn lemma_live_size_eq(
    file: Seq<u8>,
    m: Map<Seq<u8>, LogIndex>,
    mv: Map<Seq<u8>, Seq<u8>>,
)
    requires
        m.dom().finite(),
        locs_ok(file, m),
        mv.dom() == m.dom(),
        forall|k: Seq<u8>| #[trigger] m.dom().contains(k) ==> mv[k] == live_value_at(file, m[k]),
    ensures
        spec_live_size(mv) == map_sum(m, frame_weight()),
{
    let w1 = frame_weight();
    let w2 = value_weight();
    assert forall|k: Seq<u8>| #[trigger] m.dom().contains(k) implies w1(k, m[k]) == w2(
        k,
        mv[k],
    ) by {
        let loc = m[k];
        assert(m.contains_key(k));
        assert(loc_ok(file, k, loc));
        let p = file.subrange(loc.pos as int, loc.pos + loc.len);
        let r = spec_decode_record(p)->Some_0;
        lemma_decode_len(p, r);
        assert(p.len() == loc.len);
        assert(r.key == k && r.value is Some);
        assert(mv[k] == r.value->Some_0);
    }
    lemma_map_sum_congruent(m, mv, w1, w2);
    assert(spec_live_size(mv) == map_sum(mv, w2));
}

/// The storage engine.
#[derive(Debug)]
pub struct Engine {
    file: Vec<u8>,
    index: IndexMap,
    next_tstamp: i64,
    threshold: u64,
    bytes_since_compact: u64,
}

impl View for Engine {
    type V = Map<Seq<u8>, Seq<u8>>;

    /// The logical content: each live key bound to its latest value.
    closed spec fn view(&self) -> Map<Seq<u8>, Seq<u8>> {
        self.index@.map_values(|loc: LogIndex| live_value_at(self.file@, loc))
    }
}

impl Engine {
    /// The engine's internal consistency: the log is whole frames, the
    /// index is exactly what replaying the log yields, every index
    /// binding points at a live record of its key, and the compaction
    /// counter never exceeds the log.
    pub closed spec fn wf(&self) -> bool {
        &&& self.index.wf()
        &&& spec_replay_from(self.file@, 0, Map::empty()) == Result::<_, StoreError>::Ok(
            self.index@,
        )
        &&& frames_complete(self.file@, 0)
        &&& locs_ok(self.file@, self.index@)
        &&& self.bytes_since_compact <= self.file@.len()
    }

    /// The bytes of the log.
    pub closed spec fn spec_file(&self) -> Seq<u8> {
        self.file@
    }

    /// The configured auto-compaction threshold.
    pub closed spec fn spec_threshold(&self) -> u64 {
        self.threshold
    }

    /// How many bytes of live-record frames were appended since the
    /// engine was opened or last compacted.
    pub closed spec fn spec_bytes_since_compact(&self) -> u64 {
        self.bytes_since_compact
    }

    /// Opens an engine over the given log bytes with the default
    /// auto-compaction threshold.
    pub fn load(file: Vec<u8>) -> (r: Result<Engine, StoreError>)
        ensures
            match r {
                Result::Ok(e) => {
                    &&& e.wf()
                    &&& spec_recover(file@) matches Result::Ok(m) && e@ == m
                    &&& e.spec_threshold() == DEFAULT_COMPACT_THRESHOLD
                    &&& e.spec_bytes_since_compact() == 0
                    &&& e.spec_file() == file@.subrange(0, spec_scan_end(file@, 0))
                },
                Result::Err(err) => spec_recover(file@) == Result::<Map<Seq<u8>, Seq<u8>>,
                    StoreError>::Err(err),
            },
    {
        Self::load_with_threshold(file, DEFAULT_COMPACT_THRESHOLD)
    }

    /// Opens an engine over the given log bytes: recovery-by-replay.
    ///
    /// The whole log is scanned front to back and the index rebuilt,
    /// the latest record per key winning and tombstones removing. A
    /// length prefix standing immediately at the end of the log (or a
    /// shorter partial tail of a prefix) is a clean terminator: the
    /// engine keeps the whole frames before it and drops those dangling
    /// bytes, so that later appends land on a frame boundary. A prefix
    /// announcing more payload than remains is reported as a
    /// truncation, a payload the codec rejects as a corruption, and no
    /// engine is produced.
    pub fn load_with_threshold(file: Vec<u8>, threshold: u64) -> (r: Result<Engine, StoreError>)
        ensures
            match r {
                Result::Ok(e) => {
                    &&& e.wf()
                    &&& spec_recover(file@) matches Result::Ok(m) && e@ == m
                    &&& e.spec_threshold() == threshold
                    &&& e.spec_bytes_since_compact() == 0
                    &&& e.spec_file() == file@.subrange(0, spec_scan_end(file@, 0))
                },
                Result::Err(err) => spec_recover(file@) == Result::<Map<Seq<u8>, Seq<u8>>,
                    StoreError>::Err(err),
            },
    {
        let ghost orig = file@;
        let mut index = IndexMap::new();
        let mut off: usize = 0;
        let n_total = file.len();
        proof {
            assert(orig.subrange(0, 0) =~= Seq::<u8>::empty());
        }
        while n_total - off > 8
            invariant
                off <= n_total,
                n_total == orig.len(),
                file@ == orig,
                orig.len() <= u64::MAX,
                index.wf(),
                index@.dom().finite(),
                spec_replay_from(orig, off as int, index@) == spec_replay_from(
                    orig,
                    0,
                    Map::empty(),
                ),
                spec_scan_end(orig, off as int) == spec_scan_end(orig, 0),
                frames_complete(orig.subrange(0, off as int), 0),
                spec_replay_from(orig.subrange(0, off as int), 0, Map::empty())
                    == Result::<_, StoreError>::Ok(index@),
                locs_ok(orig.subrange(0, off as int), index@),
            decreases n_total - off,
        {
            let len64 = u64_from_le_bytes(slice_subrange(file.as_slice(), off, off + 8));
            let remaining = n_total - off - 8;
            if (remaining as u64) < len64 {
                proof {
                    assert(spec_replay_from(orig, off as int, index@) == Result::<Map<Seq<u8>,
                        LogIndex>, StoreError>::Err(StoreError::Truncation));
                }
                return Err(StoreError::Truncation);
            }
            let n = len64 as usize;
            let payload = slice_subrange(file.as_slice(), off + 8, off + 8 + n);
            match decode_record(payload) {
                Err(_) => {
                    proof {
                        assert(spec_replay_from(orig, off as int, index@) == Result::<Map<Seq<u8>,
                            LogIndex>, StoreError>::Err(StoreError::Corruption));
                    }
                    return Err(StoreError::Corruption);
                },
                Ok(rec) => {
                    let pos = (off + 8) as u64;
                    let ghost prev = orig.subrange(0, off as int);
                    let ghost stepped = orig.subrange(0, off as int + 8 + n as int);
                    let ghost loc = LogIndex { pos, len: len64 };
                    proof {
                        lemma_auto_spec_u64_to_from_le_bytes();
                        assert(spec_u64_to_le_bytes(len64) == orig.subrange(
                            off as int,
                            off as int + 8,
                        ));
                        assert_seqs_equal!(stepped == prev + spec_u64_to_le_bytes(len64) + payload@);
                        lemma_replay_append(prev, payload@, 0, Map::empty());
                        assert(spec_replay_from(stepped, 0, Map::empty())
                            == Result::<_, StoreError>::Ok(apply_record(index@, rec@, loc)));
                        assert(frames_complete(stepped, 0));
                        // The bindings already made keep their records.
                        lemma_locs_ok_extend(
                            prev,
                            spec_u64_to_le_bytes(len64) + payload@,
                            index@,
                        );
                        assert_seqs_equal!(prev + (spec_u64_to_le_bytes(len64) + payload@) == stepped);
                        // The new binding, if live, points at its record.
                        assert(stepped.subrange(off as int + 8, off as int + 8 + n as int)
                            == payload@);
                        // The step matches one unfolding of replay of the
                        // whole log.
                        assert(spec_replay_from(orig, off as int, index@) == spec_replay_from(
                            orig,
                            off as int + 8 + n as int,
                            apply_record(index@, rec@, loc),
                        ));
                        assert(spec_scan_end(orig, off as int) == spec_scan_end(
                            orig,
                            off as int + 8 + n as int,
                        ));
                    }
                    let DataFileEntry { tstamp: _, key, value } = rec;
                    match value {
                        Some(_) => {
                            index.insert(key, LogIndex { pos, len: len64 });
                        },
                        None => {
                            index.remove(key.as_slice());
                        },
                    }
                    proof {
                        assert(index@ == apply_record(
                            spec_replay_from(prev, 0, Map::empty())->Ok_0,
                            rec@,
                            loc,
                        ));
                        assert(locs_ok(stepped, index@));
                    }
                    off = off + 8 + n;
                },
            }
        }
        proof {
            assert(spec_replay_from(orig, off as int, index@) == Result::<_, StoreError>::Ok(
                index@,
            ));
            assert(spec_scan_end(orig, off as int) == off as int);
        }
        let mut file = file;
        file.truncate(off);
        let engine = Engine { file, index, next_tstamp: 0, threshold, bytes_since_compact: 0 };
        proof {
            let trimmed = orig.subrange(0, off as int);
            let rest = orig.subrange(off as int, orig.len() as int);
            assert_seqs_equal!(orig == trimmed + rest);
            lemma_locs_ok_extend(trimmed, rest, engine.index@);
            assert(engine@ =~= spec_recover(orig)->Ok_0);
        }
        Ok(engine)
    }

    /// Looks a key up: the value of its latest live record, or "not
    /// found" (a normal outcome, not an error) when the key was never
    /// set or was last deleted.
    pub fn get(&self, key: &[u8]) -> (r: Result<Option<Vec<u8>>, StoreError>)
        requires
            self.wf(),
        ensures
            match r {
                Result::Ok(v) => match v {
                    Option::Some(value) => self@.contains_key(key@) && value@ == self@[key@],
                    Option::None => !self@.contains_key(key@),
                },
                Result::Err(_) => false,
            },
    {
        match self.index.get(key) {
            None => Ok(None),
            Some(loc) => {
                proof {
                    assert(loc_ok(self.file@, key@, loc));
                }
                let flen = self.file.len();
                assert(loc.pos + loc.len <= flen);
                let start = loc.pos as usize;
                let end = (loc.pos + loc.len) as usize;
                let payload = slice_subrange(self.file.as_slice(), start, end);
                match decode_record(payload) {
                    Ok(rec) => {
                        match rec.value {
                            Some(v) => {
                                proof {
                                    assert(v@ == live_value_at(self.file@, loc));
                                }
                                Ok(Some(v))
                            },
                            None => {
                                proof {
                                    assert(false);
                                }
                                Err(StoreError::Corruption)
                            },
                        }
                    },
                    Err(_) => {
                        proof {
                            assert(false);
                        }
                        Err(StoreError::Corruption)
                    },
                }
            },
        }
    }

    /// Binds `key` to `value`: appends a live record and points the
    /// index at it. A later `get` of the key sees exactly this value,
    /// every other key keeps its binding, and the record is in the log
    /// bytes that [`Engine::file_bytes`] hands out, so it survives a
    /// reopen.
    ///
    /// After the append, once the bytes of live-record frames appended
    /// since open or since the last compaction reach the configured
    /// threshold, the log is compacted before the call returns; the
    /// logical content is the same either way. Records are stamped from
    /// a counter the engine advances on every mutation; the stamp is
    /// informational only and nothing orders by it.
    pub fn set(&mut self, key: Vec<u8>, value: Vec<u8>) -> (r: Result<(), StoreError>)
        requires
            old(self).wf(),
        ensures
            final(self).wf(),
            r == Result::<(), StoreError>::Ok(()),
            final(self)@ == old(self)@.insert(key@, value@),
            final(self).spec_threshold() == old(self).spec_threshold(),
            final(self).spec_file().len() <= old(self).spec_file().len() + 33 + key@.len()
                + value@.len(),
            old(self).spec_bytes_since_compact() + 33 + key@.len() + value@.len() >= old(
                self,
            ).spec_threshold() ==> final(self).spec_file().len() == spec_live_size(final(self)@)
                && final(self).spec_bytes_since_compact() == 0,
            old(self).spec_bytes_since_compact() + 33 + key@.len() + value@.len() < old(
                self,
            ).spec_threshold() ==> final(self).spec_file().len() == old(self).spec_file().len()
                + 33 + key@.len() + value@.len() && final(self).spec_bytes_since_compact() == old(
                self,
            ).spec_bytes_since_compact() + 33 + key@.len() + value@.len(),
    {
        let ghost old_file = self.file@;
        let ghost old_index = self.index@;
        let ghost old_view = self@;
        let ghost key_v = key@;
        let ghost val_v = value@;
        proof {
            assert(key.len() == key@.len());
            assert(value.len() == value@.len());
        }
        let tstamp = self.next_tstamp;
        if self.next_tstamp < i64::MAX {
            self.next_tstamp = self.next_tstamp + 1;
        }
        let rec = DataFileEntry { tstamp, key, value: Some(value) };
        let ghost rec_v = rec@;
        let payload = encode_record(&rec);
        let plen = payload.len();
        proof {
            lemma_codec_round_trip(rec_v);
        }
        let mut prefix = u64_to_le_bytes(plen as u64);
        self.file.append(&mut prefix);
        let pos64 = self.file.len() as u64;
        let ghost payload_v = payload@;
        let mut pl = payload;
        self.file.append(&mut pl);
        let _flen = self.file.len();
        let loc = LogIndex { pos: pos64, len: plen as u64 };
        proof {
            assert_seqs_equal!(self.file@
                == old_file + spec_u64_to_le_bytes(payload_v.len() as u64) + payload_v);
            lemma_replay_append(old_file, payload_v, 0, Map::empty());
            assert(pos64 == old_file.len() + 8);
            assert(spec_replay_from(self.file@, 0, Map::empty()) == Result::<_, StoreError>::Ok(
                old_index.insert(key_v, loc),
            ));
            lemma_locs_ok_extend(
                old_file,
                spec_u64_to_le_bytes(payload_v.len() as u64) + payload_v,
                old_index,
            );
            assert_seqs_equal!(old_file + (spec_u64_to_le_bytes(payload_v.len() as u64) + payload_v)
                == self.file@);
            assert(self.file@.subrange(pos64 as int, pos64 + plen) == payload_v);
            assert(loc_ok(self.file@, key_v, loc));
            assert(live_value_at(self.file@, loc) == val_v);
        }
        let DataFileEntry { key, .. } = rec;
        self.index.insert(key, loc);
        proof {
            assert(self.index@ == old_index.insert(key_v, loc));
            assert(locs_ok(self.file@, self.index@)) by {
                assert forall|k: Seq<u8>| #[trigger] self.index@.contains_key(k) implies loc_ok(
                    self.file@,
                    k,
                    self.index@[k],
                ) by {
                    if k != key_v {
                        assert(old_index.contains_key(k));
                    }
                }
            }
            assert(self@ =~= old_view.insert(key_v, val_v)) by {
                assert forall|k: Seq<u8>| #[trigger] self.index@.contains_key(k) && k != key_v
                    implies self@[k] == old_view[k] by {
                    assert(old_index.contains_key(k));
                }
            }
        }
        self.bytes_since_compact = self.bytes_since_compact + 8 + (plen as u64);
        proof {
            assert(self.wf());
            assert(8 + plen == 33 + key_v.len() + val_v.len());
        }
        if self.bytes_since_compact >= self.threshold {
            let _ = self.compact();
        }
        Ok(())
    }

    /// Deletes `key`: appends a tombstone record and removes the key
    /// from the index. A later `get` of the key reports "not found",
    /// and the tombstone survives a reopen. Deleting a key that is not
    /// bound is a successful no-op on the logical content (the
    /// tombstone is still appended). Tombstones do not count toward the
    /// auto-compaction threshold and do not trigger a compaction; only
    /// live appends do.
    pub fn del(&mut self, key: Vec<u8>) -> (r: Result<(), StoreError>)
        requires
            old(self).wf(),
        ensures
            final(self).wf(),
            r == Result::<(), StoreError>::Ok(()),
            final(self)@ == old(self)@.remove(key@),
            final(self).spec_threshold() == old(self).spec_threshold(),
            final(self).spec_bytes_since_compact() == old(self).spec_bytes_since_compact(),
            final(self).spec_file().len() == old(self).spec_file().len() + 25 + key@.len(),
    {
        let ghost old_file = self.file@;
        let ghost old_index = self.index@;
        let ghost old_view = self@;
        let ghost key_v = key@;
        proof {
            assert(key.len() == key@.len());
        }
        let tstamp = self.next_tstamp;
        if self.next_tstamp < i64::MAX {
            self.next_tstamp = self.next_tstamp + 1;
        }
        let rec = DataFileEntry { tstamp, key, value: None };
        let ghost rec_v = rec@;
        let payload = encode_record(&rec);
        let plen = payload.len();
        proof {
            lemma_codec_round_trip(rec_v);
        }
        let mut prefix = u64_to_le_bytes(plen as u64);
        self.file.append(&mut prefix);
        let ghost payload_v = payload@;
        let mut pl = payload;
        self.file.append(&mut pl);
        let _flen = self.file.len();
        proof {
            assert_seqs_equal!(self.file@
                == old_file + spec_u64_to_le_bytes(payload_v.len() as u64) + payload_v);
            lemma_replay_append(old_file, payload_v, 0, Map::empty());
            assert(spec_replay_from(self.file@, 0, Map::empty()) == Result::<_, StoreError>::Ok(
                old_index.remove(key_v),
            ));
            lemma_locs_ok_extend(
                old_file,
                spec_u64_to_le_bytes(payload_v.len() as u64) + payload_v,
                old_index,
            );
            assert_seqs_equal!(old_file + (spec_u64_to_le_bytes(payload_v.len() as u64) + payload_v)
                == self.file@);
        }
        let DataFileEntry { key, .. } = rec;
        self.index.remove(key.as_slice());
        proof {
            assert(self.index@ == old_index.remove(key_v));
            assert(locs_ok(self.file@, self.index@)) by {
                assert forall|k: Seq<u8>| #[trigger] self.index@.contains_key(k) implies loc_ok(
                    self.file@,
                    k,
                    self.index@[k],
                ) by {
                    assert(old_index.contains_key(k));
                }
            }
            assert(self@ =~= old_view.remove(key_v)) by {
                assert forall|k: Seq<u8>| #[trigger] self.index@.contains_key(k) implies self@[k]
                    == old_view[k] by {
                    assert(old_index.contains_key(k));
                }
            }
        }
        Ok(())
    }

    /// Rewrites the log to hold exactly the live records, one frame per
    /// live key and no tombstones, and rebuilds the index over the new
    /// log. The logical content does not change; the log afterwards is
    /// exactly as large as its live bindings dictate, and never larger
    /// than before.
    pub fn compact(&mut self) -> (r: Result<(), StoreError>)
        requires
            old(self).wf(),
        ensures
            final(self).wf(),
            r == Result::<(), StoreError>::Ok(()),
            final(self)@ == old(self)@,
            final(self).spec_threshold() == old(self).spec_threshold(),
            final(self).spec_bytes_since_compact() == 0,
            final(self).spec_file().len() == spec_live_size(final(self)@),
            final(self).spec_file().len() <= old(self).spec_file().len(),
    {
        let ghost old_file = self.file@;
        let ghost old_index = self.index@;
        let ghost old_view = self@;
        let n_file = self.file.len();
        proof {
            self.index.lemma_finite();
            assert(map_sum(Map::<Seq<u8>, LogIndex>::empty(), frame_weight()) == 0);
            lemma_replay_sum(old_file, 0, Map::empty());
            assert(map_sum(old_index, frame_weight()) <= old_file.len());
        }
        let mut new_file: Vec<u8> = Vec::new();
        let mut new_index = IndexMap::new();
        let total = self.index.len();
        let mut i: usize = 0;
        while i < total
            invariant
                i <= total,
                total == self.index.spec_num_entries(),
                self.file@ == old_file,
                self.index@ == old_index,
                self.index.wf(),
                locs_ok(old_file, old_index),
                old_file.len() <= u64::MAX,
                n_file == old_file.len(),
                new_index.wf(),
                new_index@.dom().finite(),
                frames_complete(new_file@, 0),
                spec_replay_from(new_file@, 0, Map::empty()) == Result::<_, StoreError>::Ok(
                    new_index@,
                ),
                locs_ok(new_file@, new_index@),
                forall|k: Seq<u8>| #[trigger]
                    new_index@.contains_key(k) ==> exists|j: int|
                        0 <= j < i && self.index.spec_key_at(j) == k,
                forall|j: int| 0 <= j < i ==> new_index@.contains_key(
                    #[trigger] self.index.spec_key_at(j),
                ),
                forall|k: Seq<u8>| #[trigger]
                    new_index@.contains_key(k) ==> old_index.contains_key(k) && new_index@[k].len
                        == old_index[k].len && live_value_at(new_file@, new_index@[k])
                        == live_value_at(old_file, old_index[k]),
                new_file@.len() == map_sum(new_index@, frame_weight()),
            decreases total - i,
        {
            let key = self.index.key_at(i);
            let loc = self.index.loc_at(i);
            let ghost key_v = key@;
            proof {
                self.index.lemma_entries_view();
                assert(old_index.contains_key(key_v) && old_index[key_v] == loc);
                assert(loc_ok(old_file, key_v, loc));
                assert(loc.pos + loc.len <= n_file);
            }
            let start = loc.pos as usize;
            let end = (loc.pos + loc.len) as usize;
            let payload = copy_range(self.file.as_slice(), start, end);
            let ghost payload_v = payload@;
            let ghost nf0 = new_file@;
            let ghost ni0 = new_index@;
            let mut prefix = u64_to_le_bytes(loc.len);
            new_file.append(&mut prefix);
            let npos = new_file.len() as u64;
            let mut pl = payload;
            new_file.append(&mut pl);
            let _nflen = new_file.len();
            let newloc = LogIndex { pos: npos, len: loc.len };
            proof {
                assert(payload_v.len() == loc.len);
                assert_seqs_equal!(new_file@
                    == nf0 + spec_u64_to_le_bytes(payload_v.len() as u64) + payload_v);
                assert(spec_decode_record(payload_v) is Some);
                lemma_replay_append(nf0, payload_v, 0, Map::empty());
                let r = spec_decode_record(payload_v)->Some_0;
                assert(r.key == key_v && r.value is Some);
                assert(npos == nf0.len() + 8);
                assert(spec_replay_from(new_file@, 0, Map::empty()) == Result::<_,
                    StoreError>::Ok(ni0.insert(key_v, newloc)));
                // The key of entry `i` was not rewritten before.
                assert(!ni0.contains_key(key_v)) by {
                    if ni0.contains_key(key_v) {
                        let j = choose|j: int| 0 <= j < i && self.index.spec_key_at(j) == key_v;
                        assert(self.index.spec_key_at(j) == self.index.spec_key_at(i as int));
                    }
                }
                lemma_map_sum_insert(ni0, frame_weight(), key_v, newloc);
                // Bindings already rewritten keep their records and
                // values.
                lemma_locs_ok_extend(nf0, spec_u64_to_le_bytes(payload_v.len() as u64) + payload_v, ni0);
                assert_seqs_equal!(nf0 + (spec_u64_to_le_bytes(payload_v.len() as u64) + payload_v)
                    == new_file@);
                // The new binding points at the payload just written,
                // which holds the same record as the old location.
                assert(new_file@.subrange(npos as int, npos + loc.len) == payload_v);
                assert(loc_ok(new_file@, key_v, newloc));
                assert(live_value_at(new_file@, newloc) == live_value_at(old_file, loc));
            }
            new_index.insert(key, newloc);
            i = i + 1;
            proof {
                assert(new_index@ == ni0.insert(key_v, newloc));
                assert(locs_ok(new_file@, new_index@)) by {
                    assert forall|k: Seq<u8>| #[trigger] new_index@.contains_key(k) implies loc_ok(
                        new_file@,
                        k,
                        new_index@[k],
                    ) by {
                        if k != key_v {
                            assert(ni0.contains_key(k));
                        }
                    }
                }
                assert(new_index@.contains_key(self.index.spec_key_at(i - 1)));
                assert forall|k: Seq<u8>| #[trigger] new_index@.contains_key(k) implies exists|
                    j: int,
                |
                    0 <= j < i && self.index.spec_key_at(j) == k by {
                    if k == key_v {
                        assert(self.index.spec_key_at(i - 1) == k);
                    } else {
                        let j = choose|j: int| 0 <= j < i - 1 && self.index.spec_key_at(j) == k;
                        assert(self.index.spec_key_at(j) == k);
                    }
                }
            }
        }
        proof {
            self.index.lemma_entries_view();
            assert(new_index@.dom() =~= old_index.dom()) by {
                assert forall|k: Seq<u8>| old_index.dom().contains(k) implies new_index@
                    .dom().contains(k) by {
                    assert(old_index.contains_key(k));
                    let j = choose|j: int|
                        0 <= j < self.index.spec_num_entries() && self.index.spec_key_at(j) == k;
                    assert(new_index@.contains_key(self.index.spec_key_at(j)));
                }
            }
            lemma_map_sum_congruent(new_index@, old_index, frame_weight(), frame_weight());
            assert(new_file@.len() <= old_file.len());
        }
        let ghost new_file_v = new_file@;
        let ghost new_index_v = new_index@;
        self.file = new_file;
        self.index = new_index;
        self.bytes_since_compact = 0;
        proof {
            assert(self.file@ == new_file_v && self.index@ == new_index_v);
            assert(self@ =~= old_view) by {
                assert forall|k: Seq<u8>| #[trigger] new_index_v.contains_key(k) implies self@[k]
                    == old_view[k] by {
                    assert(old_index.contains_key(k));
                }
            }
            assert(self@.dom() =~= new_index_v.dom());
            lemma_live_size_eq(new_file_v, new_index_v, self@);
        }
        Ok(())
    }

    /// Durability across reopen: the log bytes of a consistent engine
    /// recover, when replayed by [`Engine::load`], exactly the engine's
    /// logical content — what was set stays set, what was overwritten
    /// shows only its latest value, and what was deleted stays deleted.
    pub proof fn lemma_durability(&self)
        requires
            self.wf(),
        ensures
            spec_recover(self.spec_file()) == Result::<Map<Seq<u8>, Seq<u8>>, StoreError>::Ok(
                self@,
            ),
    {
        assert(spec_recover(self.spec_file())->Ok_0 =~= self@);
    }

    /// The size of the log in bytes.
    pub fn file_size(&self) -> (n: u64)
        ensures
            n == self.spec_file().len(),
    {
        self.file.len() as u64
    }

    /// The log bytes, handing the engine away: what a host process
    /// persists.
    pub fn into_file(self) -> (bytes: Vec<u8>)
        ensures
            bytes@ == self.spec_file(),
    {
        self.file
    }

    /// A copy of the log bytes: what a host process persists while the
    /// engine stays open.
    pub fn file_bytes(&self) -> (bytes: Vec<u8>)
        ensures
            bytes@ == self.spec_file(),
    {
        slice_to_vec(self.file.as_slice())
    }
}

} // verus!
