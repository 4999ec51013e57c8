//! The data model: one log record, one index entry, the error taxonomy,
//! and the request shape that transport adapters hand to the engine.

use vstd::prelude::*;

verus! {

/// One record of the log: a timestamp, a key, and either a live value or
/// (`value == None`) a tombstone marking the key deleted as of this point
/// in file order. The timestamp is informational only; nothing orders or
/// repairs by it.
#[derive(Debug)]
pub struct DataFileEntry {
    pub tstamp: i64,
    pub key: Vec<u8>,
    pub value: Option<Vec<u8>>,
}

/// The mathematical shadow of a [`DataFileEntry`].
pub ghost struct RecordModel {
    pub tstamp: i64,
    pub key: Seq<u8>,
    pub value: Option<Seq<u8>>,
}

impl View for DataFileEntry {
    type V = RecordModel;

    open spec fn view(&self) -> RecordModel {
        RecordModel {
            tstamp: self.tstamp,
            key: self.key@,
            value: match self.value {
                Option::Some(v) => Option::Some(v@),
                Option::None => Option::None,
            },
        }
    }
}

/// Where the latest live record of a key sits in the log: the byte offset
/// of the record payload (not of its length prefix) and the payload length.
#[derive(Debug, Clone, Copy, PartialEq, Eq, Structural)]
pub struct LogIndex {
    pub pos: u64,
    pub len: u64,
}

/// What can go wrong when bytes are replayed or read back.
///
/// "Not found" on a lookup is a normal outcome, never an error. I/O
/// failures belong to the host process that persists the log bytes; the
/// engine itself only ever reports the two shapes below.
#[derive(Debug, Clone, Copy, PartialEq, Eq, Structural)]
pub enum StoreError {
    /// Bytes do not have the shape of a record payload, or a payload
    /// disagrees with what the index says about it.
    Corruption,
    /// A length prefix announces more payload bytes than remain in the
    /// log: the tail of the last record is missing.
    Truncation,
}

/// The body of a "set" request as a transport adapter (an HTTP shell, a
/// CLI) receives it: both the key and the value as text.
#[derive(Debug, Clone)]
pub struct SetRequest {
    pub key: String,
    pub value: String,
}

} // verus!
