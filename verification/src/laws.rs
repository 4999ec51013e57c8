//! Laws of the store's logical content.
//!
//! Every engine operation's contract speaks of one map from live keys
//! to values: `set` inserts, `del` removes, `get` looks up. These proof
//! functions state, over that map and for every key and value —
//! byte-string keys and values of any content and any length, the empty
//! ones included — how the operations compose.

use vstd::prelude::*;

verus! {

/// Round trip: after binding `k` to `v`, looking `k` up finds exactly
/// `v`. This holds for every key and every value, including values and
/// keys holding any byte whatever and the empty value.
pub proof fn lemma_set_then_get(m: Map<Seq<u8>, Seq<u8>>, k: Seq<u8>, v: Seq<u8>)
    ensures
        m.insert(k, v).contains_key(k),
        m.insert(k, v)[k] == v,
{
}

/// Tombstone: after binding `k` and then deleting it, looking `k` up
/// reports "not found".
pub proof fn lemma_set_then_delete_is_absent(m: Map<Seq<u8>, Seq<u8>>, k: Seq<u8>, v: Seq<u8>)
    ensures
        !m.insert(k, v).remove(k).contains_key(k),
{
}

/// Overwrite: of two bindings of the same key, the latest wins.
pub proof fn lemma_latest_set_wins(
    m: Map<Seq<u8>, Seq<u8>>,
    k: Seq<u8>,
    v1: Seq<u8>,
    v2: Seq<u8>,
)
    ensures
        m.insert(k, v1).insert(k, v2).contains_key(k),
        m.insert(k, v1).insert(k, v2)[k] == v2,
{
}

/// Deleting a key that is not bound changes nothing: a no-op, not an
/// error.
pub proof fn lemma_delete_absent_is_noop(m: Map<Seq<u8>, Seq<u8>>, k: Seq<u8>)
    requires
        !m.contains_key(k),
    ensures
        m.remove(k) == m,
{
    assert(m.remove(k) =~= m);
}

/// An empty value is a value: after binding `k` to the empty byte
/// string, `k` is found and its value is empty — distinguishable from
/// "not found".
pub proof fn lemma_empty_value_is_found(m: Map<Seq<u8>, Seq<u8>>, k: Seq<u8>)
    ensures
        m.insert(k, Seq::empty()).contains_key(k),
        m.insert(k, Seq::empty())[k].len() == 0,
{
}

/// Bindings of distinct keys do not disturb each other.
pub proof fn lemma_set_keeps_other_keys(
    m: Map<Seq<u8>, Seq<u8>>,
    k: Seq<u8>,
    v: Seq<u8>,
    other: Seq<u8>,
)
    requires
        k != other,
    ensures
        m.insert(k, v).contains_key(other) == m.contains_key(other),
        m.contains_key(other) ==> m.insert(k, v)[other] == m[other],
{
}

} // verus!
