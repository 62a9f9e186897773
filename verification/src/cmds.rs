//! The command implementations: each takes the store state and plain
//! argument values and produces the reply frame.

use vstd::prelude::*;

verus! {

use crate::db::expiry_instant;
use crate::db::State;
use crate::resp::models_of;
use crate::resp::resp_model;
use crate::resp::RespModel;
use crate::resp::RespValue;

/// The `PONG` status payload.
pub open spec fn pong_text() -> Seq<u8> {
    seq![80u8, 79u8, 78u8, 71u8]
}

/// The `OK` status payload.
pub open spec fn ok_text() -> Seq<u8> {
    seq![79u8, 75u8]
}

/// What the `LIST` reply looks like: one `key: value` bulk string per
/// listed entry, at most `limit` of them (10 when none is given), in
/// iteration order.
pub open spec fn list_reply(entries: Seq<(Seq<u8>, Seq<u8>)>, limit: Option<int>, elems: Seq<RespModel>) -> bool {
    let cap = match limit {
        Some(l) => l,
        None => 10int,
    };
    &&& elems.len() == (if cap <= entries.len() {
        cap
    } else {
        entries.len() as int
    })
    &&& forall|i: int|
        0 <= i < elems.len() ==> (#[trigger] elems[i]) == RespModel::BulkString(
            entries[i].0 + seq![58u8, 32u8] + entries[i].1,
        )
}

/// Replies to `PING` with the status `PONG`.
pub fn ping() -> (r: RespValue)
    ensures
        r@ == RespModel::Text(pong_text()),
{
    let mut t: Vec<u8> = Vec::new();
    t.push(80);
    t.push(79);
    t.push(78);
    t.push(71);
    proof {
        assert(t@ =~= pong_text());
    }
    RespValue::Text(t)
}

/// Stores `value` under `key` (expiring `expiry` milliseconds past
/// `now`, when given) and replies with the status `OK`; also reports
/// whether the reclaimer must be woken, as [`State::set`] decides it.
pub fn set(storage: &mut State, key: Vec<u8>, value: Vec<u8>, expiry: Option<u64>, now: u64) -> (r:
    (RespValue, bool))
    requires
        old(storage).wf(),
        expiry matches Some(d) ==> now + d <= u64::MAX,
    ensures
        final(storage).wf(),
        final(storage).contents() == old(storage).contents().insert(
            key@,
            (value@, expiry_instant(expiry, now)),
        ),
        final(storage).spec_shutdown() == old(storage).spec_shutdown(),
        r.0@ == RespModel::Text(ok_text()),
        r.1 == (match expiry_instant(expiry, now) {
            Some(w) => match old(storage).next_expiry() {
                Some(first) => w < first,
                None => true,
            },
            None => false,
        }),
{
    let notify = storage.set(key, value, expiry, now);
    let mut t: Vec<u8> = Vec::new();
    t.push(79);
    t.push(75);
    proof {
        assert(t@ =~= ok_text());
    }
    (RespValue::Text(t), notify)
}

/// Replies to `GET`: the stored value as a bulk string, or the null
/// bulk string for an absent key.  The expiry is not consulted; a value
/// past its time-to-live but not yet purged is still returned.
pub fn get(storage: &State, key: &[u8]) -> (r: RespValue)
    ensures
        storage.contents().dom().contains(key@) ==> r@ == RespModel::BulkString(
            storage.contents()[key@].0,
        ),
        !storage.contents().dom().contains(key@) ==> r@ == RespModel::Null,
{
    match storage.get(key) {
        Some(v) => RespValue::BulkString(v),
        None => RespValue::Null,
    }
}

/// Replies to `LIST`: an array of `key: value` bulk strings, at most
/// `limit` of them (10 when no limit is given).
pub fn list(storage: &State, limit: Option<usize>) -> (r: RespValue)
    ensures
        r@ matches RespModel::Array(elems) && list_reply(
            storage.entries_seq(),
            match limit {
                Some(l) => Some(l as int),
                None => None::<int>,
            },
            elems,
        ),
{
    let mut lines = storage.list(limit);
    let ghost orig = lines@;
    let mut elems: Vec<RespValue> = Vec::new();
    while lines.len() > 0
        invariant
            elems@.len() + lines@.len() == orig.len(),
            lines@ == orig.skip(elems@.len() as int),
            forall|j: int|
                0 <= j < elems@.len() ==> (#[trigger] elems@[j]) == RespValue::BulkString(
                    orig[j],
                ),
        decreases lines@.len(),
    {
        let line = lines.remove(0);
        proof {
            assert(lines@ =~= orig.skip(elems@.len() as int + 1));
        }
        elems.push(RespValue::BulkString(line));
    }
    proof {
        assert forall|j: int| 0 <= j < elems@.len() implies #[trigger] models_of(elems@)[j]
            == RespModel::BulkString(orig[j]@) by {
            assert(models_of(elems@)[j] == resp_model(elems@[j]));
        }
    }
    RespValue::Array(elems)
}

} // verus!
