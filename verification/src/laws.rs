//! The library's laws: properties that tie the operations together,
//! stated over the models and proved from the operations' contracts.

use vstd::prelude::*;
use crate::decimal::{decimal_i64, parse_i64_spec, lemma_parse_decimal_i64};
use crate::resp::{
    RespVal, Parsed, frame_bytes, decode_spec, wf_val, lemma_decode_encoded, lemma_decode_prefix,
};
use crate::store::{
    EntryModel, StoreError, get_result, exists_result, set_map, del_map, del_count, del_one_map,
    counter_result, counter_map, expiry_at, remaining_at, sat_add64,
};

verus! {

/// Round trip: decoding the encoding of any constructible value yields
/// that value back, consuming exactly the encoded byte length.
pub proof fn law_round_trip(v: RespVal)
    requires
        wf_val(v),
    ensures
        decode_spec(frame_bytes(v)) == Parsed::<RespVal>::Done(v, frame_bytes(v).len() as int),
{
    lemma_decode_encoded(v, Seq::empty());
    assert(frame_bytes(v) + Seq::<u8>::empty() =~= frame_bytes(v));
}

/// Incremental decoding: however a byte stream is split into chunks, a
/// decode attempt on an accumulated prefix either reports incomplete —
/// and, by construction, consumes nothing — or yields exactly what one
/// decode of the whole buffer yields.
pub proof fn law_incremental_decode(b: Seq<u8>, k: int)
    requires
        0 <= k <= b.len(),
    ensures
        decode_spec(b.take(k)) is Incomplete || decode_spec(b.take(k)) == decode_spec(b),
{
    lemma_decode_prefix(b, k);
}

/// Chunked delivery of one encoded frame: however many chunks of it have
/// arrived so far, a decode attempt either still reports incomplete or
/// yields exactly the frame, just as one decode of the complete encoding
/// would.
pub proof fn law_chunked_frame(v: RespVal, k: int)
    requires
        wf_val(v),
        0 <= k <= frame_bytes(v).len(),
    ensures
        decode_spec(frame_bytes(v).take(k)) is Incomplete || decode_spec(frame_bytes(v).take(k))
            == Parsed::<RespVal>::Done(v, frame_bytes(v).len() as int),
{
    law_round_trip(v);
    lemma_decode_prefix(frame_bytes(v), k);
}

/// Writing a key and then reading it yields the value just written, and
/// reading a key that was never written yields nothing.
pub proof fn law_set_then_get(
    m: Map<Seq<u8>, EntryModel>,
    k: Seq<u8>,
    v: Seq<u8>,
    now: u64,
)
    ensures
        get_result(set_map(m, k, v, None, now), k, now) == Some(v),
        !m.contains_key(k) ==> get_result(m, k, now) is None,
{
}

/// A write whose expiry window is zero is gone after any positive elapsed
/// time: the read returns nothing and the key no longer exists.
pub proof fn law_expiry_observed(
    m: Map<Seq<u8>, EntryModel>,
    k: Seq<u8>,
    v: Seq<u8>,
    now: u64,
    later: u64,
)
    requires
        later > now,
    ensures
        get_result(set_map(m, k, v, Some(0), now), k, later) is None,
        !exists_result(set_map(m, k, v, Some(0), now), k, later),
{
    assert(sat_add64(now, 0) == now);
}

/// Deleting one live key and one absent key counts exactly the live one,
/// and a following read of the deleted key yields nothing.
pub proof fn law_del_pair(m: Map<Seq<u8>, EntryModel>, k1: Seq<u8>, k2: Seq<u8>, now: u64)
    requires
        exists_result(m, k1, now),
        !m.contains_key(k2),
        k1 != k2,
    ensures
        del_count(m, seq![k1, k2], now) == 1,
        get_result(del_map(m, seq![k1, k2], now), k1, now) is None,
{
    let keys = seq![k1, k2];
    assert(keys[0] == k1);
    assert(keys.drop_first() =~= seq![k2]);
    assert(seq![k2][0] == k2);
    assert(seq![k2].drop_first() =~= Seq::<Seq<u8>>::empty());
    let m1 = del_one_map(m, k1, now);
    assert(m1 == m.remove(k1));
    assert(!m1.contains_key(k2));
    assert(del_one_map(m1, k2, now) == m1);
    assert(del_count(m1, Seq::<Seq<u8>>::empty(), now) == 0);
    assert(del_map(m1, Seq::<Seq<u8>>::empty(), now) == m1);
    assert(del_count(m1, seq![k2], now) == 0 + del_count(m1, Seq::<Seq<u8>>::empty(), now));
    assert(del_map(m1, seq![k2], now) == del_map(m1, Seq::<Seq<u8>>::empty(), now));
    assert(del_count(m, keys, now) == 1 + del_count(m1, seq![k2], now));
    assert(del_map(m, keys, now) == del_map(m1, seq![k2], now));
}

/// A counter on a fresh key counts every step: the first increment
/// returns one, each later increment returns one more, and a decrement
/// steps back by one. Four increments and a decrement leave three.
pub proof fn law_counter_sequence(m: Map<Seq<u8>, EntryModel>, k: Seq<u8>, now: u64)
    requires
        !m.contains_key(k),
    ensures
        ({
            let m1 = counter_map(m, k, now, true);
            let m2 = counter_map(m1, k, now, true);
            let m3 = counter_map(m2, k, now, true);
            let m4 = counter_map(m3, k, now, true);
            counter_result(m, k, now, true) == Result::<i64, StoreError>::Ok(1i64)
                && counter_result(m1, k, now, true) == Result::<i64, StoreError>::Ok(2i64)
                && counter_result(m2, k, now, true) == Result::<i64, StoreError>::Ok(3i64)
                && counter_result(m3, k, now, true) == Result::<i64, StoreError>::Ok(4i64)
                && counter_result(m4, k, now, false) == Result::<i64, StoreError>::Ok(3i64)
                && counter_map(m4, k, now, false)[k].data == decimal_i64(3)
        }),
{
    lemma_parse_decimal_i64(1);
    lemma_parse_decimal_i64(2);
    lemma_parse_decimal_i64(3);
    lemma_parse_decimal_i64(4);
}

/// A counter step on a key whose payload is not integer text fails, and
/// leaves the store — and so what a read returns — unchanged.
pub proof fn law_counter_error(m: Map<Seq<u8>, EntryModel>, k: Seq<u8>, now: u64)
    requires
        exists_result(m, k, now),
        parse_i64_spec(m[k].data) is None,
    ensures
        counter_result(m, k, now, true) == Result::<i64, StoreError>::Err(
            StoreError::NotAnInteger,
        ),
        counter_map(m, k, now, true) == m,
        get_result(counter_map(m, k, now, true), k, now) == get_result(m, k, now),
{
}

/// A counter step on a live entry with a deadline keeps that deadline:
/// the remaining time is measured at the step and re-anchored there, so
/// the absolute deadline neither resets to nothing nor grows — and the
/// step itself returns the old value plus one (below the wrap point).
pub proof fn law_counter_keeps_deadline(
    m: Map<Seq<u8>, EntryModel>,
    k: Seq<u8>,
    now: u64,
    n: i64,
)
    requires
        exists_result(m, k, now),
        parse_i64_spec(m[k].data) == Some(n),
        m[k].expiry is Some,
    ensures
        counter_map(m, k, now, true)[k].expiry == m[k].expiry,
        expiry_at(remaining_at(m[k].expiry, now), now) == m[k].expiry,
        n < i64::MAX ==> counter_result(m, k, now, true) == Result::<i64, StoreError>::Ok(
            (n + 1) as i64,
        ),
{
}

/// The store after `c` increments of `k`, all at time `now`.
pub open spec fn incr_n(m: Map<Seq<u8>, EntryModel>, k: Seq<u8>, now: u64, c: nat) -> Map<
    Seq<u8>,
    EntryModel,
>
    decreases c,
{
    if c == 0 {
        m
    } else {
        counter_map(incr_n(m, k, now, (c - 1) as nat), k, now, true)
    }
}

/// No increment is lost or double-applied: starting from an absent key,
/// a run of `c` increments — in whatever interleaving the store's
/// serialised critical sections admit, since each runs alone — leaves the
/// counter holding exactly `c`, and the `c`-th increment returned `c`.
pub proof fn law_increments_count(m: Map<Seq<u8>, EntryModel>, k: Seq<u8>, now: u64, c: nat)
    requires
        !m.contains_key(k),
        1 <= c <= i64::MAX,
    ensures
        incr_n(m, k, now, c).contains_key(k),
        incr_n(m, k, now, c)[k].data == decimal_i64(c as int),
        incr_n(m, k, now, c)[k].expiry is None,
        counter_result(incr_n(m, k, now, (c - 1) as nat), k, now, true) == Result::<
            i64,
            StoreError,
        >::Ok(c as i64),
    decreases c,
{
    if c == 1 {
    } else {
        law_increments_count(m, k, now, (c - 1) as nat);
        lemma_parse_decimal_i64(c - 1);
    }
}

} // verus!
