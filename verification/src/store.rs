//! The keyed store: a mapping from byte-string keys to values with
//! optional absolute expiry, enforced lazily on access.
//!
//! Time is a plain milliseconds count that every operation receives from
//! its caller; the store itself never reads a clock. Its model is a
//! `Map` from key to `EntryModel`, and every operation's contract states
//! the new map and the returned value over that model.

use vstd::prelude::*;
use vstd::slice::*;
use crate::decimal::{decimal_i64, format_i64, parse_i64, parse_i64_spec};

verus! {

/// The mathematical model of one stored entry: its payload and its
/// absolute expiry in milliseconds, if any.
pub struct EntryModel {
    pub data: Seq<u8>,
    pub expiry: Option<u64>,
}

/// A stored value: the payload and an optional absolute expiry instant
/// in milliseconds.
#[derive(Debug)]
pub struct Value {
    pub data: Vec<u8>,
    pub expiry: Option<u64>,
}

/// The one store failure: a counter operation on a payload that is not
/// decimal text for a 64-bit signed integer.
#[derive(Debug, Clone, PartialEq, Eq)]
pub enum StoreError {
    NotAnInteger,
}

/// The error text sent on the wire for `StoreError::NotAnInteger`:
/// `ERR value is not an integer or out of range`.
pub open spec fn not_integer_message() -> Seq<u8> {
    seq![69u8, 82u8, 82u8, 32u8, 118u8, 97u8, 108u8, 117u8, 101u8, 32u8, 105u8, 115u8, 32u8, 110u8, 111u8, 116u8, 32u8, 97u8, 110u8, 32u8, 105u8, 110u8, 116u8, 101u8, 103u8, 101u8, 114u8, 32u8, 111u8, 114u8, 32u8, 111u8, 117u8, 116u8, 32u8, 111u8, 102u8, 32u8, 114u8, 97u8, 110u8, 103u8, 101u8]
}

impl StoreError {
    /// The wire text of this error.
    pub fn message(&self) -> (r: Vec<u8>)
        ensures
            r@ == not_integer_message(),
    {
        let mut out: Vec<u8> = Vec::new();
        out.push(69);
        out.push(82);
        out.push(82);
        out.push(32);
        out.push(118);
        out.push(97);
        out.push(108);
        out.push(117);
        out.push(101);
        out.push(32);
        out.push(105);
        out.push(115);
        out.push(32);
        out.push(110);
        out.push(111);
        out.push(116);
        out.push(32);
        out.push(97);
        out.push(110);
        out.push(32);
        out.push(105);
        out.push(110);
        out.push(116);
        out.push(101);
        out.push(103);
        out.push(101);
        out.push(114);
        out.push(32);
        out.push(111);
        out.push(114);
        out.push(32);
        out.push(111);
        out.push(117);
        out.push(116);
        out.push(32);
        out.push(111);
        out.push(102);
        out.push(32);
        out.push(114);
        out.push(97);
        out.push(110);
        out.push(103);
        out.push(101);
        proof {
            assert(out@ =~= not_integer_message());
        }
        out
    }
}

/// Saturating addition on milliseconds: a deadline past the end of the
/// representable range stays at the maximum.
pub open spec fn sat_add64(a: u64, b: u64) -> u64 {
    if a + b > u64::MAX {
        u64::MAX
    } else {
        (a + b) as u64
    }
}

/// The absolute expiry that a relative duration anchors to at `now`.
pub open spec fn expiry_at(d: Option<u64>, now: u64) -> Option<u64> {
    match d {
        Some(dur) => Some(sat_add64(now, dur)),
        None => None,
    }
}

/// An entry with deadline `e` is expired once `now` is strictly past it.
pub open spec fn expired_at(e: Option<u64>, now: u64) -> bool {
    match e {
        Some(t) => now > t,
        None => false,
    }
}

/// The time still left before deadline `e`, if it has not passed.
pub open spec fn remaining_at(e: Option<u64>, now: u64) -> Option<u64> {
    match e {
        Some(t) => if now <= t {
            Some((t - now) as u64)
        } else {
            None
        },
        None => None,
    }
}

pub open spec fn entry_model(v: Value) -> EntryModel {
    EntryModel { data: v.data@, expiry: v.expiry }
}

impl Value {
    /// Build an entry, anchoring a relative expiry to `now`.
    pub fn new(data: Vec<u8>, expiry: Option<u64>, now: u64) -> (v: Value)
        ensures
            v.data == data,
            v.expiry == expiry_at(expiry, now),
    {
        let e = match expiry {
            Some(d) => Some(now.saturating_add(d)),
            None => None,
        };
        Value { data, expiry: e }
    }

    pub fn is_expired(&self, now: u64) -> (r: bool)
        ensures
            r == expired_at(self.expiry, now),
    {
        match self.expiry {
            Some(t) => now > t,
            None => false,
        }
    }

    /// The payload read as a signed 64-bit counter.
    pub fn parse_int(&self) -> (r: Option<i64>)
        ensures
            r == parse_i64_spec(self.data@),
    {
        parse_i64(self.data.as_slice())
    }

    /// The time left before this entry's deadline, measured from `now`.
    pub fn remaining_duration(&self, now: u64) -> (r: Option<u64>)
        ensures
            r == remaining_at(self.expiry, now),
    {
        match self.expiry {
            Some(t) => if now <= t {
                Some(t - now)
            } else {
                None
            },
            None => None,
        }
    }
}

/// The keys of a key list, as sequences.
pub open spec fn keys_view(keys: Seq<Vec<u8>>) -> Seq<Seq<u8>> {
    keys.map_values(|k: Vec<u8>| k@)
}

/// What a read of `k` at `now` returns: the payload if the key is present
/// and not expired, and nothing otherwise.
pub open spec fn get_result(m: Map<Seq<u8>, EntryModel>, k: Seq<u8>, now: u64) -> Option<Seq<u8>> {
    if m.contains_key(k) && !expired_at(m[k].expiry, now) {
        Some(m[k].data)
    } else {
        None
    }
}

/// The key is present and not expired.
pub open spec fn exists_result(m: Map<Seq<u8>, EntryModel>, k: Seq<u8>, now: u64) -> bool {
    m.contains_key(k) && !expired_at(m[k].expiry, now)
}

/// The map after a read of `k` at `now`: a read that observes an expired
/// entry removes it (lazy eviction); otherwise nothing changes.
pub open spec fn access_map(m: Map<Seq<u8>, EntryModel>, k: Seq<u8>, now: u64) -> Map<
    Seq<u8>,
    EntryModel,
> {
    if m.contains_key(k) && expired_at(m[k].expiry, now) {
        m.remove(k)
    } else {
        m
    }
}

/// The map after an unconditional write.
pub open spec fn set_map(
    m: Map<Seq<u8>, EntryModel>,
    k: Seq<u8>,
    v: Seq<u8>,
    expiry: Option<u64>,
    now: u64,
) -> Map<Seq<u8>, EntryModel> {
    m.insert(k, EntryModel { data: v, expiry: expiry_at(expiry, now) })
}

/// One deletion step: a key is removed — and counted — only if present and
/// not expired. An expired entry is deliberately left for a later read to
/// reap, and does not count as deleted.
pub open spec fn del_one_map(m: Map<Seq<u8>, EntryModel>, k: Seq<u8>, now: u64) -> Map<
    Seq<u8>,
    EntryModel,
> {
    if exists_result(m, k, now) {
        m.remove(k)
    } else {
        m
    }
}

pub open spec fn del_map(m: Map<Seq<u8>, EntryModel>, keys: Seq<Seq<u8>>, now: u64) -> Map<
    Seq<u8>,
    EntryModel,
>
    decreases keys.len(),
{
    if keys.len() == 0 {
        m
    } else {
        del_map(del_one_map(m, keys[0], now), keys.drop_first(), now)
    }
}

pub open spec fn del_count(m: Map<Seq<u8>, EntryModel>, keys: Seq<Seq<u8>>, now: u64) -> int
    decreases keys.len(),
{
    if keys.len() == 0 {
        0
    } else {
        (if exists_result(m, keys[0], now) {
            1int
        } else {
            0int
        }) + del_count(del_one_map(m, keys[0], now), keys.drop_first(), now)
    }
}

/// One counter step, wrapping at the ends of the 64-bit range as native
/// signed arithmetic does.
pub open spec fn step_value(n: i64, up: bool) -> i64 {
    if up {
        if n == i64::MAX {
            i64::MIN
        } else {
            (n + 1) as i64
        }
    } else {
        if n == i64::MIN {
            i64::MAX
        } else {
            (n - 1) as i64
        }
    }
}

/// What a counter operation returns: an absent or expired key starts the
/// counter at one (or minus one); a live entry must parse as an integer,
/// or the operation fails and changes nothing.
pub open spec fn counter_result(m: Map<Seq<u8>, EntryModel>, k: Seq<u8>, now: u64, up: bool) -> Result<
    i64,
    StoreError,
> {
    if !exists_result(m, k, now) {
        Result::Ok(
            if up {
                1i64
            } else {
                -1i64
            },
        )
    } else {
        match parse_i64_spec(m[k].data) {
            None => Result::Err(StoreError::NotAnInteger),
            Some(n) => Result::Ok(step_value(n, up)),
        }
    }
}

/// The map after a counter operation. A fresh counter has no expiry; a
/// stepped live entry keeps its remaining time, converted to a duration at
/// `now` and re-anchored to `now` as a new absolute deadline.
pub open spec fn counter_map(m: Map<Seq<u8>, EntryModel>, k: Seq<u8>, now: u64, up: bool) -> Map<
    Seq<u8>,
    EntryModel,
> {
    if !exists_result(m, k, now) {
        m.insert(
            k,
            EntryModel {
                data: decimal_i64(
                    if up {
                        1int
                    } else {
                        -1int
                    },
                ),
                expiry: None,
            },
        )
    } else {
        match parse_i64_spec(m[k].data) {
            None => m,
            Some(n) => m.insert(
                k,
                EntryModel {
                    data: decimal_i64(step_value(n, up) as int),
                    expiry: expiry_at(remaining_at(m[k].expiry, now), now),
                },
            ),
        }
    }
}

/// The map a list of entries denotes; a later entry for the same key wins.
pub open spec fn map_of(entries: Seq<(Vec<u8>, Value)>) -> Map<Seq<u8>, EntryModel>
    decreases entries.len(),
{
    if entries.len() == 0 {
        Map::empty()
    } else {
        map_of(entries.drop_last()).insert(
            entries.last().0@,
            entry_model(entries.last().1),
        )
    }
}

/// The shared mapping. One instance serves every connection; the driver
/// serialises access around each whole operation.
pub struct Store {
    entries: Vec<(Vec<u8>, Value)>,
}

impl View for Store {
    type V = Map<Seq<u8>, EntryModel>;

    closed spec fn view(&self) -> Map<Seq<u8>, EntryModel> {
        map_of(self.entries@)
    }
}

proof fn lemma_map_of_contains(entries: Seq<(Vec<u8>, Value)>, k: Seq<u8>)
    ensures
        map_of(entries).contains_key(k) <==> exists|i: int|
            0 <= i < entries.len() && entries[i].0@ == k,
    decreases entries.len(),
{
    if entries.len() > 0 {
        lemma_map_of_contains(entries.drop_last(), k);
        if entries.last().0@ == k {
            assert(entries[entries.len() - 1].0@ == k);
        } else {
            if map_of(entries).contains_key(k) {
                let i = choose|i: int|
                    0 <= i < entries.drop_last().len() && entries.drop_last()[i].0@ == k;
                assert(entries[i].0@ == k);
            }
            if exists|i: int| 0 <= i < entries.len() && entries[i].0@ == k {
                let i = choose|i: int| 0 <= i < entries.len() && entries[i].0@ == k;
                assert(i < entries.len() - 1);
                assert(entries.drop_last()[i].0@ == k);
            }
        }
    }
}


/// Key uniqueness across the entry list.
pub open spec fn unique_keys(entries: Seq<(Vec<u8>, Value)>) -> bool {
    forall|i: int, j: int|
        0 <= i < j < entries.len() ==> (#[trigger] entries[i].0@) != (#[trigger] entries[j].0@)
}

proof fn lemma_map_of_at(entries: Seq<(Vec<u8>, Value)>, i: int)
    requires
        unique_keys(entries),
        0 <= i < entries.len(),
    ensures
        map_of(entries).contains_key(entries[i].0@),
        map_of(entries)[entries[i].0@] == entry_model(entries[i].1),
    decreases entries.len(),
{
    if i == entries.len() - 1 {
    } else {
        assert(entries[i].0@ != entries.last().0@);
        assert forall|a: int, b: int|
            0 <= a < b < entries.drop_last().len() implies (#[trigger] entries.drop_last()[a].0@)
            != (#[trigger] entries.drop_last()[b].0@) by {
            assert(entries.drop_last()[a] == entries[a]);
            assert(entries.drop_last()[b] == entries[b]);
        }
        lemma_map_of_at(entries.drop_last(), i);
        assert(entries.drop_last()[i] == entries[i]);
    }
}

proof fn lemma_unique_drop_last(entries: Seq<(Vec<u8>, Value)>)
    requires
        unique_keys(entries),
        entries.len() > 0,
    ensures
        unique_keys(entries.drop_last()),
{
    assert forall|a: int, b: int|
        0 <= a < b < entries.drop_last().len() implies (#[trigger] entries.drop_last()[a].0@)
        != (#[trigger] entries.drop_last()[b].0@) by {
        assert(entries.drop_last()[a] == entries[a]);
        assert(entries.drop_last()[b] == entries[b]);
    }
}

proof fn lemma_map_of_update(entries: Seq<(Vec<u8>, Value)>, i: int, k: Vec<u8>, v: Value)
    requires
        unique_keys(entries),
        0 <= i < entries.len(),
        k@ == entries[i].0@,
    ensures
        map_of(entries.update(i, (k, v))) == map_of(entries).insert(k@, entry_model(v)),
        unique_keys(entries.update(i, (k, v))),
    decreases entries.len(),
{
    let upd = entries.update(i, (k, v));
    assert forall|a: int, b: int|
        0 <= a < b < upd.len() implies (#[trigger] upd[a].0@) != (#[trigger] upd[b].0@) by {
        assert(upd[a].0@ == entries[a].0@);
        assert(upd[b].0@ == entries[b].0@);
    }
    lemma_unique_drop_last(entries);
    if i == entries.len() - 1 {
        assert(upd.drop_last() =~= entries.drop_last());
        assert(upd.last() == (k, v));
        assert(map_of(upd) == map_of(entries.drop_last()).insert(k@, entry_model(v)));
        assert(map_of(entries.drop_last()).insert(k@, entry_model(v)) =~= map_of(
            entries,
        ).insert(k@, entry_model(v)));
    } else {
        assert(upd.drop_last() =~= entries.drop_last().update(i, (k, v)));
        assert(upd.last() == entries.last());
        assert(entries.drop_last()[i] == entries[i]);
        lemma_map_of_update(entries.drop_last(), i, k, v);
        assert(entries[i].0@ != entries.last().0@);
        assert(map_of(entries.drop_last()).insert(k@, entry_model(v)).insert(
            entries.last().0@,
            entry_model(entries.last().1),
        ) =~= map_of(entries).insert(k@, entry_model(v)));
    }
}

proof fn lemma_map_of_push(entries: Seq<(Vec<u8>, Value)>, k: Vec<u8>, v: Value)
    ensures
        map_of(entries.push((k, v))) == map_of(entries).insert(k@, entry_model(v)),
{
    assert(entries.push((k, v)).drop_last() =~= entries);
    assert(entries.push((k, v)).last() == (k, v));
}

proof fn lemma_map_of_remove(entries: Seq<(Vec<u8>, Value)>, i: int)
    requires
        unique_keys(entries),
        0 <= i < entries.len(),
    ensures
        map_of(entries.remove(i)) == map_of(entries).remove(entries[i].0@),
        unique_keys(entries.remove(i)),
    decreases entries.len(),
{
    let rem = entries.remove(i);
    assert forall|a: int, b: int|
        0 <= a < b < rem.len() implies (#[trigger] rem[a].0@) != (#[trigger] rem[b].0@) by {
        if b < i {
            assert(rem[a] == entries[a]);
            assert(rem[b] == entries[b]);
        } else if a < i {
            assert(rem[a] == entries[a]);
            assert(rem[b] == entries[b + 1]);
        } else {
            assert(rem[a] == entries[a + 1]);
            assert(rem[b] == entries[b + 1]);
        }
    }
    lemma_unique_drop_last(entries);
    if i == entries.len() - 1 {
        assert(rem =~= entries.drop_last());
        lemma_map_of_contains(entries.drop_last(), entries[i].0@);
        assert forall|a: int| 0 <= a < entries.drop_last().len() implies (
        #[trigger] entries.drop_last()[a].0@) != entries[i].0@ by {
            assert(entries.drop_last()[a] == entries[a]);
        }
        assert(!map_of(entries.drop_last()).contains_key(entries[i].0@));
        assert(map_of(entries.drop_last()) =~= map_of(entries).remove(entries[i].0@));
    } else {
        assert(rem.drop_last() =~= entries.drop_last().remove(i));
        assert(rem.last() == entries.last());
        assert(entries.drop_last()[i] == entries[i]);
        lemma_map_of_remove(entries.drop_last(), i);
        assert(entries[i].0@ != entries.last().0@);
        assert(map_of(entries.drop_last()).remove(entries[i].0@).insert(
            entries.last().0@,
            entry_model(entries.last().1),
        ) =~= map_of(entries).remove(entries[i].0@));
    }
}

/// Byte-string equality.
pub(crate) fn bytes_eq(a: &[u8], b: &[u8]) -> (r: bool)
    ensures
        r == (a@ == b@),
{
    if a.len() != b.len() {
        return false;
    }
    let n = a.len();
    let mut i: usize = 0;
    while i < n
        invariant
            0 <= i <= n,
            n == a@.len() == b@.len(),
            forall|j: int| 0 <= j < i ==> a@[j] == b@[j],
        decreases n - i,
    {
        if *slice_index_get(a, i) != *slice_index_get(b, i) {
            return false;
        }
        i = i + 1;
    }
    proof {
        assert(a@ =~= b@);
    }
    true
}

/// A fresh copy of a byte string.
pub(crate) fn copy_bytes(src: &[u8]) -> (r: Vec<u8>)
    ensures
        r@ == src@,
{
    let mut out: Vec<u8> = Vec::new();
    out.extend_from_slice(src);
    proof {
        assert(out@ =~= src@);
    }
    out
}

impl Store {
    /// Keys are unique, so the entry list and its map agree.
    pub closed spec fn wf(&self) -> bool {
        unique_keys(self.entries@)
    }

    fn find(&self, key: &[u8]) -> (r: Option<usize>)
        ensures
            match r {
                Some(i) => 0 <= i < self.entries@.len() && self.entries@[i as int].0@ == key@,
                None => forall|i: int|
                    0 <= i < self.entries@.len() ==> (#[trigger] self.entries@[i].0@) != key@,
            },
    {
        let n = self.entries.len();
        let mut i: usize = 0;
        while i < n
            invariant
                0 <= i <= n,
                n == self.entries@.len(),
                forall|j: int| 0 <= j < i ==> (#[trigger] self.entries@[j].0@) != key@,
            decreases n - i,
        {
            let entry = &self.entries[i];
            if bytes_eq(entry.0.as_slice(), key) {
                return Some(i);
            }
            i = i + 1;
        }
        None
    }

    /// An empty store.
    pub fn new() -> (s: Store)
        ensures
            s.wf(),
            s@ == Map::<Seq<u8>, EntryModel>::empty(),
    {
        let s = Store { entries: Vec::new() };
        proof {
            assert(s@ =~= Map::<Seq<u8>, EntryModel>::empty());
        }
        s
    }

    /// Unconditional insert or overwrite; an expiry is a duration from
    /// `now`, anchored at call time.
    pub fn set(&mut self, key: Vec<u8>, value: Vec<u8>, expiry: Option<u64>, now: u64)
        requires
            old(self).wf(),
        ensures
            final(self).wf(),
            final(self)@ == set_map(old(self)@, key@, value@, expiry, now),
    {
        let v = Value::new(value, expiry, now);
        let idx = self.find(key.as_slice());
        match idx {
            Some(i) => {
                proof {
                    lemma_map_of_update(self.entries@, i as int, key, v);
                }
                self.entries.set(i, (key, v));
            }
            None => {
                proof {
                    lemma_map_of_push(self.entries@, key, v);
                    assert forall|a: int, b: int|
                        0 <= a < b < self.entries@.push((key, v)).len() implies (
                    #[trigger] self.entries@.push((key, v))[a].0@) != (#[trigger] self.entries@.push(
                        (key, v),
                    )[b].0@) by {
                        if b < self.entries@.len() {
                            assert(self.entries@.push((key, v))[a] == self.entries@[a]);
                            assert(self.entries@.push((key, v))[b] == self.entries@[b]);
                        } else {
                            assert(self.entries@.push((key, v))[a] == self.entries@[a]);
                            assert(self.entries@.push((key, v))[b] == (key, v));
                        }
                    }
                }
                self.entries.push((key, v));
            }
        }
    }

    /// Read a key. A read that observes an expired entry removes it and
    /// reports the key absent.
    pub fn get(&mut self, key: &[u8], now: u64) -> (r: Option<Vec<u8>>)
        requires
            old(self).wf(),
        ensures
            final(self).wf(),
            final(self)@ == access_map(old(self)@, key@, now),
            (match r {
                Some(v) => get_result(old(self)@, key@, now) == Some(v@),
                None => get_result(old(self)@, key@, now) is None,
            }),
    {
        let idx = self.find(key);
        match idx {
            None => {
                proof {
                    lemma_map_of_contains(self.entries@, key@);
                }
                None
            }
            Some(i) => {
                proof {
                    lemma_map_of_at(self.entries@, i as int);
                }
                if self.entries[i].1.is_expired(now) {
                    proof {
                        lemma_map_of_remove(self.entries@, i as int);
                    }
                    self.entries.remove(i);
                    None
                } else {
                    Some(copy_bytes(self.entries[i].1.data.as_slice()))
                }
            }
        }
    }

    /// Whether a key is present and live; expiry is checked — and an
    /// expired entry reaped — exactly as in `get`.
    pub fn exists_key(&mut self, key: &[u8], now: u64) -> (r: bool)
        requires
            old(self).wf(),
        ensures
            final(self).wf(),
            final(self)@ == access_map(old(self)@, key@, now),
            r == exists_result(old(self)@, key@, now),
    {
        let idx = self.find(key);
        match idx {
            None => {
                proof {
                    lemma_map_of_contains(self.entries@, key@);
                }
                false
            }
            Some(i) => {
                proof {
                    lemma_map_of_at(self.entries@, i as int);
                }
                if self.entries[i].1.is_expired(now) {
                    proof {
                        lemma_map_of_remove(self.entries@, i as int);
                    }
                    self.entries.remove(i);
                    false
                } else {
                    true
                }
            }
        }
    }
}


impl Store {
    /// Delete each named key that is present and live, and count how many
    /// were. An expired-but-present entry neither counts nor is removed
    /// here; a later read reaps it.
    #[verifier::loop_isolation(false)]
    pub fn del(&mut self, keys: &[Vec<u8>], now: u64) -> (r: i64)
        requires
            old(self).wf(),
            keys@.len() <= i64::MAX,
        ensures
            final(self).wf(),
            final(self)@ == del_map(old(self)@, keys_view(keys@), now),
            r == del_count(old(self)@, keys_view(keys@), now),
    {
        let ghost kv = keys_view(keys@);
        proof {
            assert(kv.skip(0) =~= kv);
        }
        let mut count: i64 = 0;
        let mut idx: usize = 0;
        while idx < keys.len()
            invariant
                self.wf(),
                0 <= idx <= keys@.len(),
                0 <= count <= idx,
                del_map(old(self)@, kv, now) == del_map(self@, kv.skip(idx as int), now),
                del_count(old(self)@, kv, now) == count + del_count(
                    self@,
                    kv.skip(idx as int),
                    now,
                ),
            decreases keys@.len() - idx,
        {
            let key = slice_index_get(keys, idx);
            proof {
                assert(kv.skip(idx as int)[0] == kv[idx as int]);
                assert(kv[idx as int] == keys@[idx as int]@);
                assert(kv.skip(idx as int).drop_first() =~= kv.skip(idx as int + 1));
            }
            let ghost pre = self@;
            let idxf = self.find(key.as_slice());
            match idxf {
                Some(i) => {
                    proof {
                        lemma_map_of_at(self.entries@, i as int);
                    }
                    if !self.entries[i].1.is_expired(now) {
                        proof {
                            lemma_map_of_remove(self.entries@, i as int);
                        }
                        self.entries.remove(i);
                        count = count + 1;
                        proof {
                            assert(exists_result(pre, kv[idx as int], now));
                            assert(self@ == del_one_map(pre, kv[idx as int], now));
                        }
                    } else {
                        proof {
                            assert(!exists_result(pre, kv[idx as int], now));
                            assert(self@ == del_one_map(pre, kv[idx as int], now));
                        }
                    }
                }
                None => {
                    proof {
                        lemma_map_of_contains(self.entries@, keys@[idx as int]@);
                        assert(!pre.contains_key(kv[idx as int]));
                        assert(self@ == del_one_map(pre, kv[idx as int], now));
                    }
                }
            }
            idx = idx + 1;
        }
        proof {
            assert(kv.skip(keys@.len() as int) =~= Seq::<Seq<u8>>::empty());
        }
        count
    }

    fn step_counter(&mut self, key: &[u8], up: bool, now: u64) -> (r: Result<i64, StoreError>)
        requires
            old(self).wf(),
        ensures
            final(self).wf(),
            r == counter_result(old(self)@, key@, now, up),
            final(self)@ == counter_map(old(self)@, key@, now, up),
    {
        let idx = self.find(key);
        match idx {
            None => {
                proof {
                    lemma_map_of_contains(self.entries@, key@);
                }
                let start: i64 = if up {
                    1
                } else {
                    -1
                };
                let data = format_i64(start);
                let v = Value::new(data, None, now);
                let k = copy_bytes(key);
                proof {
                    lemma_map_of_push(self.entries@, k, v);
                    assert forall|a: int, b: int|
                        0 <= a < b < self.entries@.push((k, v)).len() implies (
                    #[trigger] self.entries@.push((k, v))[a].0@) != (#[trigger] self.entries@.push(
                        (k, v),
                    )[b].0@) by {
                        if b < self.entries@.len() {
                            assert(self.entries@.push((k, v))[a] == self.entries@[a]);
                            assert(self.entries@.push((k, v))[b] == self.entries@[b]);
                        } else {
                            assert(self.entries@.push((k, v))[a] == self.entries@[a]);
                            assert(self.entries@.push((k, v))[b] == (k, v));
                        }
                    }
                }
                self.entries.push((k, v));
                Result::Ok(start)
            }
            Some(i) => {
                proof {
                    lemma_map_of_at(self.entries@, i as int);
                }
                if self.entries[i].1.is_expired(now) {
                    let start: i64 = if up {
                        1
                    } else {
                        -1
                    };
                    let data = format_i64(start);
                    let v = Value::new(data, None, now);
                    let k = copy_bytes(key);
                    proof {
                        lemma_map_of_update(self.entries@, i as int, k, v);
                    }
                    self.entries.set(i, (k, v));
                    Result::Ok(start)
                } else {
                    match self.entries[i].1.parse_int() {
                        None => Result::Err(StoreError::NotAnInteger),
                        Some(n) => {
                            let next: i64 = if up {
                                if n == i64::MAX {
                                    i64::MIN
                                } else {
                                    n + 1
                                }
                            } else {
                                if n == i64::MIN {
                                    i64::MAX
                                } else {
                                    n - 1
                                }
                            };
                            let rem = self.entries[i].1.remaining_duration(now);
                            let data = format_i64(next);
                            let v = Value::new(data, rem, now);
                            let k = copy_bytes(key);
                            proof {
                                lemma_map_of_update(self.entries@, i as int, k, v);
                            }
                            self.entries.set(i, (k, v));
                            Result::Ok(next)
                        }
                    }
                }
            }
        }
    }

    /// Step the counter at `key` up by one, creating it at one if the key
    /// is absent or expired. A live entry keeps its remaining time,
    /// re-anchored at `now`.
    pub fn incr(&mut self, key: &[u8], now: u64) -> (r: Result<i64, StoreError>)
        requires
            old(self).wf(),
        ensures
            final(self).wf(),
            r == counter_result(old(self)@, key@, now, true),
            final(self)@ == counter_map(old(self)@, key@, now, true),
    {
        self.step_counter(key, true, now)
    }

    /// Step the counter at `key` down by one, creating it at minus one if
    /// the key is absent or expired.
    pub fn decr(&mut self, key: &[u8], now: u64) -> (r: Result<i64, StoreError>)
        requires
            old(self).wf(),
        ensures
            final(self).wf(),
            r == counter_result(old(self)@, key@, now, false),
            final(self)@ == counter_map(old(self)@, key@, now, false),
    {
        self.step_counter(key, false, now)
    }
}

} // verus!
