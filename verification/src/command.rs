//! The command model: the fixed operation set, its decoding from an
//! array-of-bulk-strings frame, and its execution against the store.
//!
//! The command name is matched case-insensitively. A frame of the wrong
//! shape for a known name yields no command at all (the driver drops it
//! silently); a well-shaped frame with an unrecognised name yields
//! `Unknown`, which executes to an error reply.

use vstd::prelude::*;
use vstd::slice::*;
use crate::resp::{RespType, RespVal, frame_view, frame_views, lemma_frame_views_index};
use crate::store::{
    Store, StoreError, EntryModel, bytes_eq, copy_bytes, get_result, access_map, exists_result,
    set_map, del_map, del_count, counter_result, counter_map, keys_view, not_integer_message,
};
use crate::decimal::{parse_u64, parse_u64_spec};

verus! {

/// One operation of the fixed command set, operands already decoded.
/// `Unknown` carries the unrecognised, upper-cased command name.
#[derive(Debug, PartialEq)]
pub enum Command {
    Ping,
    Echo(Vec<u8>),
    SetKey { key: Vec<u8>, value: Vec<u8>, expiry: Option<u64> },
    Get(Vec<u8>),
    Exists(Vec<u8>),
    Del(Vec<Vec<u8>>),
    Incr(Vec<u8>),
    Decr(Vec<u8>),
    Unknown(Vec<u8>),
}

/// The mathematical model of a command, over sequences.
pub enum CommandVal {
    Ping,
    Echo(Seq<u8>),
    SetKey { key: Seq<u8>, value: Seq<u8>, expiry: Option<u64> },
    Get(Seq<u8>),
    Exists(Seq<u8>),
    Del(Seq<Seq<u8>>),
    Incr(Seq<u8>),
    Decr(Seq<u8>),
    Unknown(Seq<u8>),
}

pub open spec fn command_view(c: Command) -> CommandVal {
    match c {
        Command::Ping => CommandVal::Ping,
        Command::Echo(s) => CommandVal::Echo(s@),
        Command::SetKey { key, value, expiry } => CommandVal::SetKey {
            key: key@,
            value: value@,
            expiry,
        },
        Command::Get(k) => CommandVal::Get(k@),
        Command::Exists(k) => CommandVal::Exists(k@),
        Command::Del(keys) => CommandVal::Del(keys_view(keys@)),
        Command::Incr(k) => CommandVal::Incr(k@),
        Command::Decr(k) => CommandVal::Decr(k@),
        Command::Unknown(s) => CommandVal::Unknown(s@),
    }
}

impl View for Command {
    type V = CommandVal;

    open spec fn view(&self) -> CommandVal {
        command_view(*self)
    }
}

/// ASCII upper-casing, the case fold used for command and option names.
pub open spec fn upper_byte(b: u8) -> u8 {
    if 97 <= b <= 122 {
        (b - 32) as u8
    } else {
        b
    }
}

pub open spec fn upper_bytes(s: Seq<u8>) -> Seq<u8> {
    s.map_values(|b: u8| upper_byte(b))
}

fn upper_vec(s: &[u8]) -> (r: Vec<u8>)
    ensures
        r@ == upper_bytes(s@),
{
    let n = s.len();
    let mut out: Vec<u8> = Vec::new();
    let mut i: usize = 0;
    while i < n
        invariant
            0 <= i <= n,
            n == s@.len(),
            out@.len() == i,
            forall|j: int| 0 <= j < i ==> out@[j] == upper_byte(s@[j]),
        decreases n - i,
    {
        let c = *slice_index_get(s, i);
        if 97 <= c && c <= 122 {
            out.push(c - 32);
        } else {
            out.push(c);
        }
        i = i + 1;
    }
    proof {
        assert(out@ =~= upper_bytes(s@));
    }
    out
}

pub open spec fn lit_ping() -> Seq<u8> {
    seq![80u8, 73u8, 78u8, 71u8]
}

fn lit_ping_vec() -> (r: Vec<u8>)
    ensures
        r@ == lit_ping(),
{
    let mut out: Vec<u8> = Vec::new();
    out.push(80);
    out.push(73);
    out.push(78);
    out.push(71);
    proof {
        assert(out@ =~= lit_ping());
    }
    out
}

pub open spec fn lit_echo() -> Seq<u8> {
    seq![69u8, 67u8, 72u8, 79u8]
}

fn lit_echo_vec() -> (r: Vec<u8>)
    ensures
        r@ == lit_echo(),
{
    let mut out: Vec<u8> = Vec::new();
    out.push(69);
    out.push(67);
    out.push(72);
    out.push(79);
    proof {
        assert(out@ =~= lit_echo());
    }
    out
}

pub open spec fn lit_set() -> Seq<u8> {
    seq![83u8, 69u8, 84u8]
}

fn lit_set_vec() -> (r: Vec<u8>)
    ensures
        r@ == lit_set(),
{
    let mut out: Vec<u8> = Vec::new();
    out.push(83);
    out.push(69);
    out.push(84);
    proof {
        assert(out@ =~= lit_set());
    }
    out
}

pub open spec fn lit_get() -> Seq<u8> {
    seq![71u8, 69u8, 84u8]
}

fn lit_get_vec() -> (r: Vec<u8>)
    ensures
        r@ == lit_get(),
{
    let mut out: Vec<u8> = Vec::new();
    out.push(71);
    out.push(69);
    out.push(84);
    proof {
        assert(out@ =~= lit_get());
    }
    out
}

pub open spec fn lit_exists() -> Seq<u8> {
    seq![69u8, 88u8, 73u8, 83u8, 84u8, 83u8]
}

fn lit_exists_vec() -> (r: Vec<u8>)
    ensures
        r@ == lit_exists(),
{
    let mut out: Vec<u8> = Vec::new();
    out.push(69);
    out.push(88);
    out.push(73);
    out.push(83);
    out.push(84);
    out.push(83);
    proof {
        assert(out@ =~= lit_exists());
    }
    out
}

pub open spec fn lit_del() -> Seq<u8> {
    seq![68u8, 69u8, 76u8]
}

fn lit_del_vec() -> (r: Vec<u8>)
    ensures
        r@ == lit_del(),
{
    let mut out: Vec<u8> = Vec::new();
    out.push(68);
    out.push(69);
    out.push(76);
    proof {
        assert(out@ =~= lit_del());
    }
    out
}

pub open spec fn lit_incr() -> Seq<u8> {
    seq![73u8, 78u8, 67u8, 82u8]
}

fn lit_incr_vec() -> (r: Vec<u8>)
    ensures
        r@ == lit_incr(),
{
    let mut out: Vec<u8> = Vec::new();
    out.push(73);
    out.push(78);
    out.push(67);
    out.push(82);
    proof {
        assert(out@ =~= lit_incr());
    }
    out
}

pub open spec fn lit_decr() -> Seq<u8> {
    seq![68u8, 69u8, 67u8, 82u8]
}

fn lit_decr_vec() -> (r: Vec<u8>)
    ensures
        r@ == lit_decr(),
{
    let mut out: Vec<u8> = Vec::new();
    out.push(68);
    out.push(69);
    out.push(67);
    out.push(82);
    proof {
        assert(out@ =~= lit_decr());
    }
    out
}

pub open spec fn lit_ex() -> Seq<u8> {
    seq![69u8, 88u8]
}

fn lit_ex_vec() -> (r: Vec<u8>)
    ensures
        r@ == lit_ex(),
{
    let mut out: Vec<u8> = Vec::new();
    out.push(69);
    out.push(88);
    proof {
        assert(out@ =~= lit_ex());
    }
    out
}

pub open spec fn lit_px() -> Seq<u8> {
    seq![80u8, 88u8]
}

fn lit_px_vec() -> (r: Vec<u8>)
    ensures
        r@ == lit_px(),
{
    let mut out: Vec<u8> = Vec::new();
    out.push(80);
    out.push(88);
    proof {
        assert(out@ =~= lit_px());
    }
    out
}

pub open spec fn lit_pong() -> Seq<u8> {
    seq![80u8, 79u8, 78u8, 71u8]
}

fn lit_pong_vec() -> (r: Vec<u8>)
    ensures
        r@ == lit_pong(),
{
    let mut out: Vec<u8> = Vec::new();
    out.push(80);
    out.push(79);
    out.push(78);
    out.push(71);
    proof {
        assert(out@ =~= lit_pong());
    }
    out
}

pub open spec fn lit_ok() -> Seq<u8> {
    seq![79u8, 75u8]
}

fn lit_ok_vec() -> (r: Vec<u8>)
    ensures
        r@ == lit_ok(),
{
    let mut out: Vec<u8> = Vec::new();
    out.push(79);
    out.push(75);
    proof {
        assert(out@ =~= lit_ok());
    }
    out
}

pub open spec fn lit_err_unknown() -> Seq<u8> {
    seq![69u8, 82u8, 82u8, 32u8, 117u8, 110u8, 107u8, 110u8, 111u8, 119u8, 110u8, 32u8, 99u8, 111u8, 109u8, 109u8, 97u8, 110u8, 100u8, 32u8, 39u8]
}

fn lit_err_unknown_vec() -> (r: Vec<u8>)
    ensures
        r@ == lit_err_unknown(),
{
    let mut out: Vec<u8> = Vec::new();
    out.push(69);
    out.push(82);
    out.push(82);
    out.push(32);
    out.push(117);
    out.push(110);
    out.push(107);
    out.push(110);
    out.push(111);
    out.push(119);
    out.push(110);
    out.push(32);
    out.push(99);
    out.push(111);
    out.push(109);
    out.push(109);
    out.push(97);
    out.push(110);
    out.push(100);
    out.push(32);
    out.push(39);
    proof {
        assert(out@ =~= lit_err_unknown());
    }
    out
}

/// The payload of a present bulk string, if the value is one.
pub open spec fn bulk_text(v: RespVal) -> Option<Seq<u8>> {
    match v {
        RespVal::BulkString(Some(s)) => Some(s),
        _ => None,
    }
}

/// All values as present bulk strings, or nothing if any is not one.
pub open spec fn bulk_list(a: Seq<RespVal>) -> Option<Seq<Seq<u8>>>
    decreases a.len(),
{
    if a.len() == 0 {
        Some(Seq::empty())
    } else {
        match bulk_text(a[0]) {
            None => None,
            Some(s) => match bulk_list(a.drop_first()) {
                None => None,
                Some(rest) => Some(seq![s] + rest),
            },
        }
    }
}

/// Seconds saturated into milliseconds.
pub open spec fn secs_to_millis(secs: u64) -> u64 {
    if secs * 1000 > u64::MAX {
        u64::MAX
    } else {
        (secs * 1000) as u64
    }
}

/// The expiry a SET frame carries, if any. An unrecognised option token,
/// a non-bulk operand or an unparsable count is silently ignored — no
/// expiry — rather than an error.
pub open spec fn set_expiry(a: Seq<RespVal>) -> Option<u64> {
    if a.len() < 5 {
        None
    } else {
        match (bulk_text(a[3]), bulk_text(a[4])) {
            (Some(opt), Some(val)) => {
                let u = upper_bytes(opt);
                if u == lit_ex() {
                    match parse_u64_spec(val) {
                        Some(secs) => Some(secs_to_millis(secs)),
                        None => None,
                    }
                } else if u == lit_px() {
                    match parse_u64_spec(val) {
                        Some(ms) => Some(ms),
                        None => None,
                    }
                } else {
                    None
                }
            },
            _ => None,
        }
    }
}

/// The command a decoded frame denotes, if it is well shaped: an array of
/// bulk strings whose first element names the operation, with exactly the
/// arity the operation set fixes — one element for PING, two for ECHO,
/// GET, EXISTS, INCR and DECR, three or five for SET, two or more for
/// DEL. A frame of the wrong arity denotes no command at all.
pub open spec fn parse_command(v: RespVal) -> Option<CommandVal> {
    match v {
        RespVal::Array(Some(a)) => {
            if a.len() == 0 {
                None
            } else {
                match bulk_text(a[0]) {
                    None => None,
                    Some(name0) => {
                        let name = upper_bytes(name0);
                        if name == lit_ping() {
                            if a.len() != 1 {
                                None
                            } else {
                                Some(CommandVal::Ping)
                            }
                        } else if name == lit_echo() {
                            if a.len() != 2 {
                                None
                            } else {
                                match bulk_text(a[1]) {
                                    Some(s) => Some(CommandVal::Echo(s)),
                                    None => None,
                                }
                            }
                        } else if name == lit_set() {
                            if a.len() != 3 && a.len() != 5 {
                                None
                            } else {
                                match (bulk_text(a[1]), bulk_text(a[2])) {
                                    (Some(k), Some(val)) => Some(
                                        CommandVal::SetKey {
                                            key: k,
                                            value: val,
                                            expiry: set_expiry(a),
                                        },
                                    ),
                                    _ => None,
                                }
                            }
                        } else if name == lit_get() {
                            if a.len() != 2 {
                                None
                            } else {
                                match bulk_text(a[1]) {
                                    Some(k) => Some(CommandVal::Get(k)),
                                    None => None,
                                }
                            }
                        } else if name == lit_exists() {
                            if a.len() != 2 {
                                None
                            } else {
                                match bulk_text(a[1]) {
                                    Some(k) => Some(CommandVal::Exists(k)),
                                    None => None,
                                }
                            }
                        } else if name == lit_del() {
                            if a.len() < 2 {
                                None
                            } else {
                                match bulk_list(a.drop_first()) {
                                    Some(ks) => Some(CommandVal::Del(ks)),
                                    None => None,
                                }
                            }
                        } else if name == lit_incr() {
                            if a.len() != 2 {
                                None
                            } else {
                                match bulk_text(a[1]) {
                                    Some(k) => Some(CommandVal::Incr(k)),
                                    None => None,
                                }
                            }
                        } else if name == lit_decr() {
                            if a.len() != 2 {
                                None
                            } else {
                                match bulk_text(a[1]) {
                                    Some(k) => Some(CommandVal::Decr(k)),
                                    None => None,
                                }
                            }
                        } else {
                            Some(CommandVal::Unknown(name))
                        }
                    },
                }
            }
        },
        _ => None,
    }
}


/// What a command replies, over the store's model at the time of the call.
pub open spec fn reply_of(c: CommandVal, m: Map<Seq<u8>, EntryModel>, now: u64) -> RespVal {
    match c {
        CommandVal::Ping => RespVal::SimpleString(lit_pong()),
        CommandVal::Echo(s) => RespVal::BulkString(Some(s)),
        CommandVal::SetKey { key, value, expiry } => RespVal::SimpleString(lit_ok()),
        CommandVal::Get(k) => RespVal::BulkString(get_result(m, k, now)),
        CommandVal::Exists(k) => RespVal::Integer(
            if exists_result(m, k, now) {
                1i64
            } else {
                0i64
            },
        ),
        CommandVal::Del(keys) => RespVal::Integer(del_count(m, keys, now) as i64),
        CommandVal::Incr(k) => match counter_result(m, k, now, true) {
            Result::Ok(n) => RespVal::Integer(n),
            Result::Err(_) => RespVal::Error(not_integer_message()),
        },
        CommandVal::Decr(k) => match counter_result(m, k, now, false) {
            Result::Ok(n) => RespVal::Integer(n),
            Result::Err(_) => RespVal::Error(not_integer_message()),
        },
        CommandVal::Unknown(name) => RespVal::Error(unknown_message(name)),
    }
}

/// The error text for an unrecognised command name.
pub open spec fn unknown_message(name: Seq<u8>) -> Seq<u8> {
    lit_err_unknown() + name + seq![39u8]
}

/// The store's model after a command runs against it.
pub open spec fn store_after(c: CommandVal, m: Map<Seq<u8>, EntryModel>, now: u64) -> Map<
    Seq<u8>,
    EntryModel,
> {
    match c {
        CommandVal::Ping => m,
        CommandVal::Echo(_) => m,
        CommandVal::SetKey { key, value, expiry } => set_map(m, key, value, expiry, now),
        CommandVal::Get(k) => access_map(m, k, now),
        CommandVal::Exists(k) => access_map(m, k, now),
        CommandVal::Del(keys) => del_map(m, keys, now),
        CommandVal::Incr(k) => counter_map(m, k, now, true),
        CommandVal::Decr(k) => counter_map(m, k, now, false),
        CommandVal::Unknown(_) => m,
    }
}

impl Command {
    /// Decode a frame into a command, or nothing if the frame is not well
    /// shaped for any known operation.
    #[verifier::loop_isolation(false)]
    #[verifier::rlimit(80)]
    pub fn from_resp(resp: RespType) -> (r: Option<Command>)
        ensures
            (match r {
                Some(c) => parse_command(frame_view(resp)) == Some(command_view(c)),
                None => parse_command(frame_view(resp)) is None,
            }),
    {
        match resp {
            RespType::Array(Some(array)) => {
                proof {
                    lemma_frame_views_index(array@);
                }
                let ghost a = frame_views(array@);
                if array.len() == 0 {
                    return None;
                }
                match &array[0] {
                    RespType::BulkString(Some(s0)) => {
                        proof {
                            assert(a[0] == frame_view(array@[0]));
                            assert(bulk_text(a[0]) == Some(s0@));
                        }
                        let name = upper_vec(s0.as_slice());
                        if bytes_eq(name.as_slice(), lit_ping_vec().as_slice()) {
                            if array.len() != 1 {
                                return None;
                            }
                            Some(Command::Ping)
                        } else if bytes_eq(name.as_slice(), lit_echo_vec().as_slice()) {
                            if array.len() != 2 {
                                return None;
                            }
                            match &array[1] {
                                RespType::BulkString(Some(s)) => Some(
                                    Command::Echo(copy_bytes(s.as_slice())),
                                ),
                                _ => None,
                            }
                        } else if bytes_eq(name.as_slice(), lit_set_vec().as_slice()) {
                            if array.len() != 3 && array.len() != 5 {
                                return None;
                            }
                            let key: Vec<u8>;
                            match &array[1] {
                                RespType::BulkString(Some(s)) => {
                                    key = copy_bytes(s.as_slice());
                                }
                                _ => {
                                    return None;
                                }
                            }
                            let value: Vec<u8>;
                            match &array[2] {
                                RespType::BulkString(Some(s)) => {
                                    value = copy_bytes(s.as_slice());
                                }
                                _ => {
                                    return None;
                                }
                            }
                            let mut expiry: Option<u64> = None;
                            if array.len() == 5 {
                                match (&array[3], &array[4]) {
                                    (
                                        RespType::BulkString(Some(opt)),
                                        RespType::BulkString(Some(count)),
                                    ) => {
                                        let u = upper_vec(opt.as_slice());
                                        if bytes_eq(u.as_slice(), lit_ex_vec().as_slice()) {
                                            match parse_u64(count.as_slice()) {
                                                Some(secs) => {
                                                    let ms = match secs.checked_mul(1000) {
                                                        Some(ms) => ms,
                                                        None => u64::MAX,
                                                    };
                                                    expiry = Some(ms);
                                                }
                                                None => {}
                                            }
                                        } else if bytes_eq(u.as_slice(), lit_px_vec().as_slice()) {
                                            match parse_u64(count.as_slice()) {
                                                Some(ms) => {
                                                    expiry = Some(ms);
                                                }
                                                None => {}
                                            }
                                        }
                                    }
                                    _ => {}
                                }
                            }
                            proof {
                                assert(expiry == set_expiry(a));
                            }
                            Some(Command::SetKey { key, value, expiry })
                        } else if bytes_eq(name.as_slice(), lit_get_vec().as_slice()) {
                            if array.len() != 2 {
                                return None;
                            }
                            match &array[1] {
                                RespType::BulkString(Some(s)) => Some(
                                    Command::Get(copy_bytes(s.as_slice())),
                                ),
                                _ => None,
                            }
                        } else if bytes_eq(name.as_slice(), lit_exists_vec().as_slice()) {
                            if array.len() != 2 {
                                return None;
                            }
                            match &array[1] {
                                RespType::BulkString(Some(s)) => Some(
                                    Command::Exists(copy_bytes(s.as_slice())),
                                ),
                                _ => None,
                            }
                        } else if bytes_eq(name.as_slice(), lit_del_vec().as_slice()) {
                            if array.len() < 2 {
                                return None;
                            }
                            let mut keys: Vec<Vec<u8>> = Vec::new();
                            proof {
                                assert(keys_view(keys@) =~= Seq::<Seq<u8>>::empty());
                                match bulk_list(a.skip(1)) {
                                    Some(rest) => {
                                        assert(keys_view(keys@) + rest =~= rest);
                                    }
                                    None => {}
                                }
                            }
                            let mut i: usize = 1;
                            while i < array.len()
                                invariant
                                    1 <= i <= array@.len(),
                                    bulk_list(a.skip(1)) == (match bulk_list(a.skip(i as int)) {
                                        None => None::<Seq<Seq<u8>>>,
                                        Some(rest) => Some(keys_view(keys@) + rest),
                                    }),
                                decreases array@.len() - i,
                            {
                                proof {
                                    assert(a.skip(i as int)[0] == a[i as int]);
                                    assert(a[i as int] == frame_view(array@[i as int]));
                                    assert(a.skip(i as int).drop_first() =~= a.skip(i as int + 1));
                                }
                                match &array[i] {
                                    RespType::BulkString(Some(s)) => {
                                        let k = copy_bytes(s.as_slice());
                                        proof {
                                            assert(bulk_text(a[i as int]) == Some(k@));
                                            match bulk_list(a.skip(i as int + 1)) {
                                                Some(rest) => {
                                                    assert(keys_view(keys@.push(k)) =~= keys_view(
                                                        keys@,
                                                    ).push(k@));
                                                    assert(keys_view(keys@) + (seq![k@] + rest)
                                                        =~= keys_view(keys@.push(k)) + rest);
                                                }
                                                None => {}
                                            }
                                        }
                                        keys.push(k);
                                    }
                                    _ => {
                                        proof {
                                            assert(bulk_text(a[i as int]) is None);
                                        }
                                        return None;
                                    }
                                }
                                i = i + 1;
                            }
                            proof {
                                assert(a.skip(array@.len() as int) =~= Seq::<RespVal>::empty());
                                match bulk_list(a.skip(1)) {
                                    Some(rest) => {
                                        assert(keys_view(keys@) + Seq::<Seq<u8>>::empty()
                                            =~= keys_view(keys@));
                                    }
                                    None => {}
                                }
                                assert(a.drop_first() =~= a.skip(1));
                            }
                            Some(Command::Del(keys))
                        } else if bytes_eq(name.as_slice(), lit_incr_vec().as_slice()) {
                            if array.len() != 2 {
                                return None;
                            }
                            match &array[1] {
                                RespType::BulkString(Some(s)) => Some(
                                    Command::Incr(copy_bytes(s.as_slice())),
                                ),
                                _ => None,
                            }
                        } else if bytes_eq(name.as_slice(), lit_decr_vec().as_slice()) {
                            if array.len() != 2 {
                                return None;
                            }
                            match &array[1] {
                                RespType::BulkString(Some(s)) => Some(
                                    Command::Decr(copy_bytes(s.as_slice())),
                                ),
                                _ => None,
                            }
                        } else {
                            Some(Command::Unknown(name))
                        }
                    }
                    _ => {
                        proof {
                            assert(a[0] == frame_view(array@[0]));
                        }
                        None
                    }
                }
            }
            _ => None,
        }
    }

    /// Run this command against the store at time `now`, returning the
    /// reply frame. The reply and the store's new contents are exactly
    /// `reply_of` and `store_after` of the command and the old contents.
    pub fn execute(&self, store: &mut Store, now: u64) -> (r: RespType)
        requires
            old(store).wf(),
            (command_view(*self) matches CommandVal::Del(ks) ==> ks.len() <= i64::MAX),
        ensures
            final(store).wf(),
            frame_view(r) == reply_of(command_view(*self), old(store)@, now),
            final(store)@ == store_after(command_view(*self), old(store)@, now),
    {
        match self {
            Command::Ping => RespType::SimpleString(lit_pong_vec()),
            Command::Echo(msg) => RespType::BulkString(Some(copy_bytes(msg.as_slice()))),
            Command::SetKey { key, value, expiry } => {
                store.set(copy_bytes(key.as_slice()), copy_bytes(value.as_slice()), *expiry, now);
                RespType::SimpleString(lit_ok_vec())
            }
            Command::Get(key) => {
                match store.get(key.as_slice(), now) {
                    Some(v) => RespType::BulkString(Some(v)),
                    None => RespType::BulkString(None),
                }
            }
            Command::Exists(key) => {
                if store.exists_key(key.as_slice(), now) {
                    RespType::Integer(1)
                } else {
                    RespType::Integer(0)
                }
            }
            Command::Del(keys) => {
                let n = store.del(keys.as_slice(), now);
                RespType::Integer(n)
            }
            Command::Incr(key) => {
                match store.incr(key.as_slice(), now) {
                    Result::Ok(n) => RespType::Integer(n),
                    Result::Err(e) => RespType::Error(e.message()),
                }
            }
            Command::Decr(key) => {
                match store.decr(key.as_slice(), now) {
                    Result::Ok(n) => RespType::Integer(n),
                    Result::Err(e) => RespType::Error(e.message()),
                }
            }
            Command::Unknown(name) => {
                let mut msg = lit_err_unknown_vec();
                msg.extend_from_slice(name.as_slice());
                msg.push(39);
                proof {
                    assert(msg@ =~= unknown_message(name@));
                }
                RespType::Error(msg)
            }
        }
    }
}

} // verus!
