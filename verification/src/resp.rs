//! The wire codec: typed frames, their byte encoding, and an incremental
//! decoder.
//!
//! A frame is one self-delimiting encoded value. Encoding is a total
//! function (`frame_bytes`); decoding consumes exactly one frame from the
//! front of a buffer and reports `Incomplete` — not an error — when the
//! buffer does not yet hold a whole frame, without consuming anything.
//! Text content — status and error lines, bulk payloads, and plain-text
//! lines — must be valid UTF-8; content that is not is a surfaced decode
//! error, never treated as incomplete. The executable `parse` and
//! `serialize` are verified against the spec functions `decode_spec` and
//! `frame_bytes`.

use vstd::prelude::*;
use vstd::slice::*;
use crate::decimal::{
    decimal_i64, decimal_nat, parse_i64_spec, parse_i64, format_i64, format_u64,
    lemma_parse_decimal_i64, lemma_decimal_i64_bytes,
};

verus! {

/// One protocol value. Bulk strings and arrays distinguish a null value
/// from an empty one. Payloads are byte strings.
#[derive(Debug, PartialEq)]
pub enum RespType {
    SimpleString(Vec<u8>),
    Error(Vec<u8>),
    Integer(i64),
    BulkString(Option<Vec<u8>>),
    Array(Option<Vec<RespType>>),
}

/// A decode failure: framing or content that can never become a valid
/// frame, however many bytes arrive. `InvalidData` is a bad length,
/// integer or token structure; `InvalidUtf8` is text content that is not
/// valid UTF-8.
#[derive(Debug, Clone, PartialEq, Eq)]
pub enum RespError {
    InvalidData,
    InvalidUtf8,
}

/// The mathematical model of a protocol value: the same shape over `Seq`.
pub enum RespVal {
    SimpleString(Seq<u8>),
    Error(Seq<u8>),
    Integer(i64),
    BulkString(Option<Seq<u8>>),
    Array(Option<Seq<RespVal>>),
}

/// The outcome of a decode attempt: more bytes needed; framing or content
/// broken, with the error; or one value together with how many bytes it
/// occupied.
pub enum Parsed<T> {
    Incomplete,
    Malformed(RespError),
    Done(T, int),
}

pub open spec fn frame_views(s: Seq<RespType>) -> Seq<RespVal>
    decreases s,
{
    if s.len() == 0 {
        Seq::empty()
    } else {
        seq![frame_view(s[0])] + frame_views(s.drop_first())
    }
}

pub open spec fn frame_view(v: RespType) -> RespVal
    decreases v,
{
    match v {
        RespType::SimpleString(s) => RespVal::SimpleString(s@),
        RespType::Error(s) => RespVal::Error(s@),
        RespType::Integer(n) => RespVal::Integer(n),
        RespType::BulkString(Some(p)) => RespVal::BulkString(Some(p@)),
        RespType::BulkString(None) => RespVal::BulkString(None),
        RespType::Array(Some(a)) => RespVal::Array(Some(frame_views(a@))),
        RespType::Array(None) => RespVal::Array(None),
    }
}

impl View for RespType {
    type V = RespVal;

    open spec fn view(&self) -> RespVal {
        frame_view(*self)
    }
}

pub proof fn lemma_frame_views_push(s: Seq<RespType>, x: RespType)
    ensures
        frame_views(s.push(x)) == frame_views(s).push(frame_view(x)),
    decreases s.len(),
{
    if s.len() == 0 {
        assert(s.push(x).drop_first() =~= Seq::<RespType>::empty());
        assert(frame_views(Seq::<RespType>::empty()) == Seq::<RespVal>::empty());
        assert(s =~= Seq::<RespType>::empty());
        assert(s.push(x)[0] == x);
        assert(frame_views(s.push(x)) =~= frame_views(s).push(frame_view(x)));
    } else {
        assert(s.push(x).drop_first() =~= s.drop_first().push(x));
        lemma_frame_views_push(s.drop_first(), x);
        assert(frame_views(s.push(x)) =~= frame_views(s).push(frame_view(x)));
    }
}

pub proof fn lemma_frame_views_index(s: Seq<RespType>)
    ensures
        frame_views(s).len() == s.len(),
        forall|i: int| 0 <= i < s.len() ==> #[trigger] frame_views(s)[i] == frame_view(s[i]),
    decreases s.len(),
{
    if s.len() > 0 {
        lemma_frame_views_index(s.drop_first());
    }
}

/// A CR immediately followed by an LF at position `i`.
pub open spec fn crlf_at(b: Seq<u8>, i: int) -> bool {
    0 <= i && i + 1 < b.len() && b[i] == 13 && b[i + 1] == 10
}

/// No line-break sequence anywhere: the invariant of status and error text.
pub open spec fn no_crlf(s: Seq<u8>) -> bool {
    forall|i: int| !crlf_at(s, i)
}

/// The position of the first line-break sequence, if there is one.
pub open spec fn first_crlf(b: Seq<u8>) -> Option<int>
    decreases b.len(),
{
    if b.len() < 2 {
        None
    } else if b[0] == 13 && b[1] == 10 {
        Some(0)
    } else {
        match first_crlf(b.drop_first()) {
            Some(i) => Some(i + 1),
            None => None,
        }
    }
}

pub proof fn lemma_first_crlf(b: Seq<u8>)
    ensures
        match first_crlf(b) {
            Some(e) => crlf_at(b, e) && (forall|j: int| 0 <= j < e ==> !crlf_at(b, j)),
            None => forall|j: int| !crlf_at(b, j),
        },
    decreases b.len(),
{
    if b.len() < 2 {
    } else if b[0] == 13 && b[1] == 10 {
    } else {
        lemma_first_crlf(b.drop_first());
        assert forall|j: int| 1 <= j && crlf_at(b, j) implies crlf_at(b.drop_first(), j - 1) by {
            assert(b.drop_first()[j - 1] == b[j]);
            assert(b.drop_first()[j] == b[j + 1]);
        }
        assert forall|j: int| crlf_at(b.drop_first(), j) implies crlf_at(b, j + 1) by {
            assert(b.drop_first()[j] == b[j + 1]);
            assert(b.drop_first()[j + 1] == b[j + 2]);
        }
        match first_crlf(b.drop_first()) {
            Some(i) => {
                assert(crlf_at(b, i + 1));
            }
            None => {
                assert forall|j: int| !crlf_at(b, j) by {
                    if 1 <= j && crlf_at(b, j) {
                        assert(crlf_at(b.drop_first(), j - 1));
                    }
                }
            }
        }
    }
}

pub proof fn lemma_first_crlf_is(b: Seq<u8>, e: int)
    requires
        crlf_at(b, e),
        forall|j: int| 0 <= j < e ==> !crlf_at(b, j),
    ensures
        first_crlf(b) == Some(e),
{
    lemma_first_crlf(b);
    match first_crlf(b) {
        Some(e2) => {
            if e2 < e {
                assert(!crlf_at(b, e2));
            } else if e < e2 {
                assert(!crlf_at(b, e));
            }
        }
        None => {
            assert(!crlf_at(b, e));
        }
    }
}

pub proof fn lemma_first_crlf_extend(b: Seq<u8>, ext: Seq<u8>)
    requires
        first_crlf(b) is Some,
    ensures
        first_crlf(b + ext) == first_crlf(b),
{
    lemma_first_crlf(b);
    let e = first_crlf(b)->Some_0;
    assert(crlf_at(b + ext, e));
    assert forall|j: int| 0 <= j < e implies !crlf_at(b + ext, j) by {
        if crlf_at(b + ext, j) {
            assert((b + ext)[j] == b[j]);
            assert((b + ext)[j + 1] == b[j + 1]);
            assert(crlf_at(b, j));
        }
    }
    lemma_first_crlf_is(b + ext, e);
}

/// Find the first line-break sequence in a byte slice.
pub fn find_crlf(input: &[u8]) -> (r: Option<usize>)
    ensures
        match r {
            Some(e) => first_crlf(input@) == Some(e as int),
            None => first_crlf(input@) is None,
        },
{
    let n = input.len();
    if n < 2 {
        proof {
            lemma_first_crlf(input@);
        }
        return None;
    }
    let mut i: usize = 0;
    while i + 1 < n
        invariant
            n == input@.len(),
            0 <= i <= n - 1,
            forall|j: int| 0 <= j < i ==> !crlf_at(input@, j),
        decreases n - i,
    {
        let a = *slice_index_get(input, i);
        let b = *slice_index_get(input, i + 1);
        if a == 13 && b == 10 {
            proof {
                lemma_first_crlf_is(input@, i as int);
            }
            return Some(i);
        }
        i = i + 1;
    }
    proof {
        lemma_first_crlf(input@);
        if first_crlf(input@) is Some {
            let e = first_crlf(input@)->Some_0;
            assert(!crlf_at(input@, e));
        }
    }
    None
}

/// A UTF-8 continuation byte.
pub open spec fn is_cont(b: u8) -> bool {
    0x80 <= b <= 0xBF
}

/// Valid UTF-8, byte by byte: one-byte ASCII, or a lead byte followed by
/// the continuation bytes its range admits — overlong forms, surrogates
/// and code points past the last plane excluded.
pub open spec fn is_utf8(s: Seq<u8>) -> bool
    decreases s.len(),
{
    if s.len() == 0 {
        true
    } else {
        let b0 = s[0];
        if b0 < 0x80 {
            is_utf8(s.skip(1))
        } else if 0xC2 <= b0 <= 0xDF {
            if s.len() < 2 || !is_cont(s[1]) {
                false
            } else {
                is_utf8(s.skip(2))
            }
        } else if b0 == 0xE0 {
            if s.len() < 3 || !(0xA0 <= s[1] <= 0xBF) || !is_cont(s[2]) {
                false
            } else {
                is_utf8(s.skip(3))
            }
        } else if b0 == 0xED {
            if s.len() < 3 || !(0x80 <= s[1] <= 0x9F) || !is_cont(s[2]) {
                false
            } else {
                is_utf8(s.skip(3))
            }
        } else if 0xE1 <= b0 <= 0xEF {
            if s.len() < 3 || !is_cont(s[1]) || !is_cont(s[2]) {
                false
            } else {
                is_utf8(s.skip(3))
            }
        } else if b0 == 0xF0 {
            if s.len() < 4 || !(0x90 <= s[1] <= 0xBF) || !is_cont(s[2]) || !is_cont(s[3]) {
                false
            } else {
                is_utf8(s.skip(4))
            }
        } else if 0xF1 <= b0 <= 0xF3 {
            if s.len() < 4 || !is_cont(s[1]) || !is_cont(s[2]) || !is_cont(s[3]) {
                false
            } else {
                is_utf8(s.skip(4))
            }
        } else if b0 == 0xF4 {
            if s.len() < 4 || !(0x80 <= s[1] <= 0x8F) || !is_cont(s[2]) || !is_cont(s[3]) {
                false
            } else {
                is_utf8(s.skip(4))
            }
        } else {
            false
        }
    }
}

/// Check a byte slice for UTF-8 validity.
pub fn is_utf8_bytes(s: &[u8]) -> (r: bool)
    ensures
        r == is_utf8(s@),
{
    let n = s.len();
    let mut i: usize = 0;
    proof {
        assert(s@.skip(0) =~= s@);
    }
    while i < n
        invariant
            0 <= i <= n,
            n == s@.len(),
            is_utf8(s@) == is_utf8(s@.skip(i as int)),
        decreases n - i,
    {
        let ghost t = s@.skip(i as int);
        let b0 = *slice_index_get(s, i);
        proof {
            assert(t[0] == s@[i as int]);
        }
        if b0 < 0x80 {
            proof {
                assert(t.skip(1) =~= s@.skip(i + 1));
            }
            i = i + 1;
        } else if 0xC2 <= b0 && b0 <= 0xDF {
            if n - i < 2 {
                return false;
            }
            let b1 = *slice_index_get(s, i + 1);
            proof {
                assert(t[1] == s@[i + 1]);
            }
            if !(0x80 <= b1 && b1 <= 0xBF) {
                return false;
            }
            proof {
                assert(t.skip(2) =~= s@.skip(i + 2));
            }
            i = i + 2;
        } else if b0 == 0xE0 || b0 == 0xED || (0xE1 <= b0 && b0 <= 0xEF) {
            if n - i < 3 {
                return false;
            }
            let b1 = *slice_index_get(s, i + 1);
            let b2 = *slice_index_get(s, i + 2);
            proof {
                assert(t[1] == s@[i + 1]);
                assert(t[2] == s@[i + 2]);
            }
            let lo: u8 = if b0 == 0xE0 {
                0xA0
            } else {
                0x80
            };
            let hi: u8 = if b0 == 0xED {
                0x9F
            } else {
                0xBF
            };
            if !(lo <= b1 && b1 <= hi) {
                return false;
            }
            if !(0x80 <= b2 && b2 <= 0xBF) {
                return false;
            }
            proof {
                assert(t.skip(3) =~= s@.skip(i + 3));
            }
            i = i + 3;
        } else if 0xF0 <= b0 && b0 <= 0xF4 {
            if n - i < 4 {
                return false;
            }
            let b1 = *slice_index_get(s, i + 1);
            let b2 = *slice_index_get(s, i + 2);
            let b3 = *slice_index_get(s, i + 3);
            proof {
                assert(t[1] == s@[i + 1]);
                assert(t[2] == s@[i + 2]);
                assert(t[3] == s@[i + 3]);
            }
            let lo: u8 = if b0 == 0xF0 {
                0x90
            } else {
                0x80
            };
            let hi: u8 = if b0 == 0xF4 {
                0x8F
            } else {
                0xBF
            };
            if !(lo <= b1 && b1 <= hi) {
                return false;
            }
            if !(0x80 <= b2 && b2 <= 0xBF) {
                return false;
            }
            if !(0x80 <= b3 && b3 <= 0xBF) {
                return false;
            }
            proof {
                assert(t.skip(4) =~= s@.skip(i + 4));
            }
            i = i + 4;
        } else {
            return false;
        }
    }
    proof {
        assert(s@.skip(n as int) =~= Seq::<u8>::empty());
    }
    true
}

/// An ASCII whitespace byte, as the plain-text fallback splits on.
pub open spec fn is_ws(b: u8) -> bool {
    b == 32 || (9 <= b <= 13)
}

/// The length of the leading run of non-whitespace bytes.
pub open spec fn token_len(s: Seq<u8>) -> int
    decreases s.len(),
{
    if s.len() == 0 || is_ws(s[0]) {
        0
    } else {
        1 + token_len(s.drop_first())
    }
}

/// The whitespace-separated tokens of a line.
pub open spec fn tokens_of(s: Seq<u8>) -> Seq<Seq<u8>>
    decreases s.len(),
{
    if s.len() == 0 {
        Seq::empty()
    } else if is_ws(s[0]) {
        tokens_of(s.drop_first())
    } else {
        let k = token_len(s);
        let kk = if 1 <= k <= s.len() {
            k
        } else {
            1
        };
        seq![s.take(kk)] + tokens_of(s.skip(kk))
    }
}

/// Tokens rendered as an array of present bulk strings.
pub open spec fn bulks_of(ts: Seq<Seq<u8>>) -> Seq<RespVal> {
    ts.map_values(|t: Seq<u8>| RespVal::BulkString(Some(t)))
}

pub proof fn lemma_token_len_is(s: Seq<u8>, k: int)
    requires
        0 <= k <= s.len(),
        forall|i: int| 0 <= i < k ==> !is_ws(s[i]),
        k < s.len() ==> is_ws(s[k]),
    ensures
        token_len(s) == k,
    decreases s.len(),
{
    if s.len() == 0 || is_ws(s[0]) {
    } else {
        assert(!is_ws(s[0]));
        assert(k >= 1);
        assert forall|i: int| 0 <= i < k - 1 implies !is_ws(s.drop_first()[i]) by {
            assert(s.drop_first()[i] == s[i + 1]);
        }
        if k - 1 < s.drop_first().len() {
            assert(s.drop_first()[k - 1] == s[k]);
        }
        lemma_token_len_is(s.drop_first(), k - 1);
    }
}

/// The canonical byte encoding of a protocol value.
pub open spec fn frame_bytes(v: RespVal) -> Seq<u8>
    decreases v,
{
    match v {
        RespVal::SimpleString(s) => seq![43u8] + s + seq![13u8, 10u8],
        RespVal::Error(s) => seq![45u8] + s + seq![13u8, 10u8],
        RespVal::Integer(n) => seq![58u8] + decimal_i64(n as int) + seq![13u8, 10u8],
        RespVal::BulkString(None) => seq![36u8, 45u8, 49u8, 13u8, 10u8],
        RespVal::BulkString(Some(s)) => seq![36u8] + decimal_i64(s.len() as int) + seq![
            13u8,
            10u8,
        ] + s + seq![13u8, 10u8],
        RespVal::Array(None) => seq![42u8, 45u8, 49u8, 13u8, 10u8],
        RespVal::Array(Some(a)) => seq![42u8] + decimal_i64(a.len() as int) + seq![13u8, 10u8]
            + elems_bytes(a),
    }
}

/// The concatenated encodings of a sequence of values.
pub open spec fn elems_bytes(s: Seq<RespVal>) -> Seq<u8>
    decreases s,
{
    if s.len() == 0 {
        Seq::empty()
    } else {
        frame_bytes(s[0]) + elems_bytes(s.drop_first())
    }
}

pub proof fn lemma_elems_bytes_push(s: Seq<RespVal>, x: RespVal)
    ensures
        elems_bytes(s.push(x)) == elems_bytes(s) + frame_bytes(x),
    decreases s.len(),
{
    if s.len() == 0 {
        assert(s.push(x).drop_first() =~= Seq::<RespVal>::empty());
        assert(elems_bytes(Seq::<RespVal>::empty()) == Seq::<u8>::empty());
        assert(s =~= Seq::<RespVal>::empty());
        assert(s.push(x)[0] == x);
        assert(elems_bytes(s.push(x)) =~= elems_bytes(s) + frame_bytes(x));
    } else {
        assert(s.push(x).drop_first() =~= s.drop_first().push(x));
        lemma_elems_bytes_push(s.drop_first(), x);
        assert(elems_bytes(s.push(x)) =~= elems_bytes(s) + frame_bytes(x));
    }
}

/// One decode attempt on the front of `b`, as a mathematical function.
/// Dispatch is on the first byte; a buffer without a complete first line is
/// always incomplete, never an error.
pub open spec fn decode_spec(b: Seq<u8>) -> Parsed<RespVal>
    decreases b.len(), 0int, 0int,
{
    if b.len() == 0 {
        Parsed::Incomplete
    } else {
        match first_crlf(b) {
            None => Parsed::Incomplete,
            Some(e) => {
                if e < 0 || b.len() < e + 2 {
                    Parsed::Incomplete
                } else if b[0] == 43 {
                    if !is_utf8(b.subrange(1, e)) {
                        Parsed::Malformed(RespError::InvalidUtf8)
                    } else {
                        Parsed::Done(RespVal::SimpleString(b.subrange(1, e)), e + 2)
                    }
                } else if b[0] == 45 {
                    if !is_utf8(b.subrange(1, e)) {
                        Parsed::Malformed(RespError::InvalidUtf8)
                    } else {
                        Parsed::Done(RespVal::Error(b.subrange(1, e)), e + 2)
                    }
                } else if b[0] == 58 {
                    match parse_i64_spec(b.subrange(1, e)) {
                        None => Parsed::Malformed(RespError::InvalidData),
                        Some(x) => Parsed::Done(RespVal::Integer(x), e + 2),
                    }
                } else if b[0] == 36 {
                    match parse_i64_spec(b.subrange(1, e)) {
                        None => Parsed::Malformed(RespError::InvalidData),
                        Some(x) => {
                            if x == -1 {
                                Parsed::Done(RespVal::BulkString(None), e + 2)
                            } else if x < -1 {
                                Parsed::Malformed(RespError::InvalidData)
                            } else if b.len() < e + 2 + x + 2 {
                                Parsed::Incomplete
                            } else if !is_utf8(b.subrange(e + 2, e + 2 + x)) {
                                Parsed::Malformed(RespError::InvalidUtf8)
                            } else {
                                Parsed::Done(
                                    RespVal::BulkString(Some(b.subrange(e + 2, e + 2 + x))),
                                    e + 2 + x + 2,
                                )
                            }
                        },
                    }
                } else if b[0] == 42 {
                    match parse_i64_spec(b.subrange(1, e)) {
                        None => Parsed::Malformed(RespError::InvalidData),
                        Some(x) => {
                            if x == -1 {
                                Parsed::Done(RespVal::Array(None), e + 2)
                            } else if x < -1 {
                                Parsed::Malformed(RespError::InvalidData)
                            } else {
                                match decode_elems(b.skip(e + 2), x as int) {
                                    Parsed::Incomplete => Parsed::Incomplete,
                                    Parsed::Malformed(err) => Parsed::Malformed(err),
                                    Parsed::Done(vs, c) => Parsed::Done(
                                        RespVal::Array(Some(vs)),
                                        e + 2 + c,
                                    ),
                                }
                            }
                        },
                    }
                } else {
                    if !is_utf8(b.subrange(0, e)) {
                        Parsed::Malformed(RespError::InvalidUtf8)
                    } else {
                        let toks = tokens_of(b.subrange(0, e));
                        if toks.len() == 0 {
                            Parsed::Malformed(RespError::InvalidData)
                        } else {
                            Parsed::Done(RespVal::Array(Some(bulks_of(toks))), e + 2)
                        }
                    }
                }
            },
        }
    }
}

/// Decode `rem` consecutive frames from the front of `b`. All-or-nothing:
/// if any frame is incomplete the whole attempt is incomplete.
pub open spec fn decode_elems(b: Seq<u8>, rem: int) -> Parsed<Seq<RespVal>>
    decreases b.len(), 1int, rem,
{
    if rem <= 0 {
        Parsed::Done(Seq::empty(), 0)
    } else {
        match decode_spec(b) {
            Parsed::Incomplete => Parsed::Incomplete,
            Parsed::Malformed(err) => Parsed::Malformed(err),
            Parsed::Done(v, c) => {
                let cc = if 0 <= c <= b.len() {
                    c
                } else {
                    0
                };
                match decode_elems(b.skip(cc), rem - 1) {
                    Parsed::Incomplete => Parsed::Incomplete,
                    Parsed::Malformed(err) => Parsed::Malformed(err),
                    Parsed::Done(vs, c2) => Parsed::Done(seq![v] + vs, cc + c2),
                }
            },
        }
    }
}

/// Prefix a decoded run of frames onto the outcome of decoding the rest.
pub open spec fn elems_prepend(vs: Seq<RespVal>, c: int, rest: Parsed<Seq<RespVal>>) -> Parsed<
    Seq<RespVal>,
> {
    match rest {
        Parsed::Incomplete => Parsed::Incomplete,
        Parsed::Malformed(err) => Parsed::Malformed(err),
        Parsed::Done(vs2, c2) => Parsed::Done(vs + vs2, c + c2),
    }
}

pub proof fn lemma_elems_prepend_nil(rest: Parsed<Seq<RespVal>>)
    ensures
        elems_prepend(Seq::empty(), 0, rest) == rest,
{
    match rest {
        Parsed::Done(vs2, c2) => {
            assert(Seq::empty() + vs2 =~= vs2);
        }
        _ => {}
    }
}

pub proof fn lemma_elems_prepend_assoc(
    vs1: Seq<RespVal>,
    c1: int,
    vs2: Seq<RespVal>,
    c2: int,
    rest: Parsed<Seq<RespVal>>,
)
    ensures
        elems_prepend(vs1, c1, elems_prepend(vs2, c2, rest)) == elems_prepend(
            vs1 + vs2,
            c1 + c2,
            rest,
        ),
{
    match rest {
        Parsed::Done(vs3, c3) => {
            assert(vs1 + (vs2 + vs3) =~= (vs1 + vs2) + vs3);
        }
        _ => {}
    }
}

impl RespType {
    /// Encode this value to its wire bytes. Total: every value has exactly
    /// one rendering.
    #[verifier::loop_isolation(false)]
    pub fn serialize(&self) -> (r: Vec<u8>)
        ensures
            r@ == frame_bytes(self@),
        decreases *self,
    {
        match self {
            RespType::SimpleString(s) => {
                let mut out: Vec<u8> = Vec::new();
                out.push(43);
                out.extend_from_slice(s.as_slice());
                out.push(13);
                out.push(10);
                proof {
                    assert(out@ =~= frame_bytes(self@));
                }
                out
            }
            RespType::Error(s) => {
                let mut out: Vec<u8> = Vec::new();
                out.push(45);
                out.extend_from_slice(s.as_slice());
                out.push(13);
                out.push(10);
                proof {
                    assert(out@ =~= frame_bytes(self@));
                }
                out
            }
            RespType::Integer(n) => {
                let mut out: Vec<u8> = Vec::new();
                out.push(58);
                let mut digits = format_i64(*n);
                out.append(&mut digits);
                out.push(13);
                out.push(10);
                proof {
                    assert(out@ =~= frame_bytes(self@));
                }
                out
            }
            RespType::BulkString(None) => {
                let mut out: Vec<u8> = Vec::new();
                out.push(36);
                out.push(45);
                out.push(49);
                out.push(13);
                out.push(10);
                proof {
                    assert(out@ =~= frame_bytes(self@));
                }
                out
            }
            RespType::BulkString(Some(s)) => {
                let mut out: Vec<u8> = Vec::new();
                out.push(36);
                let mut digits = format_u64(s.len() as u64);
                out.append(&mut digits);
                out.push(13);
                out.push(10);
                out.extend_from_slice(s.as_slice());
                out.push(13);
                out.push(10);
                proof {
                    assert(decimal_i64(s@.len() as int) == decimal_nat(s@.len() as nat));
                    assert(out@ =~= frame_bytes(self@));
                }
                out
            }
            RespType::Array(None) => {
                let mut out: Vec<u8> = Vec::new();
                out.push(42);
                out.push(45);
                out.push(49);
                out.push(13);
                out.push(10);
                proof {
                    assert(out@ =~= frame_bytes(self@));
                }
                out
            }
            RespType::Array(Some(arr)) => {
                let mut out: Vec<u8> = Vec::new();
                out.push(42);
                let mut digits = format_u64(arr.len() as u64);
                out.append(&mut digits);
                out.push(13);
                out.push(10);
                let ghost header: Seq<u8> = seq![42u8] + decimal_nat(arr@.len() as nat) + seq![
                    13u8,
                    10u8,
                ];
                proof {
                    assert(out@ =~= header);
                    assert(arr@.take(0) =~= Seq::<RespType>::empty());
                    assert(header + elems_bytes(frame_views(arr@.take(0))) =~= out@);
                }
                let mut i: usize = 0;
                while i < arr.len()
                    invariant
                        0 <= i <= arr@.len(),
                        header == seq![42u8] + decimal_nat(arr@.len() as nat) + seq![13u8, 10u8],
                        out@ == header + elems_bytes(frame_views(arr@.take(i as int))),
                    decreases arr@.len() - i,
                {
                    proof {
                        let oa = (*self)->Array_0;
                        assert(decreases_to!(*self => oa));
                        assert(oa == Some(*arr));
                        assert(decreases_to!(oa => oa->0));
                        assert(oa->0 == *arr);
                        assert(decreases_to!(*arr => arr@));
                        assert(decreases_to!(arr@ => arr@[i as int]));
                        assert(decreases_to!(*self => arr@[i as int]));
                    }
                    let mut piece = arr[i].serialize();
                    out.append(&mut piece);
                    proof {
                        assert(arr@.take(i + 1) =~= arr@.take(i as int).push(arr@[i as int]));
                        lemma_frame_views_push(arr@.take(i as int), arr@[i as int]);
                        lemma_elems_bytes_push(
                            frame_views(arr@.take(i as int)),
                            frame_view(arr@[i as int]),
                        );
                    }
                    i = i + 1;
                }
                proof {
                    assert(arr@.take(arr@.len() as int) =~= arr@);
                    lemma_frame_views_index(arr@);
                    assert(decimal_i64(frame_views(arr@).len() as int) == decimal_nat(
                        arr@.len() as nat,
                    ));
                    assert(out@ =~= frame_bytes(self@));
                }
                out
            }
        }
    }
}


impl RespType {
    /// Attempt to decode one frame from the front of `input`.
    ///
    /// `Ok(None)` means the buffer does not yet hold a complete frame and
    /// nothing was consumed; `Ok(Some((v, c)))` means the first `c` bytes
    /// of `input` encode the frame `v`; `Err` means the framing is broken
    /// beyond recovery.
    #[verifier::loop_isolation(false)]
    #[verifier::rlimit(80)]
    pub fn parse(input: &[u8]) -> (r: Result<Option<(RespType, usize)>, RespError>)
        ensures
            (match r {
                Result::Ok(Option::None) => decode_spec(input@) is Incomplete,
                Result::Ok(Option::Some((v, c))) => decode_spec(input@) == Parsed::<
                    RespVal,
                >::Done(frame_view(v), c as int) && c <= input@.len(),
                Result::Err(err) => decode_spec(input@) == Parsed::<RespVal>::Malformed(err),
            }),
        decreases input@.len(),
    {
        let n = input.len();
        if n == 0 {
            return Result::Ok(Option::None);
        }
        let e = match find_crlf(input) {
            Option::None => {
                return Result::Ok(Option::None);
            },
            Option::Some(e) => e,
        };
        proof {
            lemma_first_crlf(input@);
            assert(crlf_at(input@, e as int));
        }
        let c0 = *slice_index_get(input, 0);
        if c0 == 43 || c0 == 45 {
            proof {
                assert(e >= 1);
            }
            if !is_utf8_bytes(slice_subrange(input, 1, e)) {
                return Result::Err(RespError::InvalidUtf8);
            }
            let payload = slice_to_vec(slice_subrange(input, 1, e));
            let v = if c0 == 43 {
                RespType::SimpleString(payload)
            } else {
                RespType::Error(payload)
            };
            return Result::Ok(Option::Some((v, e + 2)));
        }
        if c0 == 58 {
            proof {
                assert(e >= 1);
            }
            let digits = slice_subrange(input, 1, e);
            match parse_i64(digits) {
                Option::None => {
                    return Result::Err(RespError::InvalidData);
                },
                Option::Some(x) => {
                    return Result::Ok(Option::Some((RespType::Integer(x), e + 2)));
                },
            }
        }
        if c0 == 36 {
            proof {
                assert(e >= 1);
            }
            let digits = slice_subrange(input, 1, e);
            match parse_i64(digits) {
                Option::None => {
                    return Result::Err(RespError::InvalidData);
                },
                Option::Some(x) => {
                    if x == -1 {
                        return Result::Ok(Option::Some((RespType::BulkString(Option::None), e + 2)));
                    }
                    if x < -1 {
                        return Result::Err(RespError::InvalidData);
                    }
                    if (n as u128) < (e as u128) + 4 + (x as u128) {
                        return Result::Ok(Option::None);
                    }
                    let len = x as usize;
                    if !is_utf8_bytes(slice_subrange(input, e + 2, e + 2 + len)) {
                        return Result::Err(RespError::InvalidUtf8);
                    }
                    let payload = slice_to_vec(slice_subrange(input, e + 2, e + 2 + len));
                    return Result::Ok(
                        Option::Some((RespType::BulkString(Option::Some(payload)), e + 2 + len + 2)),
                    );
                },
            }
        }
        if c0 == 42 {
            proof {
                assert(e >= 1);
            }
            let digits = slice_subrange(input, 1, e);
            match parse_i64(digits) {
                Option::None => {
                    return Result::Err(RespError::InvalidData);
                },
                Option::Some(x) => {
                    if x == -1 {
                        return Result::Ok(Option::Some((RespType::Array(Option::None), e + 2)));
                    }
                    if x < -1 {
                        return Result::Err(RespError::InvalidData);
                    }
                    let cnt = x;
                    let mut elems: Vec<RespType> = Vec::new();
                    let mut pos: usize = e + 2;
                    let mut done: i64 = 0;
                    proof {
                        lemma_elems_prepend_nil(
                            decode_elems(input@.skip((e + 2) as int), cnt as int),
                        );
                        assert(frame_views(elems@) =~= Seq::<RespVal>::empty());
                    }
                    while done < cnt
                        invariant
                            e + 2 <= pos <= n,
                            0 <= done <= cnt,
                            decode_elems(input@.skip((e + 2) as int), cnt as int) == elems_prepend(
                                frame_views(elems@),
                                pos - (e + 2),
                                decode_elems(input@.skip(pos as int), (cnt - done) as int),
                            ),
                        decreases cnt - done,
                    {
                        if pos >= n {
                            proof {
                                assert(input@.skip(pos as int) =~= Seq::<u8>::empty());
                                assert(decode_spec(Seq::<u8>::empty()) is Incomplete);
                                assert(decode_elems(
                                    input@.skip(pos as int),
                                    (cnt - done) as int,
                                ) is Incomplete);
                                assert(decode_elems(
                                    input@.skip((e + 2) as int),
                                    cnt as int,
                                ) is Incomplete);
                                assert(decode_spec(input@) is Incomplete);
                            }
                            return Result::Ok(Option::None);
                        }
                        let sub = slice_subrange(input, pos, n);
                        proof {
                            assert(sub@ =~= input@.skip(pos as int));
                        }
                        match RespType::parse(sub) {
                            Result::Err(err) => {
                                return Result::Err(err);
                            },
                            Result::Ok(Option::None) => {
                                return Result::Ok(Option::None);
                            },
                            Result::Ok(Option::Some((v, c))) => {
                                proof {
                                    assert(input@.skip(pos as int).skip(c as int) =~= input@.skip(
                                        (pos + c) as int,
                                    ));
                                    lemma_elems_prepend_assoc(
                                        frame_views(elems@),
                                        pos - (e + 2),
                                        seq![frame_view(v)],
                                        c as int,
                                        decode_elems(
                                            input@.skip((pos + c) as int),
                                            (cnt - done - 1) as int,
                                        ),
                                    );
                                    lemma_frame_views_push(elems@, v);
                                    assert(frame_views(elems@) + seq![frame_view(v)]
                                        =~= frame_views(elems@).push(frame_view(v)));
                                }
                                elems.push(v);
                                pos = pos + c;
                                done = done + 1;
                            },
                        }
                    }
                    proof {
                        assert(frame_views(elems@) + Seq::<RespVal>::empty() =~= frame_views(
                            elems@,
                        ));
                    }
                    return Result::Ok(Option::Some((RespType::Array(Option::Some(elems)), pos)));
                },
            }
        }
        if !is_utf8_bytes(slice_subrange(input, 0, e)) {
            return Result::Err(RespError::InvalidUtf8);
        }
        let ghost line: Seq<u8> = input@.subrange(0, e as int);
        let mut toks: Vec<RespType> = Vec::new();
        let ghost mut donetoks: Seq<Seq<u8>> = Seq::empty();
        let mut p: usize = 0;
        proof {
            assert(line.skip(0) =~= line);
            assert(Seq::<Seq<u8>>::empty() + tokens_of(line) =~= tokens_of(line));
            assert(frame_views(toks@) =~= Seq::<RespVal>::empty());
            assert(bulks_of(donetoks) =~= Seq::<RespVal>::empty());
        }
        while p < e
            invariant
                0 <= p <= e,
                toks@.len() == donetoks.len(),
                tokens_of(line) == donetoks + tokens_of(line.skip(p as int)),
                frame_views(toks@) == bulks_of(donetoks),
            decreases e - p,
        {
            let c = *slice_index_get(input, p);
            proof {
                assert(line[p as int] == input@[p as int]);
                assert(line.skip(p as int)[0] == line[p as int]);
            }
            if c == 32 || (9 <= c && c <= 13) {
                proof {
                    assert(is_ws(line.skip(p as int)[0]));
                    assert(line.skip(p as int).drop_first() =~= line.skip(p + 1));
                    assert(tokens_of(line.skip(p as int)) == tokens_of(line.skip(p + 1)));
                }
                p = p + 1;
            } else {
                let mut q: usize = p + 1;
                #[verifier::loop_isolation(true)]
                while q < e
                    invariant_except_break
                        p < q <= e,
                        (e as int) + 1 < input@.len(),
                        forall|i: int| p <= i < q ==> !is_ws(input@[i]),
                    ensures
                        p < q <= e,
                        forall|i: int| p <= i < q ==> !is_ws(input@[i]),
                        q < e ==> is_ws(input@[q as int]),
                    decreases e - q,
                {
                    let c2 = *slice_index_get(input, q);
                    if c2 == 32 || (9 <= c2 && c2 <= 13) {
                        break;
                    }
                    q = q + 1;
                }
                proof {
                    assert forall|i: int| 0 <= i < q - p implies !is_ws(
                        #[trigger] line.skip(p as int)[i],
                    ) by {
                        assert(line.skip(p as int)[i] == input@[p + i]);
                    }
                    if q < e {
                        assert(line.skip(p as int)[(q - p) as int] == input@[q as int]);
                    }
                    lemma_token_len_is(line.skip(p as int), (q - p) as int);
                    assert(line.skip(p as int).take((q - p) as int) =~= input@.subrange(
                        p as int,
                        q as int,
                    ));
                    assert(line.skip(p as int).skip((q - p) as int) =~= line.skip(q as int));
                    assert(tokens_of(line.skip(p as int)) == seq![
                        input@.subrange(p as int, q as int),
                    ] + tokens_of(line.skip(q as int)));
                }
                let tok = slice_to_vec(slice_subrange(input, p, q));
                proof {
                    lemma_frame_views_push(toks@, RespType::BulkString(Option::Some(tok)));
                    assert(bulks_of(donetoks.push(tok@)) =~= bulks_of(donetoks).push(
                        RespVal::BulkString(Option::Some(tok@)),
                    ));
                    assert(donetoks + (seq![tok@] + tokens_of(line.skip(q as int)))
                        =~= donetoks.push(tok@) + tokens_of(line.skip(q as int)));
                    donetoks = donetoks.push(tok@);
                }
                toks.push(RespType::BulkString(Option::Some(tok)));
                p = q;
            }
        }
        proof {
            assert(line.skip(e as int) =~= Seq::<u8>::empty());
            assert(tokens_of(Seq::<u8>::empty()) =~= Seq::<Seq<u8>>::empty());
            assert(donetoks + Seq::<Seq<u8>>::empty() =~= donetoks);
            assert(tokens_of(line) == donetoks);
        }
        if toks.len() == 0 {
            proof {
                assert(frame_views(toks@) =~= Seq::<RespVal>::empty());
                assert(bulks_of(donetoks).len() == donetoks.len());
            }
            return Result::Err(RespError::InvalidData);
        }
        proof {
            assert(bulks_of(donetoks).len() == donetoks.len());
        }
        Result::Ok(Option::Some((RespType::Array(Option::Some(toks)), e + 2)))
    }
}


pub proof fn lemma_decode_consumed(b: Seq<u8>)
    ensures
        decode_spec(b) is Done ==> 2 <= decode_spec(b)->Done_1 <= b.len(),
    decreases b.len(), 0int, 0int,
{
    if b.len() == 0 {
    } else {
        lemma_first_crlf(b);
        match first_crlf(b) {
            None => {}
            Some(e) => {
                if !(e < 0 || b.len() < e + 2) && b[0] == 42 {
                    match parse_i64_spec(b.subrange(1, e)) {
                        Some(x) => {
                            if x >= 0 {
                                lemma_decode_elems_consumed(b.skip(e + 2), x as int);
                            }
                        }
                        None => {}
                    }
                }
            }
        }
    }
}

pub proof fn lemma_decode_elems_consumed(b: Seq<u8>, rem: int)
    ensures
        decode_elems(b, rem) is Done ==> 0 <= decode_elems(b, rem)->Done_1 <= b.len(),
    decreases b.len(), 1int, rem,
{
    if rem <= 0 {
    } else {
        lemma_decode_consumed(b);
        match decode_spec(b) {
            Parsed::Done(v, c) => {
                lemma_decode_elems_consumed(b.skip(c), rem - 1);
            }
            _ => {}
        }
    }
}

/// A constructible protocol value: status and error text hold no
/// line-break sequence, all text is valid UTF-8, and declared lengths fit
/// a signed 64-bit integer.
pub open spec fn wf_val(v: RespVal) -> bool
    decreases v,
{
    match v {
        RespVal::SimpleString(s) => no_crlf(s) && is_utf8(s),
        RespVal::Error(s) => no_crlf(s) && is_utf8(s),
        RespVal::Integer(_) => true,
        RespVal::BulkString(None) => true,
        RespVal::BulkString(Some(s)) => s.len() <= i64::MAX && is_utf8(s),
        RespVal::Array(None) => true,
        RespVal::Array(Some(a)) => a.len() <= i64::MAX && wf_vals(a),
    }
}

pub open spec fn wf_vals(a: Seq<RespVal>) -> bool
    decreases a,
{
    if a.len() == 0 {
        true
    } else {
        wf_val(a[0]) && wf_vals(a.drop_first())
    }
}

proof fn lemma_first_crlf_boundary(pre: Seq<u8>, suf: Seq<u8>)
    requires
        no_crlf(pre),
    ensures
        first_crlf(pre + seq![13u8, 10u8] + suf) == Some(pre.len() as int),
{
    let b = pre + seq![13u8, 10u8] + suf;
    assert(b[pre.len() as int] == 13);
    assert(b[pre.len() as int + 1] == 10);
    assert(crlf_at(b, pre.len() as int));
    assert forall|j: int| 0 <= j < pre.len() implies !crlf_at(b, j) by {
        if crlf_at(b, j) {
            if j + 1 < pre.len() {
                assert(b[j] == pre[j]);
                assert(b[j + 1] == pre[j + 1]);
                assert(crlf_at(pre, j));
            } else {
                assert(b[j + 1] == 13);
            }
        }
    }
    lemma_first_crlf_is(b, pre.len() as int);
}

/// Round trip: a well-formed value decodes back from its own encoding,
/// whatever follows it, consuming exactly the encoded length.
pub proof fn lemma_decode_encoded(v: RespVal, rest: Seq<u8>)
    requires
        wf_val(v),
    ensures
        decode_spec(frame_bytes(v) + rest) == Parsed::<RespVal>::Done(
            v,
            frame_bytes(v).len() as int,
        ),
    decreases v,
{
    let b = frame_bytes(v) + rest;
    match v {
        RespVal::SimpleString(s) => {
            let pre = seq![43u8] + s;
            assert forall|j: int| !crlf_at(pre, j) by {
                if crlf_at(pre, j) {
                    assert(j >= 1);
                    assert(pre[j] == s[j - 1]);
                    assert(pre[j + 1] == s[j]);
                    assert(crlf_at(s, j - 1));
                }
            }
            assert(b =~= pre + seq![13u8, 10u8] + rest);
            lemma_first_crlf_boundary(pre, rest);
            let e = pre.len() as int;
            assert(b[0] == 43);
            assert(b.subrange(1, e) =~= s);
        }
        RespVal::Error(s) => {
            let pre = seq![45u8] + s;
            assert forall|j: int| !crlf_at(pre, j) by {
                if crlf_at(pre, j) {
                    assert(j >= 1);
                    assert(pre[j] == s[j - 1]);
                    assert(pre[j + 1] == s[j]);
                    assert(crlf_at(s, j - 1));
                }
            }
            assert(b =~= pre + seq![13u8, 10u8] + rest);
            lemma_first_crlf_boundary(pre, rest);
            let e = pre.len() as int;
            assert(b[0] == 45);
            assert(b.subrange(1, e) =~= s);
        }
        RespVal::Integer(n) => {
            let d = decimal_i64(n as int);
            lemma_decimal_i64_bytes(n as int);
            let pre = seq![58u8] + d;
            assert forall|j: int| !crlf_at(pre, j) by {
                if crlf_at(pre, j) {
                    assert(j >= 1);
                    assert(pre[j] == d[j - 1]);
                }
            }
            assert(b =~= pre + seq![13u8, 10u8] + rest);
            lemma_first_crlf_boundary(pre, rest);
            let e = pre.len() as int;
            assert(b[0] == 58);
            assert(b.subrange(1, e) =~= d);
            lemma_parse_decimal_i64(n as int);
        }
        RespVal::BulkString(None) => {
            let pre = seq![36u8, 45u8, 49u8];
            assert forall|j: int| !crlf_at(pre, j) by {}
            assert(b =~= pre + seq![13u8, 10u8] + rest);
            lemma_first_crlf_boundary(pre, rest);
            assert(b[0] == 36);
            lemma_parse_decimal_i64(-1);
            assert(decimal_nat(1nat) =~= seq![49u8]);
            assert(decimal_i64(-1) =~= seq![45u8, 49u8]);
            assert(b.subrange(1, 3) =~= seq![45u8, 49u8]);
            assert(frame_bytes(v).len() == 5);
        }
        RespVal::BulkString(Some(s)) => {
            let d = decimal_i64(s.len() as int);
            lemma_decimal_i64_bytes(s.len() as int);
            let pre = seq![36u8] + d;
            assert forall|j: int| !crlf_at(pre, j) by {
                if crlf_at(pre, j) {
                    assert(j >= 1);
                    assert(pre[j] == d[j - 1]);
                }
            }
            assert(b =~= pre + seq![13u8, 10u8] + (s + seq![13u8, 10u8] + rest));
            lemma_first_crlf_boundary(pre, s + seq![13u8, 10u8] + rest);
            let e = pre.len() as int;
            assert(b[0] == 36);
            assert(b.subrange(1, e) =~= d);
            lemma_parse_decimal_i64(s.len() as int);
            let x = s.len() as int;
            assert(b.len() >= e + 2 + x + 2);
            assert(b.subrange(e + 2, e + 2 + x) =~= s);
            assert(frame_bytes(v).len() == e + 2 + x + 2);
        }
        RespVal::Array(None) => {
            let pre = seq![42u8, 45u8, 49u8];
            assert forall|j: int| !crlf_at(pre, j) by {}
            assert(b =~= pre + seq![13u8, 10u8] + rest);
            lemma_first_crlf_boundary(pre, rest);
            assert(b[0] == 42);
            lemma_parse_decimal_i64(-1);
            assert(decimal_nat(1nat) =~= seq![49u8]);
            assert(decimal_i64(-1) =~= seq![45u8, 49u8]);
            assert(b.subrange(1, 3) =~= seq![45u8, 49u8]);
            assert(frame_bytes(v).len() == 5);
        }
        RespVal::Array(Some(a)) => {
            let d = decimal_i64(a.len() as int);
            lemma_decimal_i64_bytes(a.len() as int);
            let pre = seq![42u8] + d;
            assert forall|j: int| !crlf_at(pre, j) by {
                if crlf_at(pre, j) {
                    assert(j >= 1);
                    assert(pre[j] == d[j - 1]);
                }
            }
            assert(b =~= pre + seq![13u8, 10u8] + (elems_bytes(a) + rest));
            lemma_first_crlf_boundary(pre, elems_bytes(a) + rest);
            let e = pre.len() as int;
            assert(b[0] == 42);
            assert(b.subrange(1, e) =~= d);
            lemma_parse_decimal_i64(a.len() as int);
            assert(b.skip(e + 2) =~= elems_bytes(a) + rest);
            lemma_decode_encoded_elems(a, rest);
            assert(frame_bytes(v).len() == e + 2 + elems_bytes(a).len());
        }
    }
}

pub proof fn lemma_decode_encoded_elems(a: Seq<RespVal>, rest: Seq<u8>)
    requires
        wf_vals(a),
    ensures
        decode_elems(elems_bytes(a) + rest, a.len() as int) == Parsed::<Seq<RespVal>>::Done(
            a,
            elems_bytes(a).len() as int,
        ),
    decreases a,
{
    let b = elems_bytes(a) + rest;
    if a.len() == 0 {
        assert(a =~= Seq::<RespVal>::empty());
    } else {
        let fb = frame_bytes(a[0]);
        assert(b =~= fb + (elems_bytes(a.drop_first()) + rest));
        lemma_decode_encoded(a[0], elems_bytes(a.drop_first()) + rest);
        assert(0 <= fb.len() <= b.len());
        assert(b.skip(fb.len() as int) =~= elems_bytes(a.drop_first()) + rest);
        lemma_decode_encoded_elems(a.drop_first(), rest);
        assert(seq![a[0]] + a.drop_first() =~= a);
        assert(elems_bytes(a).len() == fb.len() + elems_bytes(a.drop_first()).len());
    }
}

/// Stability under extension: once a decode attempt has an outcome (a value
/// or an error), feeding more bytes cannot change it.
pub proof fn lemma_decode_extend(b: Seq<u8>, ext: Seq<u8>)
    requires
        !(decode_spec(b) is Incomplete),
    ensures
        decode_spec(b + ext) == decode_spec(b),
    decreases b.len(), 0int, 0int,
{
    let c = b + ext;
    lemma_first_crlf(b);
    match first_crlf(b) {
        None => {}
        Some(e) => {
            lemma_first_crlf_extend(b, ext);
            assert(c[0] == b[0]);
            if b[0] == 43 || b[0] == 45 || b[0] == 58 || b[0] == 36 || b[0] == 42 {
                assert(e >= 1);
                assert(c.subrange(1, e) =~= b.subrange(1, e));
            }
            if b[0] == 43 || b[0] == 45 {
            } else if b[0] == 36 {
                match parse_i64_spec(b.subrange(1, e)) {
                    Some(x) => {
                        if x >= 0 {
                            assert(b.len() >= e + 2 + x + 2);
                            assert(c.subrange(e + 2, e + 2 + x) =~= b.subrange(e + 2, e + 2 + x));
                        }
                    }
                    None => {}
                }
            } else if b[0] == 42 {
                match parse_i64_spec(b.subrange(1, e)) {
                    Some(x) => {
                        if x >= 0 {
                            assert(c.skip(e + 2) =~= b.skip(e + 2) + ext);
                            lemma_decode_elems_extend(b.skip(e + 2), ext, x as int);
                        }
                    }
                    None => {}
                }
            } else if b[0] != 58 {
                assert(c.subrange(0, e) =~= b.subrange(0, e));
            }
        }
    }
}

pub proof fn lemma_decode_elems_extend(b: Seq<u8>, ext: Seq<u8>, rem: int)
    requires
        !(decode_elems(b, rem) is Incomplete),
    ensures
        decode_elems(b + ext, rem) == decode_elems(b, rem),
    decreases b.len(), 1int, rem,
{
    if rem <= 0 {
    } else {
        lemma_decode_extend(b, ext);
        lemma_decode_consumed(b);
        match decode_spec(b) {
            Parsed::Done(v, cc) => {
                assert((b + ext).skip(cc) =~= b.skip(cc) + ext);
                lemma_decode_elems_extend(b.skip(cc), ext, rem - 1);
            }
            _ => {}
        }
    }
}

/// Incremental decoding: an attempt on any prefix of a buffer either
/// reports incomplete — and by construction consumes nothing — or yields
/// exactly what the whole buffer yields.
pub proof fn lemma_decode_prefix(b: Seq<u8>, k: int)
    requires
        0 <= k <= b.len(),
    ensures
        decode_spec(b.take(k)) is Incomplete || decode_spec(b.take(k)) == decode_spec(b),
{
    if !(decode_spec(b.take(k)) is Incomplete) {
        lemma_decode_extend(b.take(k), b.skip(k));
        assert(b.take(k) + b.skip(k) =~= b);
    }
}

} // verus!
