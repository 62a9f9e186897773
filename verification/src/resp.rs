//! The wire-protocol codec: decoding a byte buffer into a structured frame
//! value and encoding a frame value back into bytes.
//!
//! A frame is dispatched on its first byte: `+` status text, `-` a signed
//! 64-bit integer/error code, `$` a length-prefixed bulk byte-string
//! (length `-1` meaning null), `*` an array of sub-frames.  Headers are
//! CRLF-terminated and bulk-string payloads are framed by exact byte
//! length, so payloads are binary-safe.

use vstd::prelude::*;

pub mod utils;

verus! {

use vstd::slice::slice_subrange;
use vstd::slice::slice_to_vec;
use crate::resp::utils::find_crlf;
use crate::resp::utils::lemma_find_crlf;
use crate::resp::utils::spec_parse_i64;
use crate::resp::utils::read_until_crlf;
use crate::resp::utils::split_at_crlf;
use crate::resp::utils::dec_digits;
use crate::resp::utils::digits_val;
use crate::resp::utils::i64_digits;
use crate::resp::utils::is_digit;
use crate::resp::utils::lemma_dec_digits_are_digits;
use crate::resp::utils::lemma_find_crlf_concat;
use crate::resp::utils::lemma_parse_i64_digits;
use crate::resp::utils::push_all;
use crate::resp::utils::CR;
use crate::resp::utils::LF;

/// Prefix byte `+` of a status-text frame.
pub const TEXT_PREFIX: u8 = 43;

/// Prefix byte `-` of an integer/error frame.
pub const INTEGER_PREFIX: u8 = 45;

/// Prefix byte `$` of a bulk-string frame.
pub const BULK_PREFIX: u8 = 36;

/// Prefix byte `*` of an array frame.
pub const ARRAY_PREFIX: u8 = 42;

/// One frame of the wire protocol.
///
/// Only decoding produces `Array` values (client requests); the response
/// path never encodes one.
#[derive(Debug, PartialEq, Eq)]
pub enum RespValue {
    /// Status text, written `+text\r\n`; the payload holds the bytes
    /// between the prefix and the CRLF.
    Text(Vec<u8>),
    /// Integer/error code, written `-number\r\n`.
    Integer(i64),
    /// Length-prefixed byte string, written `$<len>\r\n<bytes>\r\n`.
    BulkString(Vec<u8>),
    /// A sequence of sub-frames, written `*<count>\r\n` followed by the
    /// encodings of the elements.
    Array(Vec<RespValue>),
    /// The null bulk string, written `$-1\r\n`.
    Null,
}

/// The mathematical shape of a frame: what a `RespValue` holds, with byte
/// vectors abstracted to sequences.
#[verifier::ext_equal]
pub enum RespModel {
    Text(Seq<u8>),
    Integer(int),
    BulkString(Seq<u8>),
    Array(Seq<RespModel>),
    Null,
}

/// The model of an executable frame value.
pub open spec fn resp_model(v: RespValue) -> RespModel
    decreases v, 0int,
    via resp_model_decreases
{
    match v {
        RespValue::Text(t) => RespModel::Text(t@),
        RespValue::Integer(i) => RespModel::Integer(i as int),
        RespValue::BulkString(b) => RespModel::BulkString(b@),
        RespValue::Array(elems) => RespModel::Array(models_of(elems@)),
        RespValue::Null => RespModel::Null,
    }
}

/// The models of a sequence of frame values.
pub open spec fn models_of(items: Seq<RespValue>) -> Seq<RespModel>
    decreases items, 1int,
    via models_of_decreases
{
    Seq::new(
        items.len(),
        |i: int|
            if 0 <= i < items.len() {
                resp_model(items[i])
            } else {
                RespModel::Null
            },
    )
}

#[via_fn]
proof fn resp_model_decreases(v: RespValue) {
    match v {
        RespValue::Array(elems) => {
            assert(decreases_to!(v => elems));
            assert(decreases_to!(elems => elems@));
        }
        _ => {}
    }
}

#[via_fn]
proof fn models_of_decreases(items: Seq<RespValue>) {
    assert forall|i: int| 0 <= i < items.len() implies decreases_to!(items => items[i]) by {
        assert(decreases_to!(items => items[i]));
    }
}

impl View for RespValue {
    type V = RespModel;

    open spec fn view(&self) -> RespModel {
        resp_model(*self)
    }
}

/// The abstract parse of one frame from the front of `s`: the frame's
/// model and the count of bytes it occupies, or `None` when no
/// well-formed frame starts the buffer.
pub open spec fn spec_parse(s: Seq<u8>) -> Option<(RespModel, int)>
    decreases s.len(), 0int, 0int,
{
    if s.len() == 0 {
        None
    } else if s[0] == TEXT_PREFIX {
        match find_crlf(s.skip(1)) {
            Some(i) => Some((RespModel::Text(s.subrange(1, 1 + i)), i + 3)),
            None => None,
        }
    } else if s[0] == INTEGER_PREFIX {
        match find_crlf(s.skip(1)) {
            Some(i) => match spec_parse_i64(s.subrange(1, 1 + i)) {
                Some(v) => Some((RespModel::Integer(v), i + 3)),
                None => None,
            },
            None => None,
        }
    } else if s[0] == BULK_PREFIX {
        match find_crlf(s.skip(1)) {
            Some(i) => match spec_parse_i64(s.subrange(1, 1 + i)) {
                Some(len) => {
                    if len == -1 {
                        Some((RespModel::Null, i + 3))
                    } else if len < 0 {
                        None
                    } else if i + 3 + len + 2 <= s.len() && s[i + 3 + len] == CR && s[i + 3 + len
                        + 1] == LF {
                        Some(
                            (RespModel::BulkString(s.subrange(i + 3, i + 3 + len)), i + 3 + len + 2),
                        )
                    } else {
                        None
                    }
                },
                None => None,
            },
            None => None,
        }
    } else if s[0] == ARRAY_PREFIX {
        match find_crlf(s.skip(1)) {
            Some(i) => match spec_parse_i64(s.subrange(1, 1 + i)) {
                Some(count) => {
                    if count <= 0 {
                        Some((RespModel::Array(Seq::empty()), i + 3))
                    } else if 0 <= i && i + 3 <= s.len() {
                        match spec_parse_elems(s.skip(i + 3), count) {
                            Some((elems, used)) => Some((RespModel::Array(elems), i + 3 + used)),
                            None => None,
                        }
                    } else {
                        None
                    }
                },
                None => None,
            },
            None => None,
        }
    } else {
        None
    }
}

/// The abstract parse of `n` consecutive frames from the front of `s`:
/// their models and the total count of bytes they occupy.
pub open spec fn spec_parse_elems(s: Seq<u8>, n: int) -> Option<(Seq<RespModel>, int)>
    decreases s.len(), 1int, n,
{
    if n <= 0 {
        Some((Seq::empty(), 0))
    } else {
        match spec_parse(s) {
            Some((v, c)) => {
                if 1 <= c <= s.len() {
                    match spec_parse_elems(s.skip(c), n - 1) {
                        Some((rest, used)) => Some((seq![v] + rest, c + used)),
                        None => None,
                    }
                } else {
                    None
                }
            },
            None => None,
        }
    }
}

/// A malformed frame: an unknown prefix byte, a missing CRLF, a
/// non-numeric length or a truncated buffer.
#[derive(Debug, PartialEq, Eq)]
pub struct ParseError;

/// Encoding was asked for an array, which the response path does not
/// support.
#[derive(Debug, PartialEq, Eq)]
pub struct EncodeError;

/// Decodes one frame from the front of `buffer`, handing back the frame
/// value and the count of bytes it occupied, exactly as [`spec_parse`]
/// describes; every malformed or truncated buffer is rejected.
pub fn parse(buffer: &[u8]) -> (r: Result<(RespValue, usize), ParseError>)
    ensures
        match spec_parse(buffer@) {
            Some((m, n)) => r is Ok && r.unwrap().0@ == m && r.unwrap().1 == n && 1 <= n
                <= buffer@.len(),
            None => r is Err,
        },
    decreases buffer@.len(), 1int,
{
    if buffer.len() == 0 {
        return Err(ParseError);
    }
    let b0: u8 = buffer[0];
    if b0 == TEXT_PREFIX {
        parse_text(buffer)
    } else if b0 == INTEGER_PREFIX {
        parse_integer(buffer)
    } else if b0 == BULK_PREFIX {
        parse_bulk_string(buffer)
    } else if b0 == ARRAY_PREFIX {
        parse_array(buffer)
    } else {
        Err(ParseError)
    }
}

/// Decodes a status-text frame: the bytes between the `+` prefix and the
/// first CRLF.
fn parse_text(buffer: &[u8]) -> (r: Result<(RespValue, usize), ParseError>)
    requires
        buffer@.len() >= 1,
        buffer@[0] == TEXT_PREFIX,
    ensures
        match spec_parse(buffer@) {
            Some((m, n)) => r is Ok && r.unwrap().0@ == m && r.unwrap().1 == n && 1 <= n
                <= buffer@.len(),
            None => r is Err,
        },
{
    let tail = slice_subrange(buffer, 1, buffer.len());
    proof {
        assert(tail@ =~= buffer@.skip(1));
        lemma_find_crlf(tail@);
    }
    match read_until_crlf(tail) {
        Some((line, len)) => {
            proof {
                let i = find_crlf(tail@).unwrap();
                assert(line@ =~= buffer@.subrange(1, 1 + i));
            }
            Ok((RespValue::Text(slice_to_vec(line)), len + 1))
        },
        None => Err(ParseError),
    }
}

/// Decodes an integer/error frame: the signed numeral between the `-`
/// prefix and the first CRLF.
fn parse_integer(buffer: &[u8]) -> (r: Result<(RespValue, usize), ParseError>)
    requires
        buffer@.len() >= 1,
        buffer@[0] == INTEGER_PREFIX,
    ensures
        match spec_parse(buffer@) {
            Some((m, n)) => r is Ok && r.unwrap().0@ == m && r.unwrap().1 == n && 1 <= n
                <= buffer@.len(),
            None => r is Err,
        },
{
    proof {
        lemma_find_crlf(buffer@.skip(1));
    }
    match split_at_crlf(buffer) {
        Ok((v, consumed)) => Ok((RespValue::Integer(v), consumed)),
        Err(e) => Err(e),
    }
}

/// Decodes a bulk-string frame: a signed length header, then exactly that
/// many raw payload bytes and a trailing CRLF; length `-1` denotes the
/// null bulk string, whose frame is the header alone.
fn parse_bulk_string(buffer: &[u8]) -> (r: Result<(RespValue, usize), ParseError>)
    requires
        buffer@.len() >= 1,
        buffer@[0] == BULK_PREFIX,
    ensures
        match spec_parse(buffer@) {
            Some((m, n)) => r is Ok && r.unwrap().0@ == m && r.unwrap().1 == n && 1 <= n
                <= buffer@.len(),
            None => r is Err,
        },
{
    proof {
        lemma_find_crlf(buffer@.skip(1));
    }
    let (str_len, header) = match split_at_crlf(buffer) {
        Ok(p) => p,
        Err(e) => {
            return Err(e);
        },
    };
    if str_len == -1 {
        return Ok((RespValue::Null, header));
    }
    if str_len < 0 {
        return Err(ParseError);
    }
    let remaining: usize = buffer.len() - header;
    if (str_len as u64) + 2 > remaining as u64 {
        return Err(ParseError);
    }
    let end: usize = header + (str_len as usize);
    if !(buffer[end] == CR && buffer[end + 1] == LF) {
        return Err(ParseError);
    }
    let payload = slice_to_vec(slice_subrange(buffer, header, end));
    proof {
        let i = find_crlf(buffer@.skip(1)).unwrap();
        assert(payload@ =~= buffer@.subrange(i + 3, i + 3 + str_len));
    }
    Ok((RespValue::BulkString(payload), end + 2))
}

/// Decodes an array frame: a count header, then that many sub-frames in
/// sequence; a non-positive count yields an empty array.
#[verifier::loop_isolation(false)]
fn parse_array(buffer: &[u8]) -> (r: Result<(RespValue, usize), ParseError>)
    requires
        buffer@.len() >= 1,
        buffer@[0] == ARRAY_PREFIX,
    ensures
        match spec_parse(buffer@) {
            Some((m, n)) => r is Ok && r.unwrap().0@ == m && r.unwrap().1 == n && 1 <= n
                <= buffer@.len(),
            None => r is Err,
        },
    decreases buffer@.len(), 0int,
{
    proof {
        lemma_find_crlf(buffer@.skip(1));
    }
    let (count, header) = match split_at_crlf(buffer) {
        Ok(p) => p,
        Err(e) => {
            return Err(e);
        },
    };
    let mut items: Vec<RespValue> = Vec::new();
    if count <= 0 {
        proof {
            assert(models_of(items@) =~= Seq::<RespModel>::empty());
        }
        return Ok((RespValue::Array(items), header));
    }
    let ghost s = buffer@;
    let ghost total = count as int;
    let mut done: i64 = 0;
    let mut consumed: usize = header;
    while done < count
        invariant
            0 <= done <= count,
            header <= consumed <= s.len(),
            items@.len() == done as int,
            spec_parse_elems(s.skip(header as int), total) == (match spec_parse_elems(
                s.skip(consumed as int),
                total - done,
            ) {
                Some((rest, used)) => Some(
                    (models_of(items@) + rest, (consumed - header) + used),
                ),
                None => None::<(Seq<RespModel>, int)>,
            }),
        decreases count - done,
    {
        let sub = slice_subrange(buffer, consumed, buffer.len());
        proof {
            assert(sub@ =~= s.skip(consumed as int));
        }
        match parse(sub) {
            Ok((v, c)) => {
                let ghost items0 = items@;
                let ghost consumed0 = consumed as int;
                items.push(v);
                consumed = consumed + c;
                done = done + 1;
                proof {
                    assert(s.skip(consumed0).skip(c as int) =~= s.skip(consumed as int));
                    assert(models_of(items@) =~= models_of(items0) + seq![resp_model(v)]);
                    match spec_parse_elems(s.skip(consumed as int), total - done) {
                        Some((rest1, u1)) => {
                            assert((models_of(items0) + (seq![resp_model(v)] + rest1)) =~= ((
                            models_of(items0) + seq![resp_model(v)]) + rest1));
                        },
                        None => {},
                    }
                }
            },
            Err(e) => {
                return Err(e);
            },
        }
    }
    proof {
        assert(spec_parse_elems(s.skip(consumed as int), 0) == Some(
            (Seq::<RespModel>::empty(), 0int),
        ));
        assert(models_of(items@) + Seq::<RespModel>::empty() =~= models_of(items@));
    }
    Ok((RespValue::Array(items), consumed))
}

/// The byte encoding of a frame model.  Arrays have no encoding on the
/// response path and map to the empty sequence; [`RespValue::serializer`]
/// rejects them instead of emitting this.
pub open spec fn spec_encode(m: RespModel) -> Seq<u8> {
    match m {
        RespModel::Text(t) => seq![TEXT_PREFIX] + t + seq![CR, LF],
        RespModel::Integer(v) => seq![INTEGER_PREFIX] + i64_digits(v) + seq![CR, LF],
        RespModel::BulkString(b) => seq![BULK_PREFIX] + i64_digits(b.len() as int) + seq![CR, LF]
            + b + seq![CR, LF],
        RespModel::Null => seq![BULK_PREFIX, INTEGER_PREFIX, 49u8, CR, LF],
        RespModel::Array(_) => Seq::empty(),
    }
}

/// Appends the decimal digits of `n`, most significant first.
fn push_dec_digits(out: &mut Vec<u8>, n: u64)
    ensures
        final(out)@ == old(out)@ + dec_digits(n as int),
    decreases n,
{
    if n > 9 {
        push_dec_digits(out, n / 10);
    }
    out.push((n % 10) as u8 + 48);
    proof {
        if n > 9 {
            assert(old(out)@ + dec_digits(n as int) =~= (old(out)@ + dec_digits(
                n as int / 10,
            )).push((48 + n as int % 10) as u8));
        } else {
            assert(old(out)@ + dec_digits(n as int) =~= old(out)@.push((48 + n as int) as u8));
        }
    }
}

/// Appends the decimal numeral of `v`: a `-` sign when negative, then
/// the digits of its magnitude.
fn push_i64_digits(out: &mut Vec<u8>, v: i64)
    ensures
        final(out)@ == old(out)@ + i64_digits(v as int),
{
    if v >= 0 {
        push_dec_digits(out, v as u64);
    } else {
        out.push(45);
        let mag: u64 = if v == i64::MIN {
            0x8000_0000_0000_0000
        } else {
            (-v) as u64
        };
        proof {
            assert(mag as int == -(v as int));
        }
        push_dec_digits(out, mag);
        proof {
            assert(old(out)@ + i64_digits(v as int) =~= (old(out)@.push(45u8)) + dec_digits(
                mag as int,
            ));
        }
    }
}

impl RespValue {
    /// Encodes this frame as bytes: `+text\r\n`, `-number\r\n`,
    /// `$<len>\r\n<bytes>\r\n` or `$-1\r\n`.  Arrays belong only to the
    /// request path and are rejected rather than encoded.
    pub fn serializer(&self) -> (r: Result<Vec<u8>, EncodeError>)
        ensures
            r is Ok <==> !(self is Array),
            !(self is Array) ==> r.unwrap()@ == spec_encode(self@),
    {
        match self {
            RespValue::Text(t) => {
                let mut out: Vec<u8> = Vec::new();
                out.push(TEXT_PREFIX);
                push_all(&mut out, t.as_slice());
                out.push(CR);
                out.push(LF);
                proof {
                    assert(out@ =~= spec_encode(resp_model(*self)));
                }
                Ok(out)
            },
            RespValue::Integer(v) => {
                let mut out: Vec<u8> = Vec::new();
                out.push(INTEGER_PREFIX);
                push_i64_digits(&mut out, *v);
                out.push(CR);
                out.push(LF);
                proof {
                    assert(out@ =~= spec_encode(resp_model(*self)));
                }
                Ok(out)
            },
            RespValue::BulkString(b) => {
                let mut out: Vec<u8> = Vec::new();
                out.push(BULK_PREFIX);
                push_dec_digits(&mut out, b.len() as u64);
                out.push(CR);
                out.push(LF);
                push_all(&mut out, b.as_slice());
                out.push(CR);
                out.push(LF);
                proof {
                    assert(out@ =~= spec_encode(resp_model(*self)));
                }
                Ok(out)
            },
            RespValue::Null => {
                let mut out: Vec<u8> = Vec::new();
                out.push(BULK_PREFIX);
                out.push(INTEGER_PREFIX);
                out.push(49);
                out.push(CR);
                out.push(LF);
                proof {
                    assert(out@ =~= spec_encode(resp_model(*self)));
                }
                Ok(out)
            },
            RespValue::Array(_) => Err(EncodeError),
        }
    }
}

/// Whether a status text can ride in a `+` frame and come back intact:
/// it must not contain a CRLF pair of its own.
pub open spec fn text_encodable(t: Seq<u8>) -> bool {
    forall|j: int| 0 <= j && j + 1 < t.len() ==> !(#[trigger] t[j] == CR && t[j + 1] == LF)
}

/// Law: decoding the encoding of a status, integer/error, bulk-string or
/// null frame yields an equal frame back and consumes the whole
/// encoding.  Array frames are excluded: they have no encoding.
pub proof fn lemma_encode_decode(m: RespModel)
    requires
        !(m is Array),
        m matches RespModel::Text(t) ==> text_encodable(t),
        m matches RespModel::Integer(v) ==> i64::MIN <= v <= i64::MAX,
        m matches RespModel::BulkString(b) ==> b.len() <= i64::MAX,
    ensures
        spec_parse(spec_encode(m)) == Some((m, spec_encode(m).len() as int)),
{
    let s = spec_encode(m);
    match m {
        RespModel::Text(t) => {
            assert(s.skip(1) =~= t + seq![CR, LF] + Seq::<u8>::empty());
            lemma_find_crlf_concat(t, Seq::<u8>::empty());
            assert(s.subrange(1, 1 + t.len() as int) =~= t);
            assert(s[0] == TEXT_PREFIX);
        },
        RespModel::Integer(v) => {
            let d = i64_digits(v);
            lemma_i64_digits_crlf_free(v);
            assert(s.skip(1) =~= d + seq![CR, LF] + Seq::<u8>::empty());
            lemma_find_crlf_concat(d, Seq::<u8>::empty());
            assert(s.subrange(1, 1 + d.len() as int) =~= d);
            lemma_parse_i64_digits(v);
            assert(s[0] == INTEGER_PREFIX);
            assert(s[0] != TEXT_PREFIX);
        },
        RespModel::BulkString(b) => {
            let d = i64_digits(b.len() as int);
            lemma_i64_digits_crlf_free(b.len() as int);
            assert(s.skip(1) =~= d + seq![CR, LF] + (b + seq![CR, LF]));
            lemma_find_crlf_concat(d, b + seq![CR, LF]);
            assert(s.subrange(1, 1 + d.len() as int) =~= d);
            lemma_parse_i64_digits(b.len() as int);
            let i = d.len() as int;
            assert(s.len() == i + 3 + b.len() + 2);
            assert(s[i + 3 + b.len() as int] == CR);
            assert(s[i + 3 + b.len() as int + 1] == LF);
            assert(s.subrange(i + 3, i + 3 + b.len() as int) =~= b);
            assert(s[0] == BULK_PREFIX);
        },
        RespModel::Null => {
            assert(s.skip(1) =~= seq![INTEGER_PREFIX, 49u8, CR, LF]);
            assert(find_crlf(seq![CR, LF]) == Some(0int));
            assert(seq![49u8, CR, LF].skip(1) =~= seq![CR, LF]);
            assert(find_crlf(seq![49u8, CR, LF]) == Some(1int));
            assert(seq![INTEGER_PREFIX, 49u8, CR, LF].skip(1) =~= seq![49u8, CR, LF]);
            assert(find_crlf(seq![INTEGER_PREFIX, 49u8, CR, LF]) == Some(2int));
            let hdr = s.subrange(1, 3);
            assert(hdr =~= seq![INTEGER_PREFIX, 49u8]);
            assert(hdr.skip(1) =~= seq![49u8]);
            assert(seq![49u8].drop_last() =~= Seq::<u8>::empty());
            assert(digits_val(Seq::<u8>::empty()) == 0);
            assert(digits_val(seq![49u8]) == 1);
            assert(spec_parse_i64(hdr) == Some(-1int));
            assert(s[0] == BULK_PREFIX);
        },
        RespModel::Array(_) => {},
    }
}

/// Law: decode-then-encode round-trips.  Any decoded status,
/// integer/error, bulk-string or null frame can ride the response
/// path: encoding it and decoding the result yields the same value
/// back, with the whole encoding consumed.
pub proof fn lemma_decode_encode(s: Seq<u8>, m: RespModel, n: int)
    requires
        spec_parse(s) == Some((m, n)),
        !(m is Array),
    ensures
        spec_parse(spec_encode(m)) == Some((m, spec_encode(m).len() as int)),
{
    lemma_find_crlf(s.skip(1));
    match m {
        RespModel::Text(t) => {
            assert(s[0] == TEXT_PREFIX);
            let i = find_crlf(s.skip(1)).unwrap();
            assert(t == s.subrange(1, 1 + i));
            assert forall|j: int| 0 <= j && j + 1 < t.len() implies !(#[trigger] t[j] == CR && t[j
                + 1] == LF) by {
                assert(t[j] == s.skip(1)[j]);
                assert(t[j + 1] == s.skip(1)[j + 1]);
            }
        },
        RespModel::Integer(_) => {
            assert(s[0] == INTEGER_PREFIX);
        },
        RespModel::BulkString(b) => {
            assert(s[0] == BULK_PREFIX);
            let i = find_crlf(s.skip(1)).unwrap();
            let len = spec_parse_i64(s.subrange(1, 1 + i)).unwrap();
            assert(b == s.subrange(i + 3, i + 3 + len));
            assert(b.len() == len);
        },
        _ => {},
    }
    lemma_encode_decode(m);
}

/// The numeral of `v` holds no carriage-return byte, hence no CRLF pair.
proof fn lemma_i64_digits_crlf_free(v: int)
    requires
        i64::MIN <= v <= i64::MAX,
    ensures
        forall|j: int|
            0 <= j && j + 1 < i64_digits(v).len() ==> !(#[trigger] i64_digits(v)[j] == CR
                && i64_digits(v)[j + 1] == LF),
{
    let d = i64_digits(v);
    if v < 0 {
        lemma_dec_digits_are_digits(-v);
        assert forall|j: int| 0 <= j && j + 1 < d.len() implies !(#[trigger] d[j] == CR && d[j
            + 1] == LF) by {
            if j > 0 {
                assert(d[j] == dec_digits(-v)[j - 1]);
                assert(is_digit(d[j]));
            }
        }
    } else {
        lemma_dec_digits_are_digits(v);
        assert forall|j: int| 0 <= j && j + 1 < d.len() implies !(#[trigger] d[j] == CR && d[j
            + 1] == LF) by {
            assert(is_digit(d[j]));
        }
    }
}

} // verus!
