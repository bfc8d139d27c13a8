//! The Redis Serialization Protocol (RESP): values, their encoding, and a
//! reader that takes one value off the front of a byte buffer.
use vstd::prelude::*;
use vstd::utf8::{decode_utf8, encode_utf8, valid_utf8};
use crate::decimal::{
    canonical_i64, int_text, nat_text, parse_canonical_i64, push_int_text, push_nat_text,
};
use crate::text::{owned, string_from_utf8, utf8_text};

verus! {

broadcast use vstd::utf8::group_utf8_lib;

/// A RESP value.
#[derive(Debug, PartialEq)]
pub enum Resp {
    /// `+<text>\r\n`
    SimpleString(String),
    /// `-<text>\r\n`
    Error(String),
    /// `:<number>\r\n`
    Integer(i64),
    /// `$<length>\r\n<bytes>\r\n`
    BulkString(Vec<u8>),
    /// `*<count>\r\n<items>`
    Array(Vec<Resp>),
    /// `$-1\r\n`
    Null,
}

/// The mathematical value of a `Resp`: strings as their characters, bytes as
/// sequences.
pub enum RespModel {
    SimpleString(Seq<char>),
    Error(Seq<char>),
    Integer(i64),
    BulkString(Seq<u8>),
    Array(Seq<RespModel>),
    Null,
}

impl Resp {
    /// The model of this value.
    pub open spec fn model(&self) -> RespModel
        decreases self,
    {
        match self {
            Resp::SimpleString(s) => RespModel::SimpleString(s@),
            Resp::Error(s) => RespModel::Error(s@),
            Resp::Integer(n) => RespModel::Integer(*n),
            Resp::BulkString(b) => RespModel::BulkString(b@),
            Resp::Array(items) => RespModel::Array(models(items@)),
            Resp::Null => RespModel::Null,
        }
    }
}

impl View for Resp {
    type V = RespModel;

    open spec fn view(&self) -> RespModel {
        self.model()
    }
}

/// The models of a sequence of values.
pub open spec fn models(items: Seq<Resp>) -> Seq<RespModel>
    decreases items,
{
    if items.len() == 0 {
        seq![]
    } else {
        models(items.drop_last()).push(items[items.len() - 1].model())
    }
}

/// The models of a sequence of values, item by item.
pub proof fn lemma_models(items: Seq<Resp>)
    ensures
        models(items).len() == items.len(),
        forall|i: int| 0 <= i < items.len() ==> #[trigger] models(items)[i] == items[i]@,
    decreases items.len(),
{
    if items.len() > 0 {
        lemma_models(items.drop_last());
    }
}

/// The models of a sequence that grew by one value.
pub proof fn lemma_models_push(items: Seq<Resp>, v: Resp)
    ensures
        models(items.push(v)) == models(items).push(v@),
{
    assert(items.push(v).drop_last() =~= items);
}

impl Clone for Resp {
    /// A copy of this value, item by item.
    fn clone(&self) -> (copy: Self)
        ensures
            copy@ == self@,
        decreases self,
    {
        match self {
            Resp::SimpleString(s) => Resp::SimpleString(s.clone()),
            Resp::Error(s) => Resp::Error(s.clone()),
            Resp::Integer(n) => Resp::Integer(*n),
            Resp::BulkString(b) => Resp::BulkString(vstd::slice::slice_to_vec(b.as_slice())),
            Resp::Array(items) => {
                let mut copies: Vec<Resp> = Vec::new();
                let mut i: usize = 0;
                proof {
                    lemma_models(items@);
                    assert(models(copies@) =~= models(items@).take(0));
                }
                while i < items.len()
                    invariant
                        i <= items@.len(),
                        *self is Array,
                        self->Array_0 == *items,
                        models(items@).len() == items@.len(),
                        forall|j: int| 0 <= j < items@.len() ==> #[trigger] models(items@)[j]
                            == items@[j]@,
                        models(copies@) == models(items@).take(i as int),
                    decreases items@.len() - i,
                {
                    proof {
                        assert(decreases_to!(*self => self->Array_0));
                        assert(decreases_to!(*items => items[i as int]));
                    }
                    let copy = items[i].clone();
                    proof {
                        lemma_models_push(copies@, copy);
                        assert(models(items@).take(i + 1) =~= models(items@).take(i as int).push(
                            copy@,
                        ));
                    }
                    copies.push(copy);
                    i = i + 1;
                }
                proof {
                    assert(models(items@).take(items@.len() as int) =~= models(items@));
                }
                Resp::Array(copies)
            },
            Resp::Null => Resp::Null,
        }
    }
}

/// Why a buffer does not hold a RESP value.
#[derive(Debug, Clone, Copy, PartialEq, Eq, Structural)]
pub enum RespError {
    /// The value starts with a byte that names no RESP type.
    UnknownType,
    /// A line holds a bare LF, or a CR that no LF follows.
    InvalidLine,
    /// A simple string or error line is not valid UTF-8.
    InvalidUtf8,
    /// An integer line is not the canonical text of an `i64`.
    InvalidInteger,
    /// A bulk string length is not `-1` or the canonical text of a
    /// non-negative `i64`, or an array count is not the latter.
    InvalidLength,
    /// The bytes of a bulk string are not followed by CRLF.
    MissingCrlf,
    /// The buffer ends before the value does.
    Incomplete,
    /// Bytes follow the value.
    TrailingBytes,
}

/// The text of each parse error, as the server reports it after `ERR `.
pub open spec fn error_text(e: RespError) -> Seq<char> {
    match e {
        RespError::UnknownType => "Protocol error: invalid type byte"@,
        RespError::InvalidLine => "Protocol error: invalid line ending"@,
        RespError::InvalidUtf8 => "Protocol error: invalid UTF-8 in line"@,
        RespError::InvalidInteger => "Protocol error: invalid integer"@,
        RespError::InvalidLength => "Protocol error: invalid length"@,
        RespError::MissingCrlf => "Protocol error: expected CRLF after bulk data"@,
        RespError::Incomplete => "Protocol error: incomplete value"@,
        RespError::TrailingBytes => "Protocol error: unexpected bytes after value"@,
    }
}

impl RespError {
    /// The text of this error.
    pub fn message(&self) -> (text: String)
        ensures
            text@ == error_text(*self),
    {
        match self {
            RespError::UnknownType => owned("Protocol error: invalid type byte"),
            RespError::InvalidLine => owned("Protocol error: invalid line ending"),
            RespError::InvalidUtf8 => owned("Protocol error: invalid UTF-8 in line"),
            RespError::InvalidInteger => owned("Protocol error: invalid integer"),
            RespError::InvalidLength => owned("Protocol error: invalid length"),
            RespError::MissingCrlf => owned("Protocol error: expected CRLF after bulk data"),
            RespError::Incomplete => owned("Protocol error: incomplete value"),
            RespError::TrailingBytes => owned("Protocol error: unexpected bytes after value"),
        }
    }
}

/// What the reader found at the front of a buffer.
#[derive(Debug, PartialEq)]
pub enum ParseFrame {
    /// A whole value, which took the first `consumed` bytes.
    Complete { resp: Resp, consumed: usize },
    /// The buffer holds only the beginning of a value.
    Incomplete,
}

// ---------------------------------------------------------------------------
// Encoding
// ---------------------------------------------------------------------------
/// `\r\n`
pub open spec fn crlf() -> Seq<u8> {
    seq![13u8, 10u8]
}

/// The bytes that encode `r`.
pub open spec fn encode_model(r: RespModel) -> Seq<u8>
    decreases r,
{
    match r {
        RespModel::SimpleString(s) => seq![43u8] + encode_utf8(s) + crlf(),
        RespModel::Error(s) => seq![45u8] + encode_utf8(s) + crlf(),
        RespModel::Integer(n) => seq![58u8] + int_text(n as int) + crlf(),
        RespModel::BulkString(b) => seq![36u8] + nat_text(b.len()) + crlf() + b + crlf(),
        RespModel::Array(items) => seq![42u8] + nat_text(items.len()) + crlf() + encode_items(
            items,
        ),
        RespModel::Null => seq![36u8, 45u8, 49u8, 13u8, 10u8],
    }
}

/// The encodings of `items`, one after the other.
pub open spec fn encode_items(items: Seq<RespModel>) -> Seq<u8>
    decreases items,
{
    if items.len() == 0 {
        seq![]
    } else {
        encode_items(items.drop_last()) + encode_model(items[items.len() - 1])
    }
}

impl Resp {
    /// The RESP bytes of this value.
    pub fn encode(&self) -> (out: Vec<u8>)
        ensures
            out@ == encode_model(self@),
        decreases self,
    {
        let mut out: Vec<u8> = Vec::new();
        match self {
            Resp::SimpleString(s) => {
                out.push(43u8);
                out.extend_from_slice(s.as_str().as_bytes());
                out.push(13u8);
                out.push(10u8);
            },
            Resp::Error(s) => {
                out.push(45u8);
                out.extend_from_slice(s.as_str().as_bytes());
                out.push(13u8);
                out.push(10u8);
            },
            Resp::Integer(n) => {
                out.push(58u8);
                push_int_text(&mut out, *n);
                out.push(13u8);
                out.push(10u8);
            },
            Resp::BulkString(bytes) => {
                out.push(36u8);
                push_nat_text(&mut out, bytes.len() as u64);
                out.push(13u8);
                out.push(10u8);
                out.extend_from_slice(bytes.as_slice());
                out.push(13u8);
                out.push(10u8);
            },
            Resp::Array(items) => {
                out.push(42u8);
                push_nat_text(&mut out, items.len() as u64);
                out.push(13u8);
                out.push(10u8);
                let ghost header = out@;
                let ghost m = models(items@);
                assert(encode_items(m.take(0)) =~= Seq::<u8>::empty());
                proof {
                    lemma_models(items@);
                }
                let mut i: usize = 0;
                while i < items.len()
                    invariant
                        i <= items@.len(),
                        *self is Array,
                        self->Array_0 == *items,
                        m == models(items@),
                        m.len() == items@.len(),
                        forall|j: int| 0 <= j < items@.len() ==> #[trigger] m[j] == items@[j]@,
                        out@ == header + encode_items(m.take(i as int)),
                    decreases items@.len() - i,
                {
                    let item = &items[i];
                    proof {
                        assert(decreases_to!(*self => self->Array_0));
                        assert(decreases_to!(*items => items[i as int]));
                    }
                    let bytes = item.encode();
                    out.extend_from_slice(bytes.as_slice());
                    assert(m.take(i + 1).drop_last() =~= m.take(i as int));
                    assert(m.take(i + 1)[i as int] == m[i as int]);
                    i = i + 1;
                }
                assert(m.take(items@.len() as int) =~= m);

            },
            Resp::Null => {
                out.push(36u8);
                out.push(45u8);
                out.push(49u8);
                out.push(13u8);
                out.push(10u8);
            },
        }
        assert(out@ =~= encode_model(self@));
        out
    }
}

// ---------------------------------------------------------------------------
// Reading: the specification
// ---------------------------------------------------------------------------
/// Where the line that starts at `i` ends.
pub enum LineEnd {
    /// At `Found(e)`: bytes `e` and `e + 1` are CR LF, and no CR or LF comes
    /// before them in the line.
    Found(int),
    /// The buffer ends before the line does.
    Incomplete,
    /// The line holds a bare LF, or a CR that no LF follows.
    Invalid,
}

/// The end of the line of `s` that starts at `i`.
pub open spec fn line_end(s: Seq<u8>, i: int) -> LineEnd
    decreases s.len() - i,
{
    if i < 0 || i >= s.len() {
        LineEnd::Incomplete
    } else if s[i] == 10 {
        LineEnd::Invalid
    } else if s[i] == 13 {
        if i + 1 >= s.len() {
            LineEnd::Incomplete
        } else if s[i + 1] == 10 {
            LineEnd::Found(i)
        } else {
            LineEnd::Invalid
        }
    } else {
        line_end(s, i + 1)
    }
}

/// What the reader makes of the bytes from a position on.
pub enum Decoded {
    /// A value, which ends just before the given position.
    Complete(RespModel, int),
    /// The bytes are the beginning of a value, not a whole one.
    Incomplete,
    /// The bytes cannot begin a value.
    Invalid(RespError),
}

/// Whether `b` is the first byte of some RESP type.
pub open spec fn is_type_byte(b: u8) -> bool {
    b == 43 || b == 45 || b == 58 || b == 36 || b == 42
}

/// The value that starts at `pos` in `s`.
pub open spec fn decode_value(s: Seq<u8>, pos: int) -> Decoded
    decreases s.len() - pos, 0int, 0int,
{
    if pos < 0 || pos >= s.len() {
        Decoded::Incomplete
    } else if !is_type_byte(s[pos]) {
        Decoded::Invalid(RespError::UnknownType)
    } else {
        let tag = s[pos];
        match line_end(s, pos + 1) {
            LineEnd::Incomplete => Decoded::Incomplete,
            LineEnd::Invalid => Decoded::Invalid(RespError::InvalidLine),
            LineEnd::Found(e) => {
                let body = s.subrange(pos + 1, e);
                let next = e + 2;
                if tag == 43 || tag == 45 {
                    match utf8_text(body) {
                        Some(t) => Decoded::Complete(
                            if tag == 43 {
                                RespModel::SimpleString(t)
                            } else {
                                RespModel::Error(t)
                            },
                            next,
                        ),
                        None => Decoded::Invalid(RespError::InvalidUtf8),
                    }
                } else if tag == 58 {
                    match canonical_i64(body) {
                        Some(n) => Decoded::Complete(RespModel::Integer(n), next),
                        None => Decoded::Invalid(RespError::InvalidInteger),
                    }
                } else {
                    match canonical_i64(body) {
                        None => Decoded::Invalid(RespError::InvalidLength),
                        Some(n) => if n == -1 && tag == 36 {
                            Decoded::Complete(RespModel::Null, next)
                        } else if n < 0 {
                            Decoded::Invalid(RespError::InvalidLength)
                        } else if tag == 36 {
                            if next + n + 2 > s.len() {
                                Decoded::Incomplete
                            } else if s[next + n] == 13 && s[next + n + 1] == 10 {
                                Decoded::Complete(
                                    RespModel::BulkString(s.subrange(next, next + n)),
                                    next + n + 2,
                                )
                            } else {
                                Decoded::Invalid(RespError::MissingCrlf)
                            }
                        } else {
                            proof {
                                lemma_line_end(s, pos + 1);
                            }
                            decode_items(s, next, n as int, seq![])
                        },
                    }
                }
            },
        }
    }
}

/// The array whose first `acc.len()` items are `acc` and whose `count` other
/// items start at `pos` in `s`.
pub open spec fn decode_items(s: Seq<u8>, pos: int, count: int, acc: Seq<RespModel>) -> Decoded
    decreases s.len() - pos, 1int, count,
{
    if count <= 0 {
        Decoded::Complete(RespModel::Array(acc), pos)
    } else if pos > s.len() {
        Decoded::Incomplete
    } else {
        match decode_value(s, pos) {
            Decoded::Complete(v, e) => if pos < e <= s.len() {
                decode_items(s, e, count - 1, acc.push(v))
            } else {
                Decoded::Invalid(RespError::InvalidLength)
            },
            Decoded::Incomplete => Decoded::Incomplete,
            Decoded::Invalid(err) => Decoded::Invalid(err),
        }
    }
}

/// What `Resp::parse_frame` gives on `s`.
pub open spec fn frame_result(s: Seq<u8>, r: Result<ParseFrame, RespError>) -> bool {
    match decode_value(s, 0) {
        Decoded::Complete(v, e) => r matches Ok(ParseFrame::Complete { resp, consumed }) && resp@
            == v && consumed == e,
        Decoded::Incomplete => r matches Ok(ParseFrame::Incomplete),
        Decoded::Invalid(err) => r == Err::<ParseFrame, RespError>(err),
    }
}

/// What `Resp::parse` gives on `s`: the value, where it takes up the whole
/// buffer.
pub open spec fn parse_result(s: Seq<u8>, r: Result<Resp, RespError>) -> bool {
    match decode_value(s, 0) {
        Decoded::Complete(v, e) => if e == s.len() {
            r matches Ok(resp) && resp@ == v
        } else {
            r == Err::<Resp, RespError>(RespError::TrailingBytes)
        },
        Decoded::Incomplete => r == Err::<Resp, RespError>(RespError::Incomplete),
        Decoded::Invalid(err) => r == Err::<Resp, RespError>(err),
    }
}

/// A line that the reader finds ends inside the buffer, after its start, and
/// holds no CR or LF.
pub proof fn lemma_line_end(s: Seq<u8>, i: int)
    ensures
        line_end(s, i) matches LineEnd::Found(e) ==> {
            &&& 0 <= i <= e
            &&& e + 2 <= s.len()
            &&& s[e] == 13
            &&& s[e + 1] == 10
            &&& forall|j: int| i <= j < e ==> s[j] != 13 && s[j] != 10
        },
    decreases s.len() - i,
{
    if 0 <= i < s.len() && s[i] != 10 && s[i] != 13 {
        lemma_line_end(s, i + 1);
    }
}

/// A value that the reader finds ends after its start and inside the buffer.
pub proof fn lemma_decode_end(s: Seq<u8>, pos: int)
    ensures
        decode_value(s, pos) matches Decoded::Complete(v, e) ==> pos < e <= s.len(),
    decreases s.len() - pos, 0int, 0int,
{
    if 0 <= pos < s.len() && is_type_byte(s[pos]) {
        lemma_line_end(s, pos + 1);
        if let LineEnd::Found(e) = line_end(s, pos + 1) {
            let tag = s[pos];
            if tag == 42 {
                if let Some(n) = canonical_i64(s.subrange(pos + 1, e)) {
                    if n >= 0 {
                        lemma_decode_items_end(s, e + 2, n as int, seq![]);
                    }
                }
            }
        }
    }
}

/// An array that the reader finds ends at or after the position of its
/// items, inside the buffer.
pub proof fn lemma_decode_items_end(s: Seq<u8>, pos: int, count: int, acc: Seq<RespModel>)
    requires
        pos <= s.len(),
    ensures
        decode_items(s, pos, count, acc) matches Decoded::Complete(v, e) ==> pos <= e <= s.len(),
    decreases s.len() - pos, 1int, count,
{
    if count > 0 {
        lemma_decode_end(s, pos);
        if let Decoded::Complete(v, e) = decode_value(s, pos) {
            if pos < e <= s.len() {
                lemma_decode_items_end(s, e, count - 1, acc.push(v));
            }
        }
    }
}

/// The items of an array that the reader finds are the ones it had plus the
/// `count` it read.
pub proof fn lemma_decode_items_len(s: Seq<u8>, pos: int, count: int, acc: Seq<RespModel>)
    ensures
        decode_items(s, pos, count, acc) matches Decoded::Complete(RespModel::Array(a), e)
            ==> a.len() == acc.len() + (if count > 0 {
            count
        } else {
            0
        }),
    decreases s.len() - pos, count,
{
    if count > 0 && pos <= s.len() {
        if let Decoded::Complete(v, e) = decode_value(s, pos) {
            if pos < e <= s.len() {
                lemma_decode_items_len(s, e, count - 1, acc.push(v));
            }
        }
    }
}

/// An array that the reader finds has at most `i64::MAX` items.
pub proof fn lemma_decode_array_len(s: Seq<u8>, pos: int)
    ensures
        decode_value(s, pos) matches Decoded::Complete(RespModel::Array(items), e) ==> items.len()
            <= i64::MAX,
{
    if 0 <= pos < s.len() && is_type_byte(s[pos]) && s[pos] == 42 {
        if let LineEnd::Found(e) = line_end(s, pos + 1) {
            if let Some(n) = canonical_i64(s.subrange(pos + 1, e)) {
                if n >= 0 {
                    lemma_decode_items_len(s, e + 2, n as int, seq![]);
                }
            }
        }
    }
}

// ---------------------------------------------------------------------------
// Reading: the implementation
// ---------------------------------------------------------------------------
/// Whether the result of reading a value matches what the specification
/// gives.
pub open spec fn read_matches(r: Result<Option<(Resp, usize)>, RespError>, d: Decoded) -> bool {
    match d {
        Decoded::Complete(v, e) => r matches Ok(Some((x, k))) && x@ == v && k == e,
        Decoded::Incomplete => r matches Ok(None),
        Decoded::Invalid(err) => r == Err::<Option<(Resp, usize)>, RespError>(err),
    }
}

/// Finds the end of the line that starts at `start`.
fn scan_line(buf: &[u8], start: usize) -> (result: Result<Option<usize>, RespError>)
    requires
        start <= buf@.len(),
    ensures
        match line_end(buf@, start as int) {
            LineEnd::Found(e) => result == Ok::<Option<usize>, RespError>(Some(e as usize)),
            LineEnd::Incomplete => result == Ok::<Option<usize>, RespError>(None),
            LineEnd::Invalid => result == Err::<Option<usize>, RespError>(RespError::InvalidLine),
        },
{
    let mut i: usize = start;
    while i < buf.len()
        invariant
            start <= i <= buf@.len(),
            line_end(buf@, start as int) == line_end(buf@, i as int),
        decreases buf@.len() - i,
    {
        let b = buf[i];
        if b == 10u8 {
            return Err(RespError::InvalidLine);
        }
        if b == 13u8 {
            if i + 1 >= buf.len() {
                return Ok(None);
            }
            if buf[i + 1] == 10u8 {
                return Ok(Some(i));
            }
            return Err(RespError::InvalidLine);
        }
        i = i + 1;
    }
    Ok(None)
}

/// The bytes `buf[start..end]` as a new vector.
fn copy_range(buf: &[u8], start: usize, end: usize) -> (out: Vec<u8>)
    requires
        start <= end <= buf@.len(),
    ensures
        out@ == buf@.subrange(start as int, end as int),
{
    vstd::slice::slice_to_vec(vstd::slice::slice_subrange(buf, start, end))
}

/// Reads the value that starts at `pos`.
fn read_value(buf: &[u8], pos: usize) -> (result: Result<Option<(Resp, usize)>, RespError>)
    requires
        pos <= buf@.len(),
    ensures
        read_matches(result, decode_value(buf@, pos as int)),
    decreases buf@.len() - pos,
{
    if pos >= buf.len() {
        return Ok(None);
    }
    let tag = buf[pos];
    if !(tag == 43u8 || tag == 45u8 || tag == 58u8 || tag == 36u8 || tag == 42u8) {
        return Err(RespError::UnknownType);
    }
    proof {
        lemma_line_end(buf@, pos + 1);
    }
    let e = match scan_line(buf, pos + 1) {
        Err(err) => {
            return Err(err);
        },
        Ok(None) => {
            return Ok(None);
        },
        Ok(Some(e)) => e,
    };
    let next = e + 2;
    if tag == 43u8 || tag == 45u8 {
        let body = copy_range(buf, pos + 1, e);
        match string_from_utf8(body) {
            Some(text) => {
                let value = if tag == 43u8 {
                    Resp::SimpleString(text)
                } else {
                    Resp::Error(text)
                };
                Ok(Some((value, next)))
            },
            None => Err(RespError::InvalidUtf8),
        }
    } else if tag == 58u8 {
        match parse_canonical_i64(buf, pos + 1, e) {
            Some(n) => Ok(Some((Resp::Integer(n), next))),
            None => Err(RespError::InvalidInteger),
        }
    } else {
        let n = match parse_canonical_i64(buf, pos + 1, e) {
            None => {
                return Err(RespError::InvalidLength);
            },
            Some(n) => n,
        };
        if n == -1 && tag == 36u8 {
            return Ok(Some((Resp::Null, next)));
        }
        if n < 0 {
            return Err(RespError::InvalidLength);
        }
        if tag == 36u8 {
            let available: usize = buf.len() - next;
            if (n as u64) >= (available as u64) {
                return Ok(None);
            }
            let len: usize = n as usize;
            if available - len < 2 {
                return Ok(None);
            }
            let data_end = next + len;
            if buf[data_end] == 13u8 && buf[data_end + 1] == 10u8 {
                let data = copy_range(buf, next, data_end);
                Ok(Some((Resp::BulkString(data), data_end + 2)))
            } else {
                Err(RespError::MissingCrlf)
            }
        } else {
            read_items(buf, pos, next, n)
        }
    }
}

/// Reads the `count` items of an array that start at `start`; the array's
/// header starts at `pos`.
fn read_items(buf: &[u8], pos: usize, start: usize, count: i64) -> (result: Result<
    Option<(Resp, usize)>,
    RespError,
>)
    requires
        pos < start <= buf@.len(),
        count >= 0,
    ensures
        read_matches(result, decode_items(buf@, start as int, count as int, seq![])),
    decreases buf@.len() - pos, 0int,
{
    let mut items: Vec<Resp> = Vec::new();
    let mut p: usize = start;
    let mut i: i64 = 0;
    assert(models(items@) =~= Seq::<RespModel>::empty());
    while i < count
        invariant
            pos < start <= p <= buf@.len(),
            0 <= i <= count,
            decode_items(buf@, start as int, count as int, seq![]) == decode_items(
                buf@,
                p as int,
                (count - i) as int,
                models(items@),
            ),
        decreases count - i,
    {
        proof {
            lemma_decode_end(buf@, p as int);
        }
        match read_value(buf, p) {
            Err(err) => {
                return Err(err);
            },
            Ok(None) => {
                return Ok(None);
            },
            Ok(Some((v, e))) => {
                proof {
                    lemma_models_push(items@, v);
                }
                items.push(v);
                p = e;
            },
        }
        i = i + 1;
    }
    let value = Resp::Array(items);
    Ok(Some((value, p)))
}

impl Resp {
    /// Reads the value at the front of `input`: the value and how many bytes
    /// it took, or `Incomplete` where `input` holds only its beginning.
    pub fn parse_frame(input: &[u8]) -> (result: Result<ParseFrame, RespError>)
        ensures
            frame_result(input@, result),
    {
        match read_value(input, 0) {
            Err(err) => Err(err),
            Ok(None) => Ok(ParseFrame::Incomplete),
            Ok(Some((resp, consumed))) => Ok(ParseFrame::Complete { resp, consumed }),
        }
    }

    /// Reads `input` as exactly one value.
    pub fn parse(input: &[u8]) -> (result: Result<Resp, RespError>)
        ensures
            parse_result(input@, result),
    {
        match read_value(input, 0) {
            Err(err) => Err(err),
            Ok(None) => Err(RespError::Incomplete),
            Ok(Some((resp, consumed))) => {
                if consumed == input.len() {
                    Ok(resp)
                } else {
                    Err(RespError::TrailingBytes)
                }
            },
        }
    }
}

// ---------------------------------------------------------------------------
// Laws
// ---------------------------------------------------------------------------
/// Whether no byte of `b` is CR or LF.
pub open spec fn no_line_break(b: Seq<u8>) -> bool {
    forall|i: int| 0 <= i < b.len() ==> b[i] != 13 && b[i] != 10
}

/// The values that the encoding represents faithfully: simple strings and
/// errors without CR or LF, and lengths and counts that fit in an `i64`.
pub open spec fn well_formed(r: RespModel) -> bool
    decreases r,
{
    match r {
        RespModel::SimpleString(t) => no_line_break(encode_utf8(t)),
        RespModel::Error(t) => no_line_break(encode_utf8(t)),
        RespModel::Integer(_) => true,
        RespModel::BulkString(b) => b.len() <= i64::MAX,
        RespModel::Array(items) => items.len() <= i64::MAX && all_well_formed(items),
        RespModel::Null => true,
    }
}

/// Whether every value of `items` is well formed.
pub open spec fn all_well_formed(items: Seq<RespModel>) -> bool
    decreases items,
{
    if items.len() == 0 {
        true
    } else {
        all_well_formed(items.drop_last()) && well_formed(items[items.len() - 1])
    }
}

proof fn lemma_all_well_formed(items: Seq<RespModel>)
    ensures
        all_well_formed(items) <==> forall|i: int|
            0 <= i < items.len() ==> #[trigger] well_formed(items[i]),
    decreases items.len(),
{
    if items.len() > 0 {
        lemma_all_well_formed(items.drop_last());
        if forall|i: int| 0 <= i < items.len() ==> #[trigger] well_formed(items[i]) {
            assert forall|i: int|
                0 <= i < items.drop_last().len() implies #[trigger] well_formed(
                items.drop_last()[i],
            ) by {
                assert(items.drop_last()[i] == items[i]);
            }
            assert(well_formed(items[items.len() - 1]));
            assert(all_well_formed(items));
        }
        if all_well_formed(items) {
            assert forall|i: int| 0 <= i < items.len() implies #[trigger] well_formed(
                items[i],
            ) by {
                if i < items.len() - 1 {
                    assert(items.drop_last()[i] == items[i]);
                }
            }
        }
    }
}

/// The encoding of two runs of values is the encoding of the first followed
/// by that of the second.
pub proof fn lemma_encode_items_append(a: Seq<RespModel>, b: Seq<RespModel>)
    ensures
        encode_items(a + b) == encode_items(a) + encode_items(b),
    decreases b.len(),
{
    if b.len() == 0 {
        assert(a + b =~= a);
        assert(encode_items(a) + encode_items(b) =~= encode_items(a));
    } else {
        lemma_encode_items_append(a, b.drop_last());
        assert((a + b).drop_last() =~= a + b.drop_last());
        assert((a + b)[(a + b).len() - 1] == b[b.len() - 1]);
        assert(encode_items(a + b) =~= encode_items(a) + encode_items(b));
    }
}

/// A line of `s` that runs from `i` to a CR LF at `e`, with no CR or LF
/// before it, ends at `e`.
proof fn lemma_line_end_at(s: Seq<u8>, i: int, e: int)
    requires
        0 <= i <= e,
        e + 2 <= s.len(),
        s[e] == 13,
        s[e + 1] == 10,
        forall|j: int| i <= j < e ==> s[j] != 13 && s[j] != 10,
    ensures
        line_end(s, i) == LineEnd::Found(e),
    decreases e - i,
{
    if i < e {
        lemma_line_end_at(s, i + 1, e);
    }
}

/// The bytes of `s` from `pos` on begin with `t`.
pub open spec fn holds_at(s: Seq<u8>, pos: int, t: Seq<u8>) -> bool {
    0 <= pos && pos + t.len() <= s.len() && s.subrange(pos, pos + t.len()) == t
}

/// A line `tag body CR LF` at `pos` of `s`, whose body holds no CR or LF,
/// ends after the body.
proof fn lemma_encoded_line(s: Seq<u8>, pos: int, tag: u8, body: Seq<u8>)
    requires
        holds_at(s, pos, seq![tag] + body + crlf()),
        no_line_break(body),
    ensures
        s[pos] == tag,
        s.subrange(pos + 1, pos + 1 + body.len()) == body,
        line_end(s, pos + 1) == LineEnd::Found(pos + 1 + body.len()),
{
    let t = seq![tag] + body + crlf();
    let e = pos + 1 + body.len();
    assert(s[pos] == t[0]);
    assert(s[e] == t[1 + body.len() as int]);
    assert(s[e + 1] == t[2 + body.len() as int]);
    assert forall|j: int| pos + 1 <= j < e implies s[j] != 13 && s[j] != 10 by {
        assert(s[j] == t[j - pos]);
        assert(t[j - pos] == body[j - pos - 1]);
    }
    assert(s.subrange(pos + 1, e) =~= body) by {
        assert forall|j: int| 0 <= j < body.len() implies s.subrange(pos + 1, e)[j] == body[j] by {
            assert(s[pos + 1 + j] == t[1 + j]);
        }
    }
    lemma_line_end_at(s, pos + 1, e);
}

/// The canonical text of a number has no CR or LF.
proof fn lemma_int_text_no_line_break(i: int)
    ensures
        no_line_break(int_text(i)),
{
    crate::decimal::lemma_nat_text((if i < 0 {
        -i
    } else {
        i
    }) as nat);
    let t = int_text(i);
    assert forall|j: int| 0 <= j < t.len() implies t[j] != 13 && t[j] != 10 by {
        if i < 0 {
            if j > 0 {
                assert(t[j] == nat_text((-i) as nat)[j - 1]);
            }
        }
    }
}

/// Law: the reader gives back every well-formed value from its encoding,
/// whatever bytes follow it, and takes exactly the encoding's bytes.
pub proof fn lemma_decode_encoded(s: Seq<u8>, pos: int, r: RespModel)
    requires
        well_formed(r),
        holds_at(s, pos, encode_model(r)),
    ensures
        decode_value(s, pos) == Decoded::Complete(r, pos + encode_model(r).len()),
    decreases r,
{
    let enc = encode_model(r);
    let end = pos + enc.len();
    match r {
        RespModel::SimpleString(t) => {
            lemma_encoded_line(s, pos, 43u8, encode_utf8(t));
            assert(utf8_text(encode_utf8(t)) == Some(t));
        },
        RespModel::Error(t) => {
            lemma_encoded_line(s, pos, 45u8, encode_utf8(t));
            assert(utf8_text(encode_utf8(t)) == Some(t));
        },
        RespModel::Integer(n) => {
            lemma_int_text_no_line_break(n as int);
            lemma_encoded_line(s, pos, 58u8, int_text(n as int));
            crate::decimal::lemma_i64_text_roundtrip(n);
        },
        RespModel::Null => {
            let body = int_text(-1);
            assert(body =~= seq![45u8, 49u8]);
            assert(enc =~= seq![36u8] + body + crlf());
            lemma_int_text_no_line_break(-1);
            lemma_encoded_line(s, pos, 36u8, body);
            crate::decimal::lemma_i64_text_roundtrip(-1i64);
        },
        RespModel::BulkString(b) => {
            let n = b.len();
            let head = seq![36u8] + nat_text(n) + crlf();
            assert(int_text(n as int) == nat_text(n));
            lemma_int_text_no_line_break(n as int);
            assert(holds_at(s, pos, head)) by {
                assert(s.subrange(pos, pos + head.len()) =~= enc.subrange(0, head.len() as int));
                assert(enc.subrange(0, head.len() as int) =~= head);
            }
            lemma_encoded_line(s, pos, 36u8, nat_text(n));
            crate::decimal::lemma_i64_text_roundtrip(n as i64);
            let next = pos + head.len();
            assert(s.subrange(next, next + n) =~= b) by {
                assert forall|j: int| 0 <= j < n implies s.subrange(next, next + n)[j] == b[j] by {
                    assert(s[next + j] == enc[head.len() + j]);
                }
            }
            assert(s[next + n] == enc[(head.len() + n) as int]);
            assert(s[next + n + 1] == enc[(head.len() + n + 1) as int]);
        },
        RespModel::Array(items) => {
            let n = items.len();
            let head = seq![42u8] + nat_text(n) + crlf();
            assert(int_text(n as int) == nat_text(n));
            lemma_int_text_no_line_break(n as int);
            assert(holds_at(s, pos, head)) by {
                assert(s.subrange(pos, pos + head.len()) =~= enc.subrange(0, head.len() as int));
                assert(enc.subrange(0, head.len() as int) =~= head);
            }
            lemma_encoded_line(s, pos, 42u8, nat_text(n));
            crate::decimal::lemma_i64_text_roundtrip(n as i64);
            let next = pos + head.len();
            assert(holds_at(s, next, encode_items(items))) by {
                assert(s.subrange(next, next + encode_items(items).len()) =~= encode_items(items))
                    by {
                    assert forall|j: int| 0 <= j < encode_items(items).len() implies s.subrange(
                        next,
                        next + encode_items(items).len(),
                    )[j] == encode_items(items)[j] by {
                        assert(s[next + j] == enc[head.len() + j]);
                    }
                }
            }
            lemma_decode_encoded_items(s, next, items, seq![]);
            assert(seq![] + items =~= items);
        },
    }
}

/// The reader gives back the items of a run of well-formed values from their
/// encoding.
proof fn lemma_decode_encoded_items(
    s: Seq<u8>,
    pos: int,
    rest: Seq<RespModel>,
    acc: Seq<RespModel>,
)
    requires
        all_well_formed(rest),
        holds_at(s, pos, encode_items(rest)),
    ensures
        decode_items(s, pos, rest.len() as int, acc) == Decoded::Complete(
            RespModel::Array(acc + rest),
            pos + encode_items(rest).len(),
        ),
    decreases rest,
{
    if rest.len() == 0 {
        assert(acc + rest =~= acc);
    } else {
        let x = rest[0];
        let tail = rest.subrange(1, rest.len() as int);
        assert(rest =~= seq![x] + tail);
        lemma_encode_items_append(seq![x], tail);
        assert(seq![x].drop_last() =~= Seq::<RespModel>::empty());
        assert(seq![x][0] == x);
        assert(encode_items(seq![x]) == encode_items(seq![x].drop_last()) + encode_model(x));
        assert(encode_items(seq![x]) =~= encode_model(x));
        lemma_all_well_formed(rest);
        lemma_all_well_formed(tail);
        assert forall|i: int| 0 <= i < tail.len() implies #[trigger] well_formed(tail[i]) by {
            assert(tail[i] == rest[i + 1]);
        }
        assert(well_formed(rest[0]));
        let ex = encode_model(x);
        let et = encode_items(tail);
        assert(encode_items(rest) =~= ex + et);
        assert(holds_at(s, pos, ex)) by {
            assert forall|j: int| 0 <= j < ex.len() implies s.subrange(pos, pos + ex.len())[j]
                == ex[j] by {
                assert(s[pos + j] == encode_items(rest)[j]);
            }
            assert(s.subrange(pos, pos + ex.len()) =~= ex);
        }
        assert(holds_at(s, pos + ex.len(), et)) by {
            assert forall|j: int| 0 <= j < et.len() implies s.subrange(
                pos + ex.len(),
                pos + ex.len() + et.len(),
            )[j] == et[j] by {
                assert(s[pos + ex.len() + j] == encode_items(rest)[ex.len() + j]);
            }
            assert(s.subrange(pos + ex.len(), pos + ex.len() + et.len()) =~= et);
        }
        assert(decreases_to!(rest => rest[0]));
        lemma_decode_encoded(s, pos, x);
        assert(ex.len() > 0);
        lemma_decode_encoded_items(s, pos + ex.len(), tail, acc.push(x));
        assert(acc.push(x) + tail =~= acc + rest);
    }
}

/// Law: `Resp::parse` gives back every well-formed value from its encoding.
pub proof fn lemma_parse_encoded(r: RespModel)
    requires
        well_formed(r),
    ensures
        decode_value(encode_model(r), 0) == Decoded::Complete(r, encode_model(r).len() as int),
{
    let s = encode_model(r);
    assert(s.subrange(0, s.len() as int) =~= s);
    lemma_decode_encoded(s, 0, r);
}

/// Law: a value at the front of a buffer is read the same way whatever
/// bytes follow it; `Resp::parse_frame` takes exactly its encoding.
pub proof fn lemma_parse_frame_encoded(r: RespModel, rest: Seq<u8>)
    requires
        well_formed(r),
    ensures
        decode_value(encode_model(r) + rest, 0) == Decoded::Complete(
            r,
            encode_model(r).len() as int,
        ),
{
    let s = encode_model(r) + rest;
    assert(s.subrange(0, encode_model(r).len() as int) =~= encode_model(r));
    lemma_decode_encoded(s, 0, r);
}

/// Whether the bytes of `s` from `pos` to its end are the first bytes of `t`.
pub open spec fn prefix_at(s: Seq<u8>, pos: int, t: Seq<u8>) -> bool {
    &&& 0 <= pos <= s.len()
    &&& s.len() - pos <= t.len()
    &&& forall|j: int| pos <= j < s.len() ==> s[j] == t[j - pos]
}

/// A line whose body has no CR or LF and that the buffer cuts off before its
/// CR LF is complete reads as unfinished.
proof fn lemma_line_cut(s: Seq<u8>, i: int, e: int)
    requires
        0 <= i <= e,
        s.len() <= e + 1,
        forall|j: int| i <= j < e && j < s.len() ==> s[j] != 13 && s[j] != 10,
        s.len() == e + 1 ==> s[e] == 13,
    ensures
        line_end(s, i) == LineEnd::Incomplete,
    decreases s.len() - i,
{
    if i < s.len() && i < e {
        lemma_line_cut(s, i + 1, e);
    }
}

/// Where the buffer holds the first bytes of `tag body CR LF ...` from `pos`
/// and ends before the line does, the line reads as unfinished.
proof fn lemma_header_cut(s: Seq<u8>, pos: int, t: Seq<u8>, tag: u8, body: Seq<u8>)
    requires
        prefix_at(s, pos, t),
        pos < s.len() <= pos + body.len() + 2,
        t.len() >= body.len() + 3,
        t.subrange(0, body.len() + 3int) == seq![tag] + body + crlf(),
        no_line_break(body),
    ensures
        line_end(s, pos + 1) == LineEnd::Incomplete,
{
    let h = seq![tag] + body + crlf();
    let e = pos + 1 + body.len();
    assert forall|j: int| pos + 1 <= j < e && j < s.len() implies s[j] != 13 && s[j] != 10 by {
        assert(s[j] == t[j - pos]);
        assert(t[j - pos] == t.subrange(0, body.len() + 3int)[j - pos]);
        assert(h[j - pos] == body[j - pos - 1]);
    }
    if s.len() == e + 1 {
        assert(s[e] == t[e - pos]);
        assert(t[e - pos] == t.subrange(0, body.len() + 3int)[e - pos]);
        assert(h[e - pos] == 13);
    }
    lemma_line_cut(s, pos + 1, e);
}

/// Where the buffer holds all of `t`'s first `n` bytes from `pos`, they are there.
proof fn lemma_prefix_holds(s: Seq<u8>, pos: int, t: Seq<u8>, n: int)
    requires
        prefix_at(s, pos, t),
        0 <= n <= t.len(),
        pos + n <= s.len(),
    ensures
        holds_at(s, pos, t.subrange(0, n)),
{
    assert(s.subrange(pos, pos + n) =~= t.subrange(0, n)) by {
        assert forall|j: int| 0 <= j < n implies s.subrange(pos, pos + n)[j] == t.subrange(
            0,
            n,
        )[j] by {
            assert(s[pos + j] == t[j]);
        }
    }
}

/// Law: a buffer that holds only a strict beginning of the encoding of a
/// well-formed value reads as unfinished, so the reader waits for more bytes.
pub proof fn lemma_decode_cut(s: Seq<u8>, pos: int, r: RespModel)
    requires
        well_formed(r),
        prefix_at(s, pos, encode_model(r)),
        s.len() < pos + encode_model(r).len(),
    ensures
        decode_value(s, pos) == Decoded::Incomplete,
    decreases r,
{
    let enc = encode_model(r);
    if pos == s.len() {
        return ;
    }
    assert(s[pos] == enc[0]);
    match r {
        RespModel::SimpleString(t) => {
            assert(enc.subrange(0, encode_utf8(t).len() + 3int) =~= enc);
            lemma_header_cut(s, pos, enc, 43u8, encode_utf8(t));
        },
        RespModel::Error(t) => {
            assert(enc.subrange(0, encode_utf8(t).len() + 3int) =~= enc);
            lemma_header_cut(s, pos, enc, 45u8, encode_utf8(t));
        },
        RespModel::Integer(n) => {
            lemma_int_text_no_line_break(n as int);
            assert(enc.subrange(0, int_text(n as int).len() + 3int) =~= enc);
            lemma_header_cut(s, pos, enc, 58u8, int_text(n as int));
        },
        RespModel::Null => {
            let body = int_text(-1);
            assert(body =~= seq![45u8, 49u8]);
            lemma_int_text_no_line_break(-1);
            assert(enc.subrange(0, body.len() + 3int) =~= seq![36u8] + body + crlf());
            lemma_header_cut(s, pos, enc, 36u8, body);
        },
        RespModel::BulkString(b) => {
            let n = b.len();
            let body = nat_text(n);
            let head = seq![36u8] + body + crlf();
            assert(int_text(n as int) == nat_text(n));
            lemma_int_text_no_line_break(n as int);
            assert(enc.subrange(0, body.len() + 3int) =~= head);
            if s.len() <= pos + body.len() + 2 {
                lemma_header_cut(s, pos, enc, 36u8, body);
            } else {
                lemma_prefix_holds(s, pos, enc, head.len() as int);
                lemma_encoded_line(s, pos, 36u8, body);
                crate::decimal::lemma_i64_text_roundtrip(n as i64);
            }
        },
        RespModel::Array(items) => {
            let n = items.len();
            let body = nat_text(n);
            let head = seq![42u8] + body + crlf();
            assert(int_text(n as int) == nat_text(n));
            lemma_int_text_no_line_break(n as int);
            assert(enc.subrange(0, body.len() + 3int) =~= head);
            if s.len() <= pos + body.len() + 2 {
                lemma_header_cut(s, pos, enc, 42u8, body);
            } else {
                lemma_prefix_holds(s, pos, enc, head.len() as int);
                lemma_encoded_line(s, pos, 42u8, body);
                crate::decimal::lemma_i64_text_roundtrip(n as i64);
                let next = pos + head.len();
                let ei = encode_items(items);
                assert(enc =~= head + ei);
                assert forall|j: int| next <= j < s.len() implies s[j] == ei[j - next] by {
                    assert(s[j] == enc[j - pos]);
                }
                lemma_decode_cut_items(s, next, items, seq![]);
            }
        },
    }
}

/// A buffer that holds only a strict beginning of the encodings of a run of
/// well-formed values reads as an unfinished array.
proof fn lemma_decode_cut_items(s: Seq<u8>, pos: int, rest: Seq<RespModel>, acc: Seq<RespModel>)
    requires
        all_well_formed(rest),
        prefix_at(s, pos, encode_items(rest)),
        s.len() < pos + encode_items(rest).len(),
    ensures
        decode_items(s, pos, rest.len() as int, acc) == Decoded::Incomplete,
    decreases rest,
{
    if rest.len() == 0 {
        assert(encode_items(rest).len() == 0);
    } else {
        let x = rest[0];
        let tail = rest.subrange(1, rest.len() as int);
        assert(rest =~= seq![x] + tail);
        lemma_encode_items_append(seq![x], tail);
        assert(seq![x][0] == x);
        assert(encode_items(seq![x]) == encode_items(seq![x].drop_last()) + encode_model(x));
        assert(encode_items(seq![x]) =~= encode_model(x));
        lemma_all_well_formed(rest);
        lemma_all_well_formed(tail);
        assert forall|i: int| 0 <= i < tail.len() implies #[trigger] well_formed(tail[i]) by {
            assert(tail[i] == rest[i + 1]);
        }
        assert(well_formed(rest[0]));
        let ex = encode_model(x);
        let et = encode_items(tail);
        let all = encode_items(rest);
        assert(all =~= ex + et);
        assert(decreases_to!(rest => rest[0]));
        if s.len() < pos + ex.len() {
            assert(prefix_at(s, pos, ex)) by {
                assert forall|j: int| pos <= j < s.len() implies s[j] == ex[j - pos] by {
                    assert(s[j] == all[j - pos]);
                }
            }
            lemma_decode_cut(s, pos, x);
        } else {
            lemma_prefix_holds(s, pos, all, ex.len() as int);
            assert(all.subrange(0, ex.len() as int) =~= ex);
            lemma_decode_encoded(s, pos, x);
            assert(ex.len() > 0);
            assert(prefix_at(s, pos + ex.len(), et)) by {
                assert forall|j: int| pos + ex.len() <= j < s.len() implies s[j] == et[j - pos
                    - ex.len()] by {
                    assert(s[j] == all[j - pos]);
                }
            }
            lemma_decode_cut_items(s, pos + ex.len(), tail, acc.push(x));
        }
    }
}

/// Law: every strict beginning of the encoding of a well-formed value reads
/// as unfinished.
pub proof fn lemma_parse_frame_cut(r: RespModel, cut: int)
    requires
        well_formed(r),
        0 <= cut < encode_model(r).len(),
    ensures
        decode_value(encode_model(r).subrange(0, cut), 0) == Decoded::Incomplete,
{
    let s = encode_model(r).subrange(0, cut);
    lemma_decode_cut(s, 0, r);
}

/// Whether what the reader takes from `pos` is a well-formed value whose
/// encoding is exactly the bytes taken.
pub open spec fn read_back(s: Seq<u8>, pos: int) -> bool {
    decode_value(s, pos) matches Decoded::Complete(v, e) ==> {
        &&& well_formed(v)
        &&& e == pos + encode_model(v).len()
        &&& holds_at(s, pos, encode_model(v))
    }
}

/// Law: whatever the reader accepts is a well-formed value whose encoding
/// is exactly the bytes the reader took, so encoding what was read gives back
/// the input.
pub proof fn lemma_decode_sound(s: Seq<u8>, pos: int)
    ensures
        read_back(s, pos),
    decreases s.len() - pos, 0int, 0int,
{
    if 0 <= pos < s.len() && is_type_byte(s[pos]) {
        lemma_line_end(s, pos + 1);
        if let LineEnd::Found(e) = line_end(s, pos + 1) {
            let tag = s[pos];
            let body = s.subrange(pos + 1, e);
            let next = e + 2;
            assert(no_line_break(body)) by {
                assert forall|j: int| 0 <= j < body.len() implies body[j] != 13 && body[j] != 10 by {
                    assert(body[j] == s[pos + 1 + j]);
                }
            }
            let line = seq![tag] + body + crlf();
            assert(s.subrange(pos, next) =~= line);
            if tag == 43 || tag == 45 {
                if valid_utf8(body) {
                    assert(encode_utf8(decode_utf8(body)) == body);
                    assert(no_line_break(encode_utf8(decode_utf8(body))));
                    assert(utf8_text(body) == Some(decode_utf8(body)));
                    assert(well_formed(RespModel::SimpleString(decode_utf8(body))));
                    assert(well_formed(RespModel::Error(decode_utf8(body))));
                }
                assert(read_back(s, pos));
            } else if tag == 58 {
                assert(read_back(s, pos));
            } else if let Some(n) = canonical_i64(body) {
                if n == -1 && tag == 36 {
                    assert(int_text(-1) =~= seq![45u8, 49u8]);
                    assert(line =~= seq![36u8, 45u8, 49u8, 13u8, 10u8]);
                    assert(read_back(s, pos));
                } else if n >= 0 {
                    assert(int_text(n as int) == nat_text(n as nat));
                    if tag == 36 {
                        if next + n + 2 <= s.len() && s[next + n] == 13 && s[next + n + 1] == 10 {
                            let b = s.subrange(next, next + n);
                            assert(s.subrange(pos, next + n + 2) =~= line + b + crlf());
                        }
                        assert(read_back(s, pos));
                    } else {
                        lemma_decode_items_sound(s, next, n as int, seq![]);
                        if let Decoded::Complete(RespModel::Array(a), end) = decode_items(
                            s,
                            next,
                            n as int,
                            seq![],
                        ) {
                            let items = a.subrange(0, a.len() as int);
                            assert(a.subrange(0, 0) =~= Seq::<RespModel>::empty());
                            assert(items =~= a);
                            assert(s.subrange(pos, end) =~= line + encode_items(a)) by {
                                assert forall|j: int| 0 <= j < end - pos implies s.subrange(
                                    pos,
                                    end,
                                )[j] == (line + encode_items(a))[j] by {
                                    if j < line.len() {
                                        assert(s.subrange(pos, next)[j] == line[j]);
                                    } else {
                                        assert(s.subrange(next, end)[j - line.len()]
                                            == encode_items(a)[j - line.len()]);
                                    }
                                }
                            }
                            assert(well_formed(RespModel::Array(a)));
                            assert(end == pos + encode_model(RespModel::Array(a)).len());
                            assert(holds_at(s, pos, encode_model(RespModel::Array(a))));
                        }
                        assert(read_back(s, pos));
                    }
                }
            }
        }
    }
}

/// What the reader accepts as the rest of an array are well-formed values
/// whose encodings are exactly the bytes it took.
proof fn lemma_decode_items_sound(s: Seq<u8>, pos: int, count: int, acc: Seq<RespModel>)
    requires
        0 <= pos <= s.len(),
        count >= 0,
    ensures
        decode_items(s, pos, count, acc) matches Decoded::Complete(v, e) ==> v is Array,
        decode_items(s, pos, count, acc) matches Decoded::Complete(RespModel::Array(a), e) ==> {
            let items = a.subrange(acc.len() as int, a.len() as int);
            &&& acc.len() <= a.len()
            &&& a.subrange(0, acc.len() as int) == acc
            &&& items.len() == count
            &&& all_well_formed(items)
            &&& e == pos + encode_items(items).len()
            &&& holds_at(s, pos, encode_items(items))
        },
    decreases s.len() - pos, 1int, count,
{
    if count == 0 {
        let a = acc;
        assert(a.subrange(0, acc.len() as int) =~= acc);
        assert(a.subrange(acc.len() as int, a.len() as int) =~= Seq::<RespModel>::empty());
        assert(s.subrange(pos, pos) =~= Seq::<u8>::empty());
    } else {
        lemma_decode_sound(s, pos);
        if let Decoded::Complete(v, e1) = decode_value(s, pos) {
            if pos < e1 <= s.len() {
                lemma_decode_items_sound(s, e1, count - 1, acc.push(v));
                if let Decoded::Complete(RespModel::Array(a), e) = decode_items(
                    s,
                    e1,
                    count - 1,
                    acc.push(v),
                ) {
                    let items = a.subrange(acc.len() as int, a.len() as int);
                    let rest = a.subrange(acc.len() + 1int, a.len() as int);
                    assert(a.subrange(0, acc.len() as int) =~= acc) by {
                        assert forall|j: int| 0 <= j < acc.len() implies a[j] == acc[j] by {
                            assert(a.subrange(0, acc.len() + 1int)[j] == acc.push(v)[j]);
                        }
                    }
                    assert(a[acc.len() as int] == v) by {
                        assert(a.subrange(0, acc.len() + 1int)[acc.len() as int] == acc.push(
                            v,
                        )[acc.len() as int]);
                    }
                    assert(items =~= seq![v] + rest);
                    lemma_encode_items_append(seq![v], rest);
                    assert(seq![v][0] == v);
                    assert(encode_items(seq![v]) == encode_items(seq![v].drop_last())
                        + encode_model(v));
                    assert(encode_items(seq![v]) =~= encode_model(v));
                    lemma_all_well_formed(items);
                    lemma_all_well_formed(rest);
                    assert forall|i: int| 0 <= i < items.len() implies #[trigger] well_formed(
                        items[i],
                    ) by {
                        if i > 0 {
                            assert(items[i] == rest[i - 1]);
                        }
                    }
                    let ev = encode_model(v);
                    let er = encode_items(rest);
                    assert(s.subrange(pos, e) =~= ev + er) by {
                        assert forall|j: int| 0 <= j < e - pos implies s.subrange(pos, e)[j] == (
                        ev + er)[j] by {
                            if j < ev.len() {
                                assert(s.subrange(pos, e1)[j] == ev[j]);
                            } else {
                                assert(s.subrange(e1, e)[j - ev.len()] == er[j - ev.len()]);
                            }
                        }
                    }
                }
            }
        }
    }
}

/// Law: `Resp::parse` accepts a buffer exactly when the buffer is the
/// encoding of a well-formed value, and then gives that value.
pub proof fn lemma_parse_iff_encoding(s: Seq<u8>)
    ensures
        decode_value(s, 0) matches Decoded::Complete(v, e) ==> (e == s.len() ==> well_formed(v)
            && encode_model(v) == s),
        forall|r: RespModel|
            well_formed(r) && encode_model(r) == s ==> #[trigger] decode_value(s, 0)
                == Decoded::Complete(r, s.len() as int),
{
    lemma_decode_sound(s, 0);
    if let Decoded::Complete(v, e) = decode_value(s, 0) {
        if e == s.len() {
            assert(s.subrange(0, s.len() as int) =~= s);
        }
    }
    assert forall|r: RespModel|
        well_formed(r) && encode_model(r) == s implies #[trigger] decode_value(s, 0)
        == Decoded::Complete(r, s.len() as int) by {
        lemma_parse_encoded(r);
    }
}

/// Law: a value that the reader finds at the front of a buffer is found the
/// same way, taking the same bytes, once more bytes arrive after it.
pub proof fn lemma_decode_extend(s: Seq<u8>, t: Seq<u8>)
    ensures
        decode_value(s, 0) matches Decoded::Complete(v, k) ==> decode_value(s + t, 0)
            == Decoded::Complete(v, k),
{
    lemma_decode_sound(s, 0);
    if let Decoded::Complete(v, k) = decode_value(s, 0) {
        let enc = encode_model(v);
        assert((s + t).subrange(0, enc.len() as int) =~= s.subrange(0, enc.len() as int));
        lemma_decode_encoded(s + t, 0, v);
    }
}

} // verus!
