//! The wire grammar, as mathematics.
//!
//! A protocol value is one of five variants. `encoding` gives the canonical
//! bytes of a value; `parse_value` says what a decoder makes of a byte
//! sequence: a value and the number of bytes it occupies, the verdict that the
//! bytes are malformed, or the verdict that they end too early to tell.

use vstd::prelude::*;
use crate::decimal::{decimal_text, decimal_value, is_canonical_decimal};

verus! {

/// Carriage return, the first byte of a line terminator.
pub const CR: u8 = 13;

/// Line feed, the second byte of a line terminator.
pub const LF: u8 = 10;

/// Marker of a simple string, `+`.
pub const SIMPLE_MARK: u8 = 43;

/// Marker of an error, `-`.
pub const ERROR_MARK: u8 = 45;

/// Marker of an integer, `:`.
pub const INTEGER_MARK: u8 = 58;

/// Marker of a bulk string, `$`.
pub const BULK_MARK: u8 = 36;

/// Marker of an array, `*`.
pub const ARRAY_MARK: u8 = 42;

/// How deeply arrays may nest inside a value that the decoder accepts.
pub const MAX_DEPTH: usize = 32;

/// Why a byte sequence did not yield a value.
#[derive(Clone, Copy, Debug, PartialEq, Eq)]
pub enum DecodeError {
    /// The bytes end before the value is fully framed. More input may
    /// complete it; nothing is wrong with what has arrived so far.
    Incomplete,
    /// The bytes cannot be the start of any value: an unknown marker, a header
    /// that is no integer, a length below -1, a bulk string not followed by
    /// a line terminator, or arrays nested too deeply.
    Protocol,
}

/// The mathematical content of a protocol value.
pub enum ValueView {
    SimpleString(Seq<u8>),
    Error(Seq<u8>),
    Integer(i64),
    /// `None` is the null bulk string, distinct from the empty one.
    BulkString(Option<Seq<u8>>),
    /// `None` is the null array, distinct from the empty one.
    Array(Option<Seq<ValueView>>),
}

pub open spec fn crlf() -> Seq<u8> {
    seq![CR, LF]
}

/// A line terminator starts at index `i` of `s`.
pub open spec fn crlf_at(s: Seq<u8>, i: int) -> bool {
    0 <= i && i + 1 < s.len() && s[i] == CR && s[i + 1] == LF
}

/// `s` holds a line terminator somewhere.
pub open spec fn has_crlf(s: Seq<u8>) -> bool {
    exists|i: int| crlf_at(s, i)
}

/// The first line terminator of `s` starts at index `i`.
pub open spec fn is_first_crlf(s: Seq<u8>, i: int) -> bool {
    crlf_at(s, i) && forall|j: int| 0 <= j < i ==> !crlf_at(s, j)
}

/// Where the first line terminator of `s` starts, if `s` has one.
pub open spec fn first_crlf(s: Seq<u8>) -> int {
    choose|i: int| is_first_crlf(s, i)
}

// ---------------------------------------------------------------------------
// Encoding
// ---------------------------------------------------------------------------

pub open spec fn simple_encoding(text: Seq<u8>) -> Seq<u8> {
    seq![SIMPLE_MARK] + text + crlf()
}

pub open spec fn error_encoding(text: Seq<u8>) -> Seq<u8> {
    seq![ERROR_MARK] + text + crlf()
}

pub open spec fn integer_encoding(n: i64) -> Seq<u8> {
    seq![INTEGER_MARK] + decimal_text(n as int) + crlf()
}

pub open spec fn null_encoding() -> Seq<u8> {
    seq![BULK_MARK] + decimal_text(-1) + crlf()
}

pub open spec fn bulk_encoding(data: Seq<u8>) -> Seq<u8> {
    seq![BULK_MARK] + decimal_text(data.len() as int) + crlf() + data + crlf()
}

pub open spec fn null_array_encoding() -> Seq<u8> {
    seq![ARRAY_MARK] + decimal_text(-1) + crlf()
}

pub open spec fn array_header(count: nat) -> Seq<u8> {
    seq![ARRAY_MARK] + decimal_text(count as int) + crlf()
}

/// The canonical bytes of a value.
pub open spec fn encoding(v: ValueView) -> Seq<u8>
    decreases v, 0nat,
{
    match v {
        ValueView::SimpleString(text) => simple_encoding(text),
        ValueView::Error(text) => error_encoding(text),
        ValueView::Integer(n) => integer_encoding(n),
        ValueView::BulkString(None) => null_encoding(),
        ValueView::BulkString(Some(data)) => bulk_encoding(data),
        ValueView::Array(None) => null_array_encoding(),
        ValueView::Array(Some(items)) => array_header(items.len()) + encoding_all(items),
    }
}

/// The encodings of `items`, one after the other.
pub open spec fn encoding_all(items: Seq<ValueView>) -> Seq<u8>
    decreases items, 1nat,
{
    if items.len() == 0 {
        Seq::empty()
    } else {
        encoding(items[0]) + encoding_all(items.drop_first())
    }
}

/// Whether the grammar can carry `v` when arrays may nest `depth` deep:
/// simple strings and errors hold no line terminator, lengths and counts
/// fit a 64-bit header, and arrays nest no deeper than `depth`.
pub open spec fn representable(v: ValueView, depth: nat) -> bool
    decreases v,
{
    match v {
        ValueView::SimpleString(text) => !has_crlf(text),
        ValueView::Error(text) => !has_crlf(text),
        ValueView::Integer(_) => true,
        ValueView::BulkString(None) => true,
        ValueView::BulkString(Some(data)) => data.len() <= i64::MAX,
        ValueView::Array(None) => depth > 0,
        ValueView::Array(Some(items)) => {
            &&& depth > 0
            &&& items.len() <= i64::MAX
            &&& forall|i: int|
                0 <= i < items.len() ==> representable(#[trigger] items[i], (depth - 1) as nat)
        },
    }
}

// ---------------------------------------------------------------------------
// Decoding
// ---------------------------------------------------------------------------

/// The line at the start of `s`, without its terminator, and the number of
/// bytes that line and terminator take. Without a terminator the line is
/// still open.
pub open spec fn parse_line(s: Seq<u8>) -> Result<(Seq<u8>, int), DecodeError> {
    if has_crlf(s) {
        Ok((s.take(first_crlf(s)), first_crlf(s) + 2))
    } else {
        Err(DecodeError::Incomplete)
    }
}

/// The integer on the line at the start of `s`. With `strict`, only the
/// canonical text of an integer is taken for one.
pub open spec fn parse_integer(s: Seq<u8>, strict: bool) -> Result<(i64, int), DecodeError> {
    match parse_line(s) {
        Ok((line, n)) => match decimal_value(line) {
            Some(v) => if strict && !is_canonical_decimal(line) {
                Err(DecodeError::Protocol)
            } else {
                Ok((v as i64, n))
            },
            None => Err(DecodeError::Protocol),
        },
        Err(e) => Err(e),
    }
}

/// The bulk string whose length header starts `s` (the marker is already
/// taken).
pub open spec fn parse_bulk(s: Seq<u8>, strict: bool) -> Result<(ValueView, int), DecodeError> {
    match parse_integer(s, strict) {
        Ok((len, n)) => if len == -1 {
            Ok((ValueView::BulkString(None), n))
        } else if len < 0 {
            Err(DecodeError::Protocol)
        } else if s.len() < n + len + 2 {
            Err(DecodeError::Incomplete)
        } else if s[n + len] != CR || s[n + len + 1] != LF {
            Err(DecodeError::Protocol)
        } else {
            Ok((ValueView::BulkString(Some(s.subrange(n, n + len))), n + len + 2))
        },
        Err(e) => Err(e),
    }
}

/// The array whose count header starts `s` (the marker is already taken);
/// its elements may hold arrays nested up to `depth` deep.
pub open spec fn parse_array(s: Seq<u8>, depth: nat, strict: bool) -> Result<
    (ValueView, int),
    DecodeError,
>
    decreases depth, 2nat, 0nat,
{
    match parse_integer(s, strict) {
        Ok((count, n)) => if count == -1 {
            Ok((ValueView::Array(None), n))
        } else if count < 0 {
            Err(DecodeError::Protocol)
        } else {
            match parse_items(s.skip(n), count as nat, depth, strict) {
                Ok((items, m)) => Ok((ValueView::Array(Some(items)), n + m)),
                Err(e) => Err(e),
            }
        },
        Err(e) => Err(e),
    }
}

/// `count` values, one after the other, from the start of `s`.
pub open spec fn parse_items(s: Seq<u8>, count: nat, depth: nat, strict: bool) -> Result<
    (Seq<ValueView>, int),
    DecodeError,
>
    decreases depth, 1nat, count,
{
    if count == 0 {
        Ok((Seq::empty(), 0))
    } else {
        match parse_value(s, depth, strict) {
            Ok((first, n)) => match parse_items(s.skip(n), (count - 1) as nat, depth, strict) {
                Ok((rest, m)) => Ok((seq![first] + rest, n + m)),
                Err(e) => Err(e),
            },
            Err(e) => Err(e),
        }
    }
}

/// The value at the start of `s` and the number of bytes it takes, when
/// arrays may nest `depth` deep.
pub open spec fn parse_value(s: Seq<u8>, depth: nat, strict: bool) -> Result<
    (ValueView, int),
    DecodeError,
>
    decreases depth, 0nat, 0nat,
{
    if s.len() == 0 {
        Err(DecodeError::Incomplete)
    } else if s[0] == SIMPLE_MARK {
        match parse_line(s.skip(1)) {
            Ok((text, n)) => Ok((ValueView::SimpleString(text), n + 1)),
            Err(e) => Err(e),
        }
    } else if s[0] == ERROR_MARK {
        match parse_line(s.skip(1)) {
            Ok((text, n)) => Ok((ValueView::Error(text), n + 1)),
            Err(e) => Err(e),
        }
    } else if s[0] == INTEGER_MARK {
        match parse_integer(s.skip(1), strict) {
            Ok((v, n)) => Ok((ValueView::Integer(v), n + 1)),
            Err(e) => Err(e),
        }
    } else if s[0] == BULK_MARK {
        match parse_bulk(s.skip(1), strict) {
            Ok((v, n)) => Ok((v, n + 1)),
            Err(e) => Err(e),
        }
    } else if s[0] == ARRAY_MARK {
        if depth == 0 {
            Err(DecodeError::Protocol)
        } else {
            match parse_array(s.skip(1), (depth - 1) as nat, strict) {
                Ok((v, n)) => Ok((v, n + 1)),
                Err(e) => Err(e),
            }
        }
    } else {
        Err(DecodeError::Protocol)
    }
}

/// What a decoder makes of `s`: non-canonical integers are read too, and
/// arrays nest up to `MAX_DEPTH` deep.
pub open spec fn decoding(s: Seq<u8>) -> Result<(ValueView, int), DecodeError> {
    parse_value(s, MAX_DEPTH as nat, false)
}

// ---------------------------------------------------------------------------
// Lines
// ---------------------------------------------------------------------------

proof fn lemma_least_crlf(s: Seq<u8>, i: int)
    requires
        crlf_at(s, i),
    ensures
        exists|k: int| is_first_crlf(s, k),
    decreases i,
{
    if exists|j: int| 0 <= j < i && crlf_at(s, j) {
        let j = choose|j: int| 0 <= j < i && crlf_at(s, j);
        lemma_least_crlf(s, j);
    } else {
        assert(is_first_crlf(s, i));
    }
}

/// A sequence with a line terminator has a first one.
pub proof fn lemma_first_crlf(s: Seq<u8>)
    requires
        has_crlf(s),
    ensures
        is_first_crlf(s, first_crlf(s)),
{
    let i = choose|i: int| crlf_at(s, i);
    lemma_least_crlf(s, i);
}

/// The first line terminator is where any first line terminator is.
pub proof fn lemma_first_crlf_is(s: Seq<u8>, i: int)
    requires
        is_first_crlf(s, i),
    ensures
        has_crlf(s),
        first_crlf(s) == i,
{
    let k = first_crlf(s);
    assert(is_first_crlf(s, k));
    if k < i {
        assert(!crlf_at(s, k));
    }
    if i < k {
        assert(!crlf_at(s, i));
    }
}

/// A text without a line terminator, followed by one, is read back as a line.
pub proof fn lemma_parse_line_of(text: Seq<u8>, rest: Seq<u8>)
    requires
        !has_crlf(text),
    ensures
        parse_line(text + crlf() + rest) == Ok::<(Seq<u8>, int), DecodeError>(
            (text, text.len() as int + 2),
        ),
{
    let s = text + crlf() + rest;
    let n = text.len() as int;
    assert(crlf_at(s, n));
    assert forall|j: int| 0 <= j < n implies !crlf_at(s, j) by {
        if j + 1 < n {
            assert(!crlf_at(text, j));
        }
    }
    lemma_first_crlf_is(s, n);
    assert(s.take(n) =~= text);
}

} // verus!
