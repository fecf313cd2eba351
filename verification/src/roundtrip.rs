//! Encoding and decoding are inverse to each other.
//!
//! Decoding the canonical bytes of a value gives the value back, whatever
//! follows the bytes. In the other direction the decoder also reads integers
//! that are not in canonical form (`+5`, `007`), which the encoder never
//! writes; on input that the strict grammar accepts, encoding what was decoded
//! reproduces the bytes that were read.

use vstd::prelude::*;
use crate::decimal::{
    decimal_text, digits_of, is_digit, lemma_decimal_text_value, lemma_digits_of,
};
use crate::wire::{
    crlf, crlf_at, decoding, encoding, encoding_all, has_crlf, is_first_crlf, lemma_first_crlf,
    lemma_parse_line_of, parse_array, parse_bulk, parse_integer, parse_items, parse_line,
    parse_value, representable, DecodeError, ValueView, ARRAY_MARK, BULK_MARK, CR, ERROR_MARK,
    INTEGER_MARK, LF, MAX_DEPTH, SIMPLE_MARK,
};

verus! {

/// The canonical text of an integer holds no line terminator.
pub proof fn lemma_decimal_text_one_line(i: int)
    ensures
        !has_crlf(decimal_text(i)),
        decimal_text(i).len() >= 1,
{
    let t = decimal_text(i);
    if i < 0 {
        lemma_digits_of((-i) as nat);
    } else {
        lemma_digits_of(i as nat);
    }
    assert forall|k: int| 0 <= k < t.len() implies t[k] != CR by {
        if i < 0 {
            if k > 0 {
                assert(is_digit(digits_of((-i) as nat)[k - 1]));
            }
        } else {
            assert(is_digit(digits_of(i as nat)[k]));
        }
    }
    assert forall|k: int| !crlf_at(t, k) by {
        if 0 <= k < t.len() {
            assert(t[k] != CR);
        }
    }
}

/// A header line that holds the canonical text of `v` is read back as `v`,
/// strictly or not.
pub proof fn lemma_parse_integer_of(v: i64, rest: Seq<u8>, strict: bool)
    ensures
        parse_integer(decimal_text(v as int) + crlf() + rest, strict) == Ok::<
            (i64, int),
            DecodeError,
        >((v, decimal_text(v as int).len() as int + 2)),
{
    lemma_decimal_text_one_line(v as int);
    lemma_parse_line_of(decimal_text(v as int), rest);
    lemma_decimal_text_value(v as int);
}

/// A bulk string's length header, content and terminator are read back as
/// the bulk string.
pub proof fn lemma_parse_bulk_of(data: Seq<u8>, rest: Seq<u8>, strict: bool)
    requires
        data.len() <= i64::MAX,
    ensures
        parse_bulk(decimal_text(data.len() as int) + crlf() + data + crlf() + rest, strict)
            == Ok::<(ValueView, int), DecodeError>(
            (
                ValueView::BulkString(Some(data)),
                (decimal_text(data.len() as int).len() + 2 + data.len() + 2) as int,
            ),
        ),
{
    let len = data.len() as i64;
    let header = decimal_text(len as int);
    let after = data + crlf() + rest;
    let s = header + crlf() + data + crlf() + rest;
    assert(s =~= header + crlf() + after);
    lemma_parse_integer_of(len, after, strict);
    let n = header.len() as int + 2;
    assert(s.subrange(n, n + len) =~= data);
    assert(s[n + len] == CR);
    assert(s[n + len + 1] == LF);
}

/// An array's count header and the encodings of its elements are read
/// back as the array.
pub proof fn lemma_parse_array_of(items: Seq<ValueView>, rest: Seq<u8>, depth: nat, strict: bool)
    requires
        items.len() <= i64::MAX,
        forall|i: int| 0 <= i < items.len() ==> representable(#[trigger] items[i], depth),
    ensures
        parse_array(
            decimal_text(items.len() as int) + crlf() + encoding_all(items) + rest,
            depth,
            strict,
        ) == Ok::<(ValueView, int), DecodeError>(
            (
                ValueView::Array(Some(items)),
                (decimal_text(items.len() as int).len() + 2 + encoding_all(items).len()) as int,
            ),
        ),
    decreases items, 2nat,
{
    let count = items.len() as i64;
    let header = decimal_text(count as int);
    let after = encoding_all(items) + rest;
    let s = header + crlf() + encoding_all(items) + rest;
    assert(s =~= header + crlf() + after);
    lemma_parse_integer_of(count, after, strict);
    let n = header.len() as int + 2;
    assert(s.skip(n) =~= after);
    lemma_parse_encoding_all(items, rest, depth, strict);
}

/// Decoding the encoding of a representable value gives the value back and
/// takes exactly the bytes of the encoding, whatever bytes follow.
pub proof fn lemma_parse_encoding(v: ValueView, rest: Seq<u8>, depth: nat, strict: bool)
    requires
        representable(v, depth),
    ensures
        parse_value(encoding(v) + rest, depth, strict) == Ok::<(ValueView, int), DecodeError>(
            (v, encoding(v).len() as int),
        ),
    decreases v, 0nat,
{
    let s = encoding(v) + rest;
    match v {
        ValueView::SimpleString(text) => {
            assert(s.skip(1) =~= text + crlf() + rest);
            lemma_parse_line_of(text, rest);
        },
        ValueView::Error(text) => {
            assert(s.skip(1) =~= text + crlf() + rest);
            lemma_parse_line_of(text, rest);
        },
        ValueView::Integer(n) => {
            assert(s.skip(1) =~= decimal_text(n as int) + crlf() + rest);
            lemma_parse_integer_of(n, rest, strict);
        },
        ValueView::BulkString(None) => {
            assert(s.skip(1) =~= decimal_text(-1) + crlf() + rest);
            lemma_parse_integer_of(-1i64, rest, strict);
        },
        ValueView::BulkString(Some(data)) => {
            assert(s.skip(1) =~= decimal_text(data.len() as int) + crlf() + data + crlf() + rest);
            lemma_parse_bulk_of(data, rest, strict);
        },
        ValueView::Array(None) => {
            assert(s.skip(1) =~= decimal_text(-1) + crlf() + rest);
            lemma_parse_integer_of(-1i64, rest, strict);
        },
        ValueView::Array(Some(items)) => {
            assert(s.skip(1) =~= decimal_text(items.len() as int) + crlf() + encoding_all(items)
                + rest);
            lemma_parse_array_of(items, rest, (depth - 1) as nat, strict);
        },
    }
}

/// Decoding the encodings of representable values, one after the other,
/// gives the values back in order.
pub proof fn lemma_parse_encoding_all(
    items: Seq<ValueView>,
    rest: Seq<u8>,
    depth: nat,
    strict: bool,
)
    requires
        forall|i: int| 0 <= i < items.len() ==> representable(#[trigger] items[i], depth),
    ensures
        parse_items(encoding_all(items) + rest, items.len(), depth, strict) == Ok::<
            (Seq<ValueView>, int),
            DecodeError,
        >((items, encoding_all(items).len() as int)),
    decreases items, 1nat,
{
    let s = encoding_all(items) + rest;
    if items.len() == 0 {
        assert(items =~= Seq::<ValueView>::empty());
    } else {
        let first = items[0];
        let tail = items.drop_first();
        let after = encoding_all(tail) + rest;
        assert(s =~= encoding(first) + after);
        lemma_parse_encoding(first, after, depth, strict);
        assert(s.skip(encoding(first).len() as int) =~= after);
        assert forall|i: int| 0 <= i < tail.len() implies representable(
            #[trigger] tail[i],
            depth,
        ) by {
            assert(tail[i] == items[i + 1]);
        }
        lemma_parse_encoding_all(tail, rest, depth, strict);
        assert(seq![first] + tail =~= items);
    }
}

/// For every value that the grammar can carry, decoding its encoding
/// gives the value back and consumes the whole encoding.
pub proof fn law_decode_encode(v: ValueView)
    requires
        representable(v, MAX_DEPTH as nat),
    ensures
        decoding(encoding(v)) == Ok::<(ValueView, int), DecodeError>(
            (v, encoding(v).len() as int),
        ),
{
    lemma_parse_encoding(v, Seq::empty(), MAX_DEPTH as nat, false);
    assert(encoding(v) + Seq::<u8>::empty() =~= encoding(v));
}

/// A line that was read is followed by its terminator in the input, and
/// holds no terminator itself.
pub proof fn lemma_parsed_line(s: Seq<u8>)
    requires
        parse_line(s) is Ok,
    ensures
        ({
            let (line, n) = parse_line(s)->Ok_0;
            &&& n == line.len() + 2
            &&& n <= s.len()
            &&& s.take(n) == line + crlf()
            &&& !has_crlf(line)
        }),
{
    lemma_first_crlf(s);
    let (line, n) = parse_line(s)->Ok_0;
    let k = n - 2;
    assert(is_first_crlf(s, k));
    assert(s.take(n) =~= line + crlf());
    assert forall|j: int| !crlf_at(line, j) by {
        if crlf_at(line, j) {
            assert(crlf_at(s, j));
        }
    }
}

/// A header that the strict grammar accepts is the canonical text of its
/// integer, and the tolerant grammar reads the same integer.
pub proof fn lemma_parsed_integer_strict(s: Seq<u8>)
    requires
        parse_integer(s, true) is Ok,
    ensures
        parse_integer(s, false) == parse_integer(s, true),
        ({
            let (v, n) = parse_integer(s, true)->Ok_0;
            &&& n == decimal_text(v as int).len() + 2
            &&& n <= s.len()
            &&& s.take(n) == decimal_text(v as int) + crlf()
        }),
{
    lemma_parsed_line(s);
}

/// What either grammar reads as a header lies within the input.
pub proof fn lemma_parsed_integer(s: Seq<u8>, strict: bool)
    requires
        parse_integer(s, strict) is Ok,
    ensures
        2 <= (parse_integer(s, strict)->Ok_0).1 <= s.len(),
{
    lemma_parsed_line(s);
}

/// A bulk string that the strict grammar accepts, its marker taken: the
/// bytes read are the bulk string's encoding without the marker.
pub proof fn lemma_parsed_bulk_strict(s: Seq<u8>)
    requires
        parse_bulk(s, true) is Ok,
    ensures
        parse_bulk(s, false) == parse_bulk(s, true),
        ({
            let (v, n) = parse_bulk(s, true)->Ok_0;
            0 < n <= s.len() && encoding(v) == seq![BULK_MARK] + s.take(n)
        }),
{
    lemma_parsed_integer_strict(s);
    let (len, k) = parse_integer(s, true)->Ok_0;
    let (v, n) = parse_bulk(s, true)->Ok_0;
    if len == -1 {
        assert(encoding(v) =~= seq![BULK_MARK] + s.take(n));
    } else {
        let data = s.subrange(k, k + len);
        assert(s.take(n) =~= s.take(k) + data + crlf());
        assert(encoding(v) =~= seq![BULK_MARK] + s.take(n));
    }
}

/// Taking a marker and then `n - 1` bytes is taking `n` bytes.
proof fn lemma_take_after_mark(s: Seq<u8>, n: int)
    requires
        0 < n <= s.len(),
    ensures
        s.take(n) == seq![s[0]] + s.skip(1).take(n - 1),
{
    assert(s.take(n) =~= seq![s[0]] + s.skip(1).take(n - 1));
}

/// On input that the strict grammar accepts, the tolerant grammar reads
/// the same value, and the value's encoding is the input that was read.
pub proof fn lemma_parsed_strict(s: Seq<u8>, depth: nat)
    requires
        parse_value(s, depth, true) is Ok,
    ensures
        parse_value(s, depth, false) == parse_value(s, depth, true),
        ({
            let (v, n) = parse_value(s, depth, true)->Ok_0;
            0 < n <= s.len() && encoding(v) == s.take(n)
        }),
    decreases depth, 0nat, 0nat,
{
    let n = (parse_value(s, depth, true)->Ok_0).1;
    let body = s.skip(1);
    if s[0] == SIMPLE_MARK || s[0] == ERROR_MARK {
        lemma_parsed_line(body);
    } else if s[0] == INTEGER_MARK {
        lemma_parsed_integer_strict(body);
    } else if s[0] == BULK_MARK {
        lemma_parsed_bulk_strict(body);
    } else {
        lemma_parsed_array_strict(body, (depth - 1) as nat);
    }
    lemma_take_after_mark(s, n);
}

/// The same for an array whose marker has been taken: the bytes read are
/// the array's encoding without the marker.
pub proof fn lemma_parsed_array_strict(s: Seq<u8>, depth: nat)
    requires
        parse_array(s, depth, true) is Ok,
    ensures
        parse_array(s, depth, false) == parse_array(s, depth, true),
        ({
            let (v, n) = parse_array(s, depth, true)->Ok_0;
            0 < n <= s.len() && encoding(v) == seq![ARRAY_MARK] + s.take(n)
        }),
    decreases depth, 2nat, 0nat,
{
    lemma_parsed_integer_strict(s);
    let (count, k) = parse_integer(s, true)->Ok_0;
    let (v, n) = parse_array(s, depth, true)->Ok_0;
    if count != -1 {
        lemma_parsed_items_strict(s.skip(k), count as nat, depth);
        let (items, m) = parse_items(s.skip(k), count as nat, depth, true)->Ok_0;
        assert(s.take(n) =~= s.take(k) + s.skip(k).take(m));
        assert(encoding(v) =~= seq![ARRAY_MARK] + s.take(n));
    } else {
        assert(encoding(v) =~= seq![ARRAY_MARK] + s.take(n));
    }
}

/// The same for a run of `count` values.
pub proof fn lemma_parsed_items_strict(s: Seq<u8>, count: nat, depth: nat)
    requires
        parse_items(s, count, depth, true) is Ok,
    ensures
        parse_items(s, count, depth, false) == parse_items(s, count, depth, true),
        ({
            let (items, n) = parse_items(s, count, depth, true)->Ok_0;
            &&& 0 <= n <= s.len()
            &&& items.len() == count
            &&& encoding_all(items) == s.take(n)
        }),
    decreases depth, 1nat, count,
{
    let (items, n) = parse_items(s, count, depth, true)->Ok_0;
    if count == 0 {
        assert(s.take(0) =~= Seq::<u8>::empty());
    } else {
        lemma_parsed_strict(s, depth);
        let (first, k) = parse_value(s, depth, true)->Ok_0;
        lemma_parsed_items_strict(s.skip(k), (count - 1) as nat, depth);
        let (tail, m) = parse_items(s.skip(k), (count - 1) as nat, depth, true)->Ok_0;
        assert(items.drop_first() =~= tail);
        assert(s.take(n) =~= s.take(k) + s.skip(k).take(m));
    }
}

/// Whatever either grammar reads is a value that the grammar can carry,
/// and lies within the input.
pub proof fn lemma_parsed_representable(s: Seq<u8>, depth: nat, strict: bool)
    requires
        parse_value(s, depth, strict) is Ok,
    ensures
        ({
            let (v, n) = parse_value(s, depth, strict)->Ok_0;
            0 < n <= s.len() && representable(v, depth)
        }),
    decreases depth, 0nat, 0nat,
{
    let body = s.skip(1);
    if s[0] == SIMPLE_MARK || s[0] == ERROR_MARK {
        lemma_parsed_line(body);
    } else if s[0] == INTEGER_MARK {
        lemma_parsed_integer(body, strict);
    } else if s[0] == BULK_MARK {
        lemma_parsed_integer(body, strict);
    } else {
        lemma_parsed_integer(body, strict);
        let (count, k) = parse_integer(body, strict)->Ok_0;
        if count != -1 {
            lemma_parsed_items_representable(body.skip(k), count as nat, (depth - 1) as nat, strict);
        }
    }
}

/// The same for a run of `count` values.
pub proof fn lemma_parsed_items_representable(s: Seq<u8>, count: nat, depth: nat, strict: bool)
    requires
        parse_items(s, count, depth, strict) is Ok,
    ensures
        ({
            let (items, n) = parse_items(s, count, depth, strict)->Ok_0;
            &&& 0 <= n <= s.len()
            &&& items.len() == count
            &&& forall|i: int| 0 <= i < items.len() ==> representable(#[trigger] items[i], depth)
        }),
    decreases depth, 1nat, count,
{
    if count > 0 {
        lemma_parsed_representable(s, depth, strict);
        let (first, k) = parse_value(s, depth, strict)->Ok_0;
        lemma_parsed_items_representable(s.skip(k), (count - 1) as nat, depth, strict);
    }
}

/// For every byte sequence that starts with a value in canonical form,
/// the decoder reads that value, and encoding it reproduces the bytes that
/// were read.
pub proof fn law_encode_decode(s: Seq<u8>)
    requires
        parse_value(s, MAX_DEPTH as nat, true) is Ok,
    ensures
        decoding(s) == parse_value(s, MAX_DEPTH as nat, true),
        ({
            let (v, n) = decoding(s)->Ok_0;
            0 < n <= s.len() && encoding(v) == s.take(n)
        }),
{
    lemma_parsed_strict(s, MAX_DEPTH as nat);
}

/// Whatever the decoder reads, it reads again from the canonical bytes of
/// what it read: encoding a decoded value and decoding the result gives the
/// same value.
pub proof fn law_decode_is_stable(s: Seq<u8>)
    requires
        decoding(s) is Ok,
    ensures
        ({
            let (v, n) = decoding(s)->Ok_0;
            decoding(encoding(v)) == Ok::<(ValueView, int), DecodeError>(
                (v, encoding(v).len() as int),
            )
        }),
{
    lemma_parsed_representable(s, MAX_DEPTH as nat, false);
    law_decode_encode((decoding(s)->Ok_0).0);
}

} // verus!
