//! A verdict on a byte sequence stands whatever bytes arrive after it.
//!
//! A decoder that says "malformed" or gives a value has read all it needed:
//! more input changes nothing. Only "incomplete" is provisional. So a caller
//! may buffer input and decode again from the same place, and a command that
//! is split across two reads is never taken for a malformed one.

use vstd::prelude::*;
use crate::roundtrip::{lemma_parsed_integer, lemma_parsed_representable};
use crate::wire::{
    crlf_at, decoding, first_crlf, has_crlf, is_first_crlf, lemma_first_crlf,
    lemma_first_crlf_is, parse_array, parse_bulk, parse_integer, parse_items, parse_line,
    parse_value, DecodeError, ValueView, ARRAY_MARK, BULK_MARK, ERROR_MARK, INTEGER_MARK,
    MAX_DEPTH, SIMPLE_MARK,
};

verus! {

/// A line that has its terminator is the same line with more input after it.
pub proof fn lemma_line_is_final(s: Seq<u8>, more: Seq<u8>)
    requires
        has_crlf(s),
    ensures
        parse_line(s + more) == parse_line(s),
{
    lemma_first_crlf(s);
    let k = first_crlf(s);
    let longer = s + more;
    assert(crlf_at(longer, k));
    assert forall|j: int| 0 <= j < k implies !crlf_at(longer, j) by {
        assert(!crlf_at(s, j));
    }
    assert(is_first_crlf(longer, k));
    lemma_first_crlf_is(longer, k);
    assert(longer.take(k) =~= s.take(k));
}

/// What was read as a header, or refused as one, stays so.
pub proof fn lemma_integer_is_final(s: Seq<u8>, more: Seq<u8>, strict: bool)
    requires
        parse_integer(s, strict) != Err::<(i64, int), DecodeError>(DecodeError::Incomplete),
    ensures
        parse_integer(s + more, strict) == parse_integer(s, strict),
{
    lemma_line_is_final(s, more);
}

/// What was read as a bulk string, or refused as one, stays so.
pub proof fn lemma_bulk_is_final(s: Seq<u8>, more: Seq<u8>, strict: bool)
    requires
        parse_bulk(s, strict) != Err::<(ValueView, int), DecodeError>(DecodeError::Incomplete),
    ensures
        parse_bulk(s + more, strict) == parse_bulk(s, strict),
{
    lemma_integer_is_final(s, more, strict);
    if parse_integer(s, strict) is Ok {
        lemma_parsed_integer(s, strict);
        let (len, n) = parse_integer(s, strict)->Ok_0;
        if len >= 0 {
            assert(s.len() >= n + len + 2);
            assert((s + more).subrange(n, n + len) =~= s.subrange(n, n + len));
        }
    }
}

/// What was read as a value, or refused as one, stays so.
pub proof fn lemma_value_is_final(s: Seq<u8>, more: Seq<u8>, depth: nat, strict: bool)
    requires
        parse_value(s, depth, strict) != Err::<(ValueView, int), DecodeError>(
            DecodeError::Incomplete,
        ),
    ensures
        parse_value(s + more, depth, strict) == parse_value(s, depth, strict),
    decreases depth, 0nat, 0nat,
{
    let longer = s + more;
    assert(longer.skip(1) =~= s.skip(1) + more);
    let body = s.skip(1);
    if s[0] == SIMPLE_MARK || s[0] == ERROR_MARK {
        lemma_line_is_final(body, more);
    } else if s[0] == INTEGER_MARK {
        lemma_integer_is_final(body, more, strict);
    } else if s[0] == BULK_MARK {
        lemma_bulk_is_final(body, more, strict);
    } else if s[0] == ARRAY_MARK {
        if depth > 0 {
            lemma_array_is_final(body, more, (depth - 1) as nat, strict);
        }
    }
}

/// The same for an array whose marker has been taken.
pub proof fn lemma_array_is_final(s: Seq<u8>, more: Seq<u8>, depth: nat, strict: bool)
    requires
        parse_array(s, depth, strict) != Err::<(ValueView, int), DecodeError>(
            DecodeError::Incomplete,
        ),
    ensures
        parse_array(s + more, depth, strict) == parse_array(s, depth, strict),
    decreases depth, 2nat, 0nat,
{
    lemma_integer_is_final(s, more, strict);
    if parse_integer(s, strict) is Ok {
        lemma_parsed_integer(s, strict);
        let (count, n) = parse_integer(s, strict)->Ok_0;
        if count >= 0 {
            assert((s + more).skip(n) =~= s.skip(n) + more);
            lemma_items_are_final(s.skip(n), more, count as nat, depth, strict);
        }
    }
}

/// The same for a run of `count` values.
pub proof fn lemma_items_are_final(
    s: Seq<u8>,
    more: Seq<u8>,
    count: nat,
    depth: nat,
    strict: bool,
)
    requires
        parse_items(s, count, depth, strict) != Err::<(Seq<ValueView>, int), DecodeError>(
            DecodeError::Incomplete,
        ),
    ensures
        parse_items(s + more, count, depth, strict) == parse_items(s, count, depth, strict),
    decreases depth, 1nat, count,
{
    if count > 0 {
        lemma_value_is_final(s, more, depth, strict);
        if parse_value(s, depth, strict) is Ok {
            lemma_parsed_representable(s, depth, strict);
            let (first, n) = parse_value(s, depth, strict)->Ok_0;
            assert((s + more).skip(n) =~= s.skip(n) + more);
            lemma_items_are_final(s.skip(n), more, (count - 1) as nat, depth, strict);
        }
    }
}

/// A verdict other than "incomplete" is final: with any further input
/// after it, the same bytes decode to the same value, taking the same
/// number of bytes, or are malformed as before.
pub proof fn law_verdicts_are_final(s: Seq<u8>, more: Seq<u8>)
    requires
        decoding(s) != Err::<(ValueView, int), DecodeError>(DecodeError::Incomplete),
    ensures
        decoding(s + more) == decoding(s),
{
    lemma_value_is_final(s, more, MAX_DEPTH as nat, false);
}

/// Input that ends inside a value is incomplete, never malformed: if
/// the input with more bytes after it holds a value that reaches beyond the
/// input, the input alone is incomplete.
pub proof fn law_split_input_is_incomplete(s: Seq<u8>, more: Seq<u8>)
    requires
        decoding(s + more) is Ok,
        (decoding(s + more)->Ok_0).1 > s.len(),
    ensures
        decoding(s) == Err::<(ValueView, int), DecodeError>(DecodeError::Incomplete),
{
    if decoding(s) != Err::<(ValueView, int), DecodeError>(DecodeError::Incomplete) {
        law_verdicts_are_final(s, more);
        if decoding(s) is Ok {
            lemma_parsed_representable(s, MAX_DEPTH as nat, false);
        }
    }
}

} // verus!
