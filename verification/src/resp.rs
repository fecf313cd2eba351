//! Protocol values in memory, and their canonical encoding.

use vstd::prelude::*;
use vstd::slice::{slice_subrange, slice_to_vec};
use vstd::string::StringSliceAdditionalSpecFns;
use crate::decimal::{decimal_text, parse_decimal, push_decimal, push_length};
use crate::wire::{
    array_header, bulk_encoding, crlf, crlf_at, decoding, encoding, encoding_all, error_encoding,
    has_crlf, integer_encoding, is_first_crlf, lemma_first_crlf_is, null_array_encoding,
    null_encoding, parse_array, parse_bulk, parse_integer, parse_items, parse_line, parse_value,
    simple_encoding, DecodeError, ValueView, ARRAY_MARK, BULK_MARK, CR, ERROR_MARK, INTEGER_MARK,
    LF, MAX_DEPTH, SIMPLE_MARK,
};

verus! {

/// One unit of the wire format. Exactly one variant is populated; the text
/// of simple strings and errors and the content of bulk strings are raw
/// bytes, not required to be valid text.
#[derive(Debug, PartialEq, Eq)]
pub enum Value {
    SimpleString(Vec<u8>),
    Error(Vec<u8>),
    Integer(i64),
    /// `None` is the null bulk string, distinct from the empty one.
    BulkString(Option<Vec<u8>>),
    /// `None` is the null array, distinct from the empty one.
    Array(Option<Vec<Value>>),
}

impl View for Value {
    type V = ValueView;

    open spec fn view(&self) -> ValueView
        decreases self, 0nat,
    {
        match self {
            Value::SimpleString(text) => ValueView::SimpleString(text@),
            Value::Error(text) => ValueView::Error(text@),
            Value::Integer(n) => ValueView::Integer(*n),
            Value::BulkString(None) => ValueView::BulkString(None),
            Value::BulkString(Some(data)) => ValueView::BulkString(Some(data@)),
            Value::Array(None) => ValueView::Array(None),
            Value::Array(Some(items)) => ValueView::Array(Some(views_of(items@))),
        }
    }
}

/// The views of a sequence of values, element by element.
pub open spec fn views_of(items: Seq<Value>) -> Seq<ValueView>
    decreases items, 1nat,
{
    Seq::new(
        items.len(),
        |i: int|
            if 0 <= i < items.len() {
                items[i]@
            } else {
                ValueView::Array(None)
            },
    )
}

/// The views of a sequence are as many as its values, and are theirs.
pub proof fn lemma_views_of(items: Seq<Value>)
    ensures
        views_of(items).len() == items.len(),
        forall|i: int| 0 <= i < items.len() ==> (#[trigger] views_of(items)[i]) == items[i]@,
{
}

/// Encoding one more element after the others appends its encoding.
pub proof fn lemma_encoding_all_push(items: Seq<ValueView>, last: ValueView)
    ensures
        encoding_all(items.push(last)) == encoding_all(items) + encoding(last),
    decreases items.len(),
{
    let all = items.push(last);
    if items.len() == 0 {
        assert(all.drop_first() =~= Seq::<ValueView>::empty());
        assert(encoding_all(all) =~= encoding(last) + encoding_all(all.drop_first()));
        assert(encoding_all(all) =~= encoding_all(items) + encoding(last));
    } else {
        lemma_encoding_all_push(items.drop_first(), last);
        assert(all.drop_first() =~= items.drop_first().push(last));
        assert(encoding_all(all) =~= encoding_all(items) + encoding(last));
    }
}

fn push_bytes(out: &mut Vec<u8>, bytes: &[u8])
    ensures
        final(out)@ == old(out)@ + bytes@,
{
    out.extend_from_slice(bytes);
    assert(out@ =~= old(out)@ + bytes@);
}

fn push_crlf(out: &mut Vec<u8>)
    ensures
        final(out)@ == old(out)@ + crlf(),
{
    out.push(CR);
    out.push(LF);
    assert(out@ =~= old(out)@ + crlf());
}

impl Value {
    /// The canonical bytes of this value.
    pub fn marshal(&self) -> (out: Vec<u8>)
        ensures
            out@ == encoding(self@),
        decreases self,
    {
        match self {
            Value::SimpleString(text) => Value::string_marshal(text.as_slice()),
            Value::Error(text) => Value::error_marshal(text.as_slice()),
            Value::Integer(n) => Value::integer_marshal(*n),
            Value::BulkString(None) => Value::null_marshal(),
            Value::BulkString(Some(data)) => Value::bulk_marshal(data.as_slice()),
            Value::Array(None) => Value::null_array_marshal(),
            Value::Array(Some(items)) => Value::array_marshal(items),
        }
    }

    /// The bytes of the null bulk string.
    pub fn null_marshal() -> (out: Vec<u8>)
        ensures
            out@ == null_encoding(),
    {
        let mut out: Vec<u8> = Vec::new();
        out.push(BULK_MARK);
        push_decimal(-1, &mut out);
        push_crlf(&mut out);
        out
    }

    /// The bytes of the null array.
    pub fn null_array_marshal() -> (out: Vec<u8>)
        ensures
            out@ == null_array_encoding(),
    {
        let mut out: Vec<u8> = Vec::new();
        out.push(ARRAY_MARK);
        push_decimal(-1, &mut out);
        push_crlf(&mut out);
        out
    }

    /// The bytes of an error with the message `text`.
    pub fn error_marshal(text: &[u8]) -> (out: Vec<u8>)
        ensures
            out@ == error_encoding(text@),
    {
        let mut out: Vec<u8> = Vec::new();
        out.push(ERROR_MARK);
        push_bytes(&mut out, text);
        push_crlf(&mut out);
        out
    }

    /// The bytes of a simple string with the content `text`.
    pub fn string_marshal(text: &[u8]) -> (out: Vec<u8>)
        ensures
            out@ == simple_encoding(text@),
    {
        let mut out: Vec<u8> = Vec::new();
        out.push(SIMPLE_MARK);
        push_bytes(&mut out, text);
        push_crlf(&mut out);
        out
    }

    /// The bytes of a bulk string with the content `data`: its length in
    /// bytes, then the bytes themselves.
    pub fn bulk_marshal(data: &[u8]) -> (out: Vec<u8>)
        ensures
            out@ == bulk_encoding(data@),
    {
        let mut out: Vec<u8> = Vec::new();
        out.push(BULK_MARK);
        push_length(data.len(), &mut out);
        push_crlf(&mut out);
        push_bytes(&mut out, data);
        push_crlf(&mut out);
        out
    }

    /// The bytes of the integer `n`.
    pub fn integer_marshal(n: i64) -> (out: Vec<u8>)
        ensures
            out@ == integer_encoding(n),
    {
        let mut out: Vec<u8> = Vec::new();
        out.push(INTEGER_MARK);
        push_decimal(n, &mut out);
        push_crlf(&mut out);
        out
    }

    /// The bytes of an array with the elements `items`: their number, then
    /// each element's bytes in order.
    pub fn array_marshal(items: &Vec<Value>) -> (out: Vec<u8>)
        ensures
            out@ == array_header(items.len() as nat) + encoding_all(views_of(items@)),
        decreases items,
    {
        let mut out: Vec<u8> = Vec::new();
        out.push(ARRAY_MARK);
        push_length(items.len(), &mut out);
        push_crlf(&mut out);
        let ghost views = views_of(items@);
        assert(views.take(0) =~= Seq::<ValueView>::empty());
        let mut i: usize = 0;
        while i < items.len()
            invariant
                i <= items.len(),
                views == views_of(items@),
                out@ == array_header(items.len() as nat) + encoding_all(views.take(i as int)),
            decreases items.len() - i,
        {
            let part = items[i].marshal();
            proof {
                lemma_encoding_all_push(views.take(i as int), views[i as int]);
                assert(views.take(i + 1) =~= views.take(i as int).push(views[i as int]));
            }
            push_bytes(&mut out, part.as_slice());
            i += 1;
        }
        assert(views.take(items.len() as int) =~= views);
        out
    }
}

impl Clone for Value {
    /// A copy of the value, equal to it in content.
    fn clone(&self) -> (r: Self)
        ensures
            r@ == self@,
        decreases self,
    {
        match self {
            Value::SimpleString(text) => Value::SimpleString(slice_to_vec(text.as_slice())),
            Value::Error(text) => Value::Error(slice_to_vec(text.as_slice())),
            Value::Integer(n) => Value::Integer(*n),
            Value::BulkString(None) => Value::BulkString(None),
            Value::BulkString(Some(data)) => Value::BulkString(
                Some(slice_to_vec(data.as_slice())),
            ),
            Value::Array(None) => Value::Array(None),
            Value::Array(Some(items)) => Value::Array(Some(Value::clone_all(items))),
        }
    }
}

impl Value {
    /// Copies of `items`, in order.
    pub fn clone_all(items: &Vec<Value>) -> (r: Vec<Value>)
        ensures
            views_of(r@) == views_of(items@),
        decreases items,
    {
        let mut r: Vec<Value> = Vec::new();
        let mut i: usize = 0;
        while i < items.len()
            invariant
                i <= items.len(),
                r.len() == i,
                forall|j: int| 0 <= j < i ==> (#[trigger] r[j])@ == items[j]@,
            decreases items.len() - i,
        {
            r.push(items[i].clone());
            i += 1;
        }
        assert(views_of(r@) =~= views_of(items@));
        r
    }
}

/// A value in readable form: its kind, then its content. Errors and null
/// values have no readable form of their own.
pub open spec fn printed(v: ValueView) -> Seq<u8>
    decreases v, 0nat,
{
    match v {
        ValueView::Array(Some(items)) => "Array: [".spec_bytes() + printed_all(items)
            + "]".spec_bytes(),
        ValueView::BulkString(Some(data)) => "Bulk: \"".spec_bytes() + data + "\"".spec_bytes(),
        ValueView::SimpleString(text) => "String: \"".spec_bytes() + text + "\"".spec_bytes(),
        ValueView::Integer(n) => "Integer: ".spec_bytes() + decimal_text(n as int),
        _ => "Unknown".spec_bytes(),
    }
}

/// The readable forms of `items`, with a comma and a space between them.
pub open spec fn printed_all(items: Seq<ValueView>) -> Seq<u8>
    decreases items, 1nat,
{
    if items.len() == 0 {
        Seq::empty()
    } else if items.len() == 1 {
        printed(items[0])
    } else {
        printed_all(items.drop_last()) + ", ".spec_bytes() + printed(items.last())
    }
}

impl Value {
    /// The value in readable form, for logs and for debugging.
    pub fn print(&self) -> (out: Vec<u8>)
        ensures
            out@ == printed(self@),
        decreases self,
    {
        match self {
            Value::Array(Some(items)) => {
                let mut out = slice_to_vec("Array: [".as_bytes());
                let inner = Value::print_all(items);
                push_bytes(&mut out, inner.as_slice());
                push_bytes(&mut out, "]".as_bytes());
                out
            },
            Value::BulkString(Some(data)) => {
                let mut out = slice_to_vec("Bulk: \"".as_bytes());
                push_bytes(&mut out, data.as_slice());
                push_bytes(&mut out, "\"".as_bytes());
                out
            },
            Value::SimpleString(text) => {
                let mut out = slice_to_vec("String: \"".as_bytes());
                push_bytes(&mut out, text.as_slice());
                push_bytes(&mut out, "\"".as_bytes());
                out
            },
            Value::Integer(n) => {
                let mut out = slice_to_vec("Integer: ".as_bytes());
                push_decimal(*n, &mut out);
                out
            },
            _ => slice_to_vec("Unknown".as_bytes()),
        }
    }

    /// The readable forms of `items`, with a comma and a space between them.
    pub fn print_all(items: &Vec<Value>) -> (out: Vec<u8>)
        ensures
            out@ == printed_all(views_of(items@)),
        decreases items,
    {
        let mut out: Vec<u8> = Vec::new();
        let ghost views = views_of(items@);
        let mut i: usize = 0;
        while i < items.len()
            invariant
                i <= items.len(),
                views == views_of(items@),
                out@ == printed_all(views.take(i as int)),
            decreases items.len() - i,
        {
            if i > 0 {
                push_bytes(&mut out, ", ".as_bytes());
            }
            let part = items[i].print();
            proof {
                let next = views.take(i + 1);
                assert(next.drop_last() =~= views.take(i as int));
                assert(next.last() == views[i as int]);
            }
            push_bytes(&mut out, part.as_slice());
            assert(out@ =~= printed_all(views.take(i + 1)));
            i += 1;
        }
        assert(views.take(items.len() as int) =~= views);
        out
    }
}

// ---------------------------------------------------------------------------
// Decoding
// ---------------------------------------------------------------------------

/// Finds the first line terminator of `data` at or after `from`.
fn find_crlf(data: &[u8], from: usize) -> (r: Option<usize>)
    requires
        from <= data.len(),
    ensures
        match r {
            Some(i) => from <= i && i + 2 <= data.len() && is_first_crlf(
                data@.skip(from as int),
                i - from,
            ),
            None => !has_crlf(data@.skip(from as int)),
        },
{
    let ghost s = data@.skip(from as int);
    let mut i: usize = from;
    while data.len() - i >= 2
        invariant
            from <= i <= data.len(),
            s == data@.skip(from as int),
            forall|j: int| 0 <= j < i - from ==> !crlf_at(s, j),
        decreases data.len() - i,
    {
        if data[i] == CR && data[i + 1] == LF {
            assert(crlf_at(s, i - from));
            return Some(i);
        }
        assert(!crlf_at(s, i - from));
        i += 1;
    }
    assert forall|j: int| !crlf_at(s, j) by {
        if 0 <= j < i - from {
            assert(!crlf_at(s, j));
        }
    }
    None
}

/// Reads the line that starts at `pos`; gives the line and the position
/// after its terminator.
fn decode_line(data: &[u8], pos: usize) -> (r: Result<(Vec<u8>, usize), DecodeError>)
    requires
        pos <= data.len(),
    ensures
        match r {
            Ok((line, next)) => pos < next <= data.len() && parse_line(data@.skip(pos as int))
                == Ok::<(Seq<u8>, int), DecodeError>((line@, next - pos)),
            Err(e) => parse_line(data@.skip(pos as int)) == Err::<(Seq<u8>, int), DecodeError>(e),
        },
{
    match find_crlf(data, pos) {
        Some(end) => {
            let line = slice_to_vec(slice_subrange(data, pos, end));
            proof {
                let s = data@.skip(pos as int);
                lemma_first_crlf_is(s, end - pos);
                assert(line@ =~= s.take(end - pos));
            }
            Ok((line, end + 2))
        },
        None => Err(DecodeError::Incomplete),
    }
}

/// Reads the integer on the line that starts at `pos`; gives the integer
/// and the position after the line's terminator.
fn decode_integer(data: &[u8], pos: usize) -> (r: Result<(i64, usize), DecodeError>)
    requires
        pos <= data.len(),
    ensures
        match r {
            Ok((v, next)) => pos < next <= data.len() && parse_integer(
                data@.skip(pos as int),
                false,
            ) == Ok::<(i64, int), DecodeError>((v, next - pos)),
            Err(e) => parse_integer(data@.skip(pos as int), false) == Err::<
                (i64, int),
                DecodeError,
            >(e),
        },
{
    match find_crlf(data, pos) {
        Some(end) => {
            let line = slice_subrange(data, pos, end);
            proof {
                let s = data@.skip(pos as int);
                lemma_first_crlf_is(s, end - pos);
                assert(line@ =~= s.take(end - pos));
            }
            match parse_decimal(line) {
                Some(v) => Ok((v, end + 2)),
                None => Err(DecodeError::Protocol),
            }
        },
        None => Err(DecodeError::Incomplete),
    }
}

/// Reads a bulk string whose length header starts at `pos`.
fn decode_bulk(data: &[u8], pos: usize) -> (r: Result<(Value, usize), DecodeError>)
    requires
        pos <= data.len(),
    ensures
        match r {
            Ok((v, next)) => pos < next <= data.len() && parse_bulk(data@.skip(pos as int), false)
                == Ok::<(ValueView, int), DecodeError>((v@, next - pos)),
            Err(e) => parse_bulk(data@.skip(pos as int), false) == Err::<
                (ValueView, int),
                DecodeError,
            >(e),
        },
{
    let (len, start) = match decode_integer(data, pos) {
        Ok(header) => header,
        Err(e) => {
            return Err(e);
        },
    };
    if len == -1 {
        return Ok((Value::BulkString(None), start));
    }
    if len < 0 {
        return Err(DecodeError::Protocol);
    }
    let left: usize = data.len() - start;
    if left < 2 || ((left - 2) as u64) < (len as u64) {
        return Err(DecodeError::Incomplete);
    }
    let n: usize = len as usize;
    if data[start + n] != CR || data[start + n + 1] != LF {
        return Err(DecodeError::Protocol);
    }
    let body = slice_to_vec(slice_subrange(data, start, start + n));
    proof {
        let s = data@.skip(pos as int);
        assert(body@ =~= s.subrange(start - pos, start - pos + len));
    }
    Ok((Value::BulkString(Some(body)), start + n + 2))
}

/// What reading further items makes of the items read so far: `acc`, which
/// took `used` bytes, followed by what `rest` holds.
pub open spec fn items_then(
    acc: Seq<ValueView>,
    used: int,
    rest: Result<(Seq<ValueView>, int), DecodeError>,
) -> Result<(Seq<ValueView>, int), DecodeError> {
    match rest {
        Ok((more, n)) => Ok((acc + more, used + n)),
        Err(e) => Err(e),
    }
}

/// Reads an array whose count header starts at `pos`; its elements may
/// hold arrays nested up to `depth` deep.
fn decode_array(data: &[u8], pos: usize, depth: usize) -> (r: Result<(Value, usize), DecodeError>)
    requires
        pos <= data.len(),
    ensures
        match r {
            Ok((v, next)) => pos < next <= data.len() && parse_array(
                data@.skip(pos as int),
                depth as nat,
                false,
            ) == Ok::<(ValueView, int), DecodeError>((v@, next - pos)),
            Err(e) => parse_array(data@.skip(pos as int), depth as nat, false) == Err::<
                (ValueView, int),
                DecodeError,
            >(e),
        },
    decreases depth, 1nat,
{
    let (count, start) = match decode_integer(data, pos) {
        Ok(header) => header,
        Err(e) => {
            return Err(e);
        },
    };
    if count == -1 {
        return Ok((Value::Array(None), start));
    }
    if count < 0 {
        return Err(DecodeError::Protocol);
    }
    let ghost whole = parse_items(data@.skip(start as int), count as nat, depth as nat, false);
    assert(data@.skip(pos as int).skip(start - pos) =~= data@.skip(start as int));
    let mut items: Vec<Value> = Vec::new();
    let mut at: usize = start;
    let mut i: i64 = 0;
    assert(views_of(items@) + Seq::<ValueView>::empty() =~= Seq::<ValueView>::empty());
    while i < count
        invariant
            0 <= i <= count,
            start <= at <= data.len(),
            whole == parse_items(data@.skip(start as int), count as nat, depth as nat, false),
            parse_array(data@.skip(pos as int), depth as nat, false) == (match whole {
                Ok((all, m)) => Ok((ValueView::Array(Some(all)), start - pos + m)),
                Err(e) => Err(e),
            }),
            whole == items_then(
                views_of(items@),
                at - start,
                parse_items(data@.skip(at as int), (count - i) as nat, depth as nat, false),
            ),
        decreases count - i,
    {
        let ghost before = views_of(items@);
        match decode_value(data, at, depth) {
            Ok((item, next)) => {
                proof {
                    let tail = parse_items(
                        data@.skip(next as int),
                        (count - i - 1) as nat,
                        depth as nat,
                        false,
                    );
                    assert(data@.skip(at as int).skip(next - at) =~= data@.skip(next as int));
                    lemma_views_of(items@);
                    lemma_views_of(items@.push(item));
                    assert(views_of(items@.push(item)) =~= before.push(item@));
                    match tail {
                        Ok((more, n)) => {
                            assert(before + (seq![item@] + more) =~= before.push(item@) + more);
                        },
                        Err(_) => {},
                    }
                }
                items.push(item);
                at = next;
                i += 1;
            },
            Err(e) => {
                return Err(e);
            },
        }
    }
    proof {
        assert(views_of(items@) + Seq::<ValueView>::empty() =~= views_of(items@));
    }
    Ok((Value::Array(Some(items)), at))
}

/// Reads the value that starts at `pos`, when arrays may nest `depth` deep.
fn decode_value(data: &[u8], pos: usize, depth: usize) -> (r: Result<(Value, usize), DecodeError>)
    requires
        pos <= data.len(),
    ensures
        match r {
            Ok((v, next)) => pos < next <= data.len() && parse_value(
                data@.skip(pos as int),
                depth as nat,
                false,
            ) == Ok::<(ValueView, int), DecodeError>((v@, next - pos)),
            Err(e) => parse_value(data@.skip(pos as int), depth as nat, false) == Err::<
                (ValueView, int),
                DecodeError,
            >(e),
        },
    decreases depth, 0nat,
{
    if pos == data.len() {
        return Err(DecodeError::Incomplete);
    }
    let mark = data[pos];
    assert(data@.skip(pos as int).skip(1) =~= data@.skip(pos + 1));
    if mark == SIMPLE_MARK {
        match decode_line(data, pos + 1) {
            Ok((text, next)) => Ok((Value::SimpleString(text), next)),
            Err(e) => Err(e),
        }
    } else if mark == ERROR_MARK {
        match decode_line(data, pos + 1) {
            Ok((text, next)) => Ok((Value::Error(text), next)),
            Err(e) => Err(e),
        }
    } else if mark == INTEGER_MARK {
        match decode_integer(data, pos + 1) {
            Ok((v, next)) => Ok((Value::Integer(v), next)),
            Err(e) => Err(e),
        }
    } else if mark == BULK_MARK {
        decode_bulk(data, pos + 1)
    } else if mark == ARRAY_MARK {
        if depth == 0 {
            Err(DecodeError::Protocol)
        } else {
            decode_array(data, pos + 1, depth - 1)
        }
    } else {
        Err(DecodeError::Protocol)
    }
}

/// Decodes the value at the start of `bytes`; gives the value and the
/// number of bytes it takes. Bytes after the value are left alone.
///
/// `Incomplete` means that `bytes` ends before the value is fully framed;
/// `Protocol` means that no further input can make a value of `bytes`.
pub fn decode(bytes: &[u8]) -> (r: Result<(Value, usize), DecodeError>)
    ensures
        match r {
            Ok((v, n)) => 0 < n <= bytes.len() && decoding(bytes@) == Ok::<
                (ValueView, int),
                DecodeError,
            >((v@, n as int)),
            Err(e) => decoding(bytes@) == Err::<(ValueView, int), DecodeError>(e),
        },
{
    assert(bytes@.skip(0) =~= bytes@);
    decode_value(bytes, 0, MAX_DEPTH)
}

// ---------------------------------------------------------------------------
// Reading from a buffer, writing to a buffer
// ---------------------------------------------------------------------------

/// A reader over the bytes that have arrived so far. A successful read
/// consumes what it read; a failed one consumes nothing, so that after
/// `Incomplete` the caller can feed more bytes and read again.
pub struct Resp {
    data: Vec<u8>,
    pos: usize,
}

impl Resp {
    #[verifier::type_invariant]
    spec fn well_formed(self) -> bool {
        self.pos <= self.data.len()
    }

    /// The bytes that were fed in and that no read has consumed yet.
    pub closed spec fn pending(self) -> Seq<u8> {
        self.data@.skip(self.pos as int)
    }

    /// A reader with nothing to read yet.
    pub fn new_resp() -> (r: Self)
        ensures
            r.pending() == Seq::<u8>::empty(),
    {
        let r = Resp { data: Vec::new(), pos: 0 };
        assert(r.pending() =~= Seq::<u8>::empty());
        r
    }

    /// A reader over `data`.
    pub fn from_bytes(data: Vec<u8>) -> (r: Self)
        ensures
            r.pending() == data@,
    {
        let r = Resp { data, pos: 0 };
        assert(r.pending() =~= data@);
        r
    }

    /// Adds `bytes` after what is pending, and lets go of what earlier
    /// reads consumed.
    pub fn feed(&mut self, bytes: &[u8])
        ensures
            final(self).pending() == old(self).pending() + bytes@,
    {
        proof {
            use_type_invariant(&*self);
        }
        let mut data = slice_to_vec(
            slice_subrange(self.data.as_slice(), self.pos, self.data.len()),
        );
        push_bytes(&mut data, bytes);
        *self = Resp { data, pos: 0 };
        assert(self.pending() =~= old(self).pending() + bytes@);
    }

    /// The number of pending bytes.
    pub fn remaining(&self) -> (n: usize)
        ensures
            n == self.pending().len(),
    {
        proof {
            use_type_invariant(self);
        }
        self.data.len() - self.pos
    }

    /// Reads one line; gives the line without its terminator, and the
    /// number of bytes consumed, terminator included.
    pub fn read_line(&mut self) -> (r: Result<(Vec<u8>, usize), DecodeError>)
        ensures
            match r {
                Ok((line, n)) => parse_line(old(self).pending()) == Ok::<
                    (Seq<u8>, int),
                    DecodeError,
                >((line@, n as int)) && final(self).pending() == old(self).pending().skip(n as int),
                Err(e) => parse_line(old(self).pending()) == Err::<(Seq<u8>, int), DecodeError>(e)
                    && final(self).pending() == old(self).pending(),
            },
    {
        proof {
            use_type_invariant(&*self);
        }
        match decode_line(self.data.as_slice(), self.pos) {
            Ok((line, next)) => {
                let n = next - self.pos;
                self.pos = next;
                assert(self.pending() =~= old(self).pending().skip(n as int));
                Ok((line, n))
            },
            Err(e) => Err(e),
        }
    }

    /// Reads one line as a decimal integer.
    pub fn read_integer(&mut self) -> (r: Result<i64, DecodeError>)
        ensures
            match r {
                Ok(v) => parse_integer(old(self).pending(), false) matches Ok((w, n)) && w == v
                    && final(self).pending() == old(self).pending().skip(n),
                Err(e) => parse_integer(old(self).pending(), false) == Err::<
                    (i64, int),
                    DecodeError,
                >(e) && final(self).pending() == old(self).pending(),
            },
    {
        proof {
            use_type_invariant(&*self);
        }
        match decode_integer(self.data.as_slice(), self.pos) {
            Ok((v, next)) => {
                let ghost n = next - self.pos;
                self.pos = next;
                assert(self.pending() =~= old(self).pending().skip(n));
                Ok(v)
            },
            Err(e) => Err(e),
        }
    }

    /// Reads the rest of an array whose marker has been consumed: the
    /// count, then that many values.
    pub fn read_array(&mut self) -> (r: Result<Value, DecodeError>)
        ensures
            match r {
                Ok(v) => parse_array(old(self).pending(), (MAX_DEPTH - 1) as nat, false) matches Ok(
                    (w, n),
                ) && w == v@ && final(self).pending() == old(self).pending().skip(n),
                Err(e) => parse_array(old(self).pending(), (MAX_DEPTH - 1) as nat, false) == Err::<
                    (ValueView, int),
                    DecodeError,
                >(e) && final(self).pending() == old(self).pending(),
            },
    {
        proof {
            use_type_invariant(&*self);
        }
        match decode_array(self.data.as_slice(), self.pos, MAX_DEPTH - 1) {
            Ok((v, next)) => {
                let ghost n = next - self.pos;
                self.pos = next;
                assert(self.pending() =~= old(self).pending().skip(n));
                Ok(v)
            },
            Err(e) => Err(e),
        }
    }

    /// Reads the rest of a bulk string whose marker has been consumed: the
    /// length, then that many bytes and a line terminator.
    pub fn read_bulk(&mut self) -> (r: Result<Value, DecodeError>)
        ensures
            match r {
                Ok(v) => parse_bulk(old(self).pending(), false) matches Ok((w, n)) && w == v@
                    && final(self).pending() == old(self).pending().skip(n),
                Err(e) => parse_bulk(old(self).pending(), false) == Err::<
                    (ValueView, int),
                    DecodeError,
                >(e) && final(self).pending() == old(self).pending(),
            },
    {
        proof {
            use_type_invariant(&*self);
        }
        match decode_bulk(self.data.as_slice(), self.pos) {
            Ok((v, next)) => {
                let ghost n = next - self.pos;
                self.pos = next;
                assert(self.pending() =~= old(self).pending().skip(n));
                Ok(v)
            },
            Err(e) => Err(e),
        }
    }

    /// Reads one value: its marker, then what the marker announces.
    pub fn read(&mut self) -> (r: Result<Value, DecodeError>)
        ensures
            match r {
                Ok(v) => decoding(old(self).pending()) matches Ok((w, n)) && w == v@
                    && final(self).pending() == old(self).pending().skip(n),
                Err(e) => decoding(old(self).pending()) == Err::<(ValueView, int), DecodeError>(e)
                    && final(self).pending() == old(self).pending(),
            },
    {
        proof {
            use_type_invariant(&*self);
        }
        match decode_value(self.data.as_slice(), self.pos, MAX_DEPTH) {
            Ok((v, next)) => {
                let ghost n = next - self.pos;
                self.pos = next;
                assert(self.pending() =~= old(self).pending().skip(n));
                Ok(v)
            },
            Err(e) => Err(e),
        }
    }
}

/// Collects the encodings of the values written to it, in order.
pub struct Writer {
    pub writer: Vec<u8>,
}

impl Writer {
    /// A writer that appends to `writer`.
    pub fn new(writer: Vec<u8>) -> (w: Self)
        ensures
            w.writer == writer,
    {
        Writer { writer }
    }

    /// Appends the canonical bytes of `v`.
    pub fn write(&mut self, v: &Value)
        ensures
            final(self).writer@ == old(self).writer@ + encoding(v@),
    {
        let bytes = v.marshal();
        push_bytes(&mut self.writer, bytes.as_slice());
    }
}

} // verus!
