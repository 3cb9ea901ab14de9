//! How the two halves of the codec fit together: reading what was written
//! gives the value back, and writing what was read gives the bytes back.

use vstd::prelude::*;
use crate::decimal::{
    decimal, decimal_value, is_canonical_numeral, is_digit_byte, lemma_canonical_round_trip,
    lemma_decimal_round_trip, lemma_decimal_shape, lemma_signed_round_trip, signed_decimal,
    signed_value,
};
use crate::parser::{
    count_value, crlf_at, is_nil_marker, lemma_line_end_is_first, lemma_line_end_skips,
    lemma_parse_bounds, lemma_parse_items_bounds, line_end, parse, parse_at, parse_items_at,
    Parsed,
};
use crate::values::{crlf, encoding, encoding_all, Value};

verus! {

/// Whether a string holds a carriage return directly followed by a line
/// feed.
pub open spec fn has_crlf(s: Seq<u8>) -> bool {
    exists|i: int| crlf_at(s, i)
}

/// The values that survive a trip over the wire unchanged: a simple string
/// or an error holds no line terminator, and every length fits the machine's
/// word.
pub open spec fn is_transmissible(v: Value) -> bool
    decreases v,
{
    match v {
        Value::SimpleString(s) => !has_crlf(s),
        Value::Error(s) => !has_crlf(s),
        Value::Integer(_) => true,
        Value::BulkString(s) => s.len() <= usize::MAX,
        Value::NilBulk => true,
        Value::Array(items) => items.len() <= usize::MAX && forall|i: int|
            0 <= i < items.len() ==> is_transmissible(#[trigger] items[i]),
        Value::NilArray => true,
    }
}

/// The wire forms of a non-empty sequence are the wire form of its first
/// item followed by those of the rest.
pub proof fn lemma_encoding_all_front(items: Seq<Value>)
    requires
        items.len() > 0,
    ensures
        encoding_all(items) == encoding(items[0]) + encoding_all(items.skip(1)),
    decreases items.len(),
{
    if items.len() == 1 {
        assert(items.drop_last() =~= Seq::<Value>::empty());
        assert(items.skip(1) =~= Seq::<Value>::empty());
        assert(encoding_all(items) =~= encoding(items[0]) + encoding_all(items.skip(1)));
    } else {
        let shorter = items.drop_last();
        lemma_encoding_all_front(shorter);
        assert(shorter.skip(1) =~= items.skip(1).drop_last());
        assert(items.skip(1).last() == items.last());
        assert(shorter[0] == items[0]);
        assert(encoding_all(items) =~= encoding(items[0]) + encoding_all(items.skip(1)));
    }
}

/// Whether `part` stands in `bytes` at `pos`.
pub open spec fn holds_at(bytes: Seq<u8>, pos: int, part: Seq<u8>) -> bool {
    0 <= pos && pos + part.len() <= bytes.len() && bytes.subrange(pos, pos + part.len()) == part
}

/// Where two parts joined stand at `pos`, the first stands at `pos` and the
/// second just behind it.
proof fn lemma_holds_split(bytes: Seq<u8>, pos: int, a: Seq<u8>, b: Seq<u8>)
    requires
        holds_at(bytes, pos, a + b),
    ensures
        holds_at(bytes, pos, a),
        holds_at(bytes, pos + a.len(), b),
{
    let whole = bytes.subrange(pos, pos + (a + b).len());
    assert(bytes.subrange(pos, pos + a.len()) =~= a) by {
        assert forall|k: int| 0 <= k < a.len() implies bytes[pos + k] == a[k] by {
            assert(whole[k] == (a + b)[k]);
        }
    }
    assert(bytes.subrange(pos + a.len(), pos + a.len() + b.len()) =~= b) by {
        assert forall|k: int| 0 <= k < b.len() implies bytes[pos + a.len() + k] == b[k] by {
            assert(whole[a.len() + k] == (a + b)[a.len() + k]);
        }
    }
}

/// A byte of a part that stands at `pos` is the byte of `bytes` at the
/// matching place.
proof fn lemma_holds_index(bytes: Seq<u8>, pos: int, part: Seq<u8>, k: int)
    requires
        holds_at(bytes, pos, part),
        0 <= k < part.len(),
    ensures
        bytes[pos + k] == part[k],
{
    assert(bytes.subrange(pos, pos + part.len())[k] == part[k]);
}

/// A line that holds no line terminator and is followed by one is found
/// again whole.
proof fn lemma_line_found(bytes: Seq<u8>, from: int, line: Seq<u8>)
    requires
        holds_at(bytes, from, line + crlf()),
        forall|k: int| 0 <= k < line.len() ==> !(line[k] == 13 && (line + crlf())[k + 1] == 10),
    ensures
        line_end(bytes, from) == Some(from + line.len()),
        bytes.subrange(from, from + line.len()) == line,
{
    let end = from + line.len();
    lemma_holds_split(bytes, from, line, crlf());
    lemma_holds_index(bytes, end, crlf(), 0);
    lemma_holds_index(bytes, end, crlf(), 1);
    assert forall|j: int| from <= j < end implies !crlf_at(bytes, j) by {
        lemma_holds_index(bytes, from, line + crlf(), j - from);
        lemma_holds_index(bytes, from, line + crlf(), j - from + 1);
    }
    lemma_line_end_skips(bytes, from, end);
}

/// A string of digits followed by a line terminator is found again whole.
proof fn lemma_digits_line(bytes: Seq<u8>, from: int, digits: Seq<u8>)
    requires
        holds_at(bytes, from, digits + crlf()),
        forall|k: int| 0 <= k < digits.len() ==> digits[k] != 13,
    ensures
        line_end(bytes, from) == Some(from + digits.len()),
        bytes.subrange(from, from + digits.len()) == digits,
{
    lemma_line_found(bytes, from, digits);
}

/// The wire form of a simple string or an error, read back.
proof fn lemma_decode_text(bytes: Seq<u8>, pos: int, tag: u8, s: Seq<u8>)
    requires
        tag == 43 || tag == 45,
        !has_crlf(s),
        holds_at(bytes, pos, seq![tag] + s + crlf()),
    ensures
        line_end(bytes, pos + 1) == Some(pos + 1 + s.len()),
        bytes.subrange(pos + 1, pos + 1 + s.len()) == s,
        bytes[pos] == tag,
        pos + s.len() + 3 <= bytes.len(),
{
    assert(seq![tag] + s + crlf() =~= seq![tag] + (s + crlf()));
    lemma_holds_split(bytes, pos, seq![tag], s + crlf());
    lemma_holds_index(bytes, pos, seq![tag], 0);
    assert forall|k: int| 0 <= k < s.len() implies !(s[k] == 13 && (s + crlf())[k + 1] == 10) by {
        if k + 1 < s.len() {
            assert(!crlf_at(s, k));
        }
    }
    lemma_line_found(bytes, pos + 1, s);
}

/// The wire form of an integer, read back.
proof fn lemma_decode_integer(bytes: Seq<u8>, pos: int, n: i64)
    requires
        holds_at(bytes, pos, seq![58u8] + signed_decimal(n as int) + crlf()),
    ensures
        parse_at(bytes, pos) == (Parsed::Complete {
            value: Value::Integer(n),
            next: pos + signed_decimal(n as int).len() + 3,
        }),
{
    let digits = signed_decimal(n as int);
    assert(seq![58u8] + digits + crlf() =~= seq![58u8] + (digits + crlf()));
    lemma_holds_split(bytes, pos, seq![58u8], digits + crlf());
    lemma_holds_index(bytes, pos, seq![58u8], 0);
    lemma_signed_round_trip(n as int);
    assert forall|k: int| 0 <= k < digits.len() implies digits[k] != 13 by {
        if n < 0 {
            lemma_decimal_shape((-n) as nat);
            if k > 0 {
                assert(digits[k] == decimal((-n) as nat)[k - 1]);
                assert(is_digit_byte(decimal((-n) as nat)[k - 1]));
            }
        } else {
            lemma_decimal_shape(n as nat);
            assert(is_digit_byte(digits[k]));
        }
    }
    lemma_digits_line(bytes, pos + 1, digits);
}

/// The header of a bulk string or an array with its count, read back.
proof fn lemma_decode_header(bytes: Seq<u8>, pos: int, tag: u8, n: nat)
    requires
        holds_at(bytes, pos, seq![tag] + decimal(n) + crlf()),
        n <= usize::MAX,
    ensures
        bytes[pos] == tag,
        line_end(bytes, pos + 1) == Some(pos + 1 + decimal(n).len()),
        bytes.subrange(pos + 1, pos + 1 + decimal(n).len()) == decimal(n),
        !is_nil_marker(decimal(n)),
        count_value(decimal(n)) == Some(n),
{
    let digits = decimal(n);
    assert(seq![tag] + digits + crlf() =~= seq![tag] + (digits + crlf()));
    lemma_holds_split(bytes, pos, seq![tag], digits + crlf());
    lemma_holds_index(bytes, pos, seq![tag], 0);
    lemma_decimal_shape(n);
    lemma_decimal_round_trip(n);
    assert forall|k: int| 0 <= k < digits.len() implies digits[k] != 13 by {
        assert(is_digit_byte(digits[k]));
    }
    lemma_digits_line(bytes, pos + 1, digits);
    assert(is_digit_byte(digits[0]));
}

/// The wire form of a bulk string, read back.
proof fn lemma_decode_bulk(bytes: Seq<u8>, pos: int, s: Seq<u8>)
    requires
        s.len() <= usize::MAX,
        holds_at(bytes, pos, encoding(Value::BulkString(s))),
    ensures
        parse_at(bytes, pos) == (Parsed::Complete {
            value: Value::BulkString(s),
            next: pos + encoding(Value::BulkString(s)).len(),
        }),
{
    let header = seq![36u8] + decimal(s.len()) + crlf();
    assert(encoding(Value::BulkString(s)) =~= header + (s + crlf()));
    lemma_holds_split(bytes, pos, header, s + crlf());
    lemma_decode_header(bytes, pos, 36u8, s.len());
    let body = pos + header.len();
    lemma_holds_split(bytes, body, s, crlf());
    lemma_holds_index(bytes, body + s.len(), crlf(), 0);
    lemma_holds_index(bytes, body + s.len(), crlf(), 1);
}

/// The wire form of a nil bulk or a nil array, read back.
proof fn lemma_decode_nil(bytes: Seq<u8>, pos: int, tag: u8)
    requires
        holds_at(bytes, pos, seq![tag, 45u8, 49u8, 13u8, 10u8]),
    ensures
        bytes[pos] == tag,
        line_end(bytes, pos + 1) == Some(pos + 3),
        is_nil_marker(bytes.subrange(pos + 1, pos + 3)),
        pos + 5 <= bytes.len(),
{
    let part = seq![tag, 45u8, 49u8, 13u8, 10u8];
    lemma_holds_index(bytes, pos, part, 0);
    lemma_holds_index(bytes, pos, part, 1);
    lemma_holds_index(bytes, pos, part, 2);
    lemma_holds_index(bytes, pos, part, 3);
    lemma_holds_index(bytes, pos, part, 4);
    assert(!crlf_at(bytes, pos + 1));
    assert(!crlf_at(bytes, pos + 2));
    lemma_line_end_skips(bytes, pos + 1, pos + 3);
}

/// Reading the wire form of a transmissible value, wherever it stands
/// among other bytes, gives the value and stops just behind it.
pub proof fn lemma_decode_encoded_at(v: Value, bytes: Seq<u8>, pos: int)
    requires
        is_transmissible(v),
        holds_at(bytes, pos, encoding(v)),
    ensures
        parse_at(bytes, pos) == (Parsed::Complete { value: v, next: pos + encoding(v).len() }),
    decreases v, 0nat,
{
    match v {
        Value::SimpleString(s) => {
            lemma_decode_text(bytes, pos, 43u8, s);
        },
        Value::Error(s) => {
            lemma_decode_text(bytes, pos, 45u8, s);
        },
        Value::Integer(n) => {
            lemma_decode_integer(bytes, pos, n);
        },
        Value::BulkString(s) => {
            lemma_decode_bulk(bytes, pos, s);
        },
        Value::NilBulk => {
            lemma_decode_nil(bytes, pos, 36u8);
        },
        Value::NilArray => {
            lemma_decode_nil(bytes, pos, 42u8);
        },
        Value::Array(items) => {
            let header = seq![42u8] + decimal(items.len()) + crlf();
            lemma_holds_split(bytes, pos, header, encoding_all(items));
            lemma_decode_header(bytes, pos, 42u8, items.len());
            assert(items.skip(0) =~= items);
            lemma_decode_encoded_items(items, 0, bytes, pos + header.len());
        },
    }
}

/// Reading the wire forms of transmissible values from the `k`-th on gives
/// those values and stops just behind the last.
proof fn lemma_decode_encoded_items(items: Seq<Value>, k: int, bytes: Seq<u8>, pos: int)
    requires
        0 <= k <= items.len(),
        forall|i: int| 0 <= i < items.len() ==> is_transmissible(#[trigger] items[i]),
        holds_at(bytes, pos, encoding_all(items.skip(k))),
    ensures
        parse_items_at(bytes, pos, (items.len() - k) as nat) == (Parsed::Complete {
            value: items.skip(k),
            next: pos + encoding_all(items.skip(k)).len(),
        }),
    decreases items, items.len() - k,
{
    let tail = items.skip(k);
    if k == items.len() {
        assert(tail =~= Seq::<Value>::empty());
    } else {
        lemma_encoding_all_front(tail);
        assert(tail[0] == items[k]);
        assert(tail.skip(1) =~= items.skip(k + 1));
        let first = encoding(items[k]);
        lemma_holds_split(bytes, pos, first, encoding_all(items.skip(k + 1)));
        lemma_decode_encoded_at(items[k], bytes, pos);
        lemma_decode_encoded_items(items, k + 1, bytes, pos + first.len());
        assert(seq![items[k]] + items.skip(k + 1) =~= tail);
    }
}

/// Decoding inverts encoding: the wire form of a transmissible value, read
/// back, is that value, and all of the wire form is consumed. Bytes that
/// follow the frame do not change what is read.
pub proof fn decode_inverts_encode(v: Value, after: Seq<u8>)
    requires
        is_transmissible(v),
    ensures
        parse(encoding(v) + after) == (Parsed::Complete {
            value: v,
            next: encoding(v).len() as int,
        }),
        parse(encoding(v)) == (Parsed::Complete { value: v, next: encoding(v).len() as int }),
{
    let enc = encoding(v);
    assert((enc + after).subrange(0, enc.len() as int) =~= enc);
    lemma_decode_encoded_at(v, enc + after, 0);
    assert(enc.subrange(0, enc.len() as int) =~= enc);
    lemma_decode_encoded_at(v, enc, 0);
}

/// Whether a signed numeral is written the way `signed_decimal` writes it:
/// no superfluous zero, and no minus sign before a zero.
pub open spec fn is_canonical_signed(s: Seq<u8>) -> bool {
    if s.len() > 0 && s[0] == 45 {
        is_canonical_numeral(s.skip(1)) && decimal_value(s.skip(1)) != 0
    } else {
        is_canonical_numeral(s)
    }
}

/// Whether every number in the frame at `pos` is written in its shortest
/// form. The reader also accepts numbers with leading zeros; such a frame is
/// read as the same value but is not the value's wire form.
pub open spec fn is_plain_at(bytes: Seq<u8>, pos: int) -> bool
    decreases bytes.len() - pos, 0nat,
{
    if pos < 0 || pos >= bytes.len() {
        true
    } else {
        match line_end(bytes, pos + 1) {
            None => true,
            Some(end) => {
                let line = bytes.subrange(pos + 1, end);
                if end < pos + 1 || end + 2 > bytes.len() {
                    true
                } else if bytes[pos] == 58 {
                    is_canonical_signed(line)
                } else if bytes[pos] == 36 {
                    is_nil_marker(line) || is_canonical_numeral(line)
                } else if bytes[pos] == 42 {
                    is_nil_marker(line) || (is_canonical_numeral(line) && are_plain_at(
                        bytes,
                        end + 2,
                        decimal_value(line),
                    ))
                } else {
                    true
                }
            },
        }
    }
}

/// Whether the `n` frames from `pos` on are all plain.
pub open spec fn are_plain_at(bytes: Seq<u8>, pos: int, n: nat) -> bool
    decreases bytes.len() - pos, n + 1,
{
    if n == 0 {
        true
    } else {
        match parse_at(bytes, pos) {
            Parsed::Complete { value, next } => pos <= next <= bytes.len() && is_plain_at(
                bytes,
                pos,
            ) && are_plain_at(bytes, next, (n - 1) as nat),
            _ => true,
        }
    }
}

/// A canonical signed numeral is what `signed_decimal` writes for the
/// number it denotes.
proof fn lemma_canonical_signed(line: Seq<u8>)
    requires
        is_canonical_signed(line),
    ensures
        signed_value(line) matches Some(n) && signed_decimal(n) == line,
{
    if line.len() > 0 && line[0] == 45 {
        let digits = line.skip(1);
        lemma_canonical_round_trip(digits);
        assert(line =~= seq![45u8] + digits);
    } else {
        lemma_canonical_round_trip(line);
    }
}

/// A frame of one line is its tag, the line and the terminator.
proof fn lemma_line_frame(bytes: Seq<u8>, pos: int, end: int)
    requires
        0 <= pos < bytes.len(),
        line_end(bytes, pos + 1) == Some(end),
    ensures
        pos + 1 <= end,
        end + 2 <= bytes.len(),
        bytes.subrange(pos, end + 2) == seq![bytes[pos]] + bytes.subrange(pos + 1, end) + crlf(),
{
    lemma_line_end_is_first(bytes, pos + 1);
    assert(bytes.subrange(pos, end + 2) =~= seq![bytes[pos]] + bytes.subrange(pos + 1, end)
        + crlf());
}

/// Writing the value that was read from a plain frame gives the frame's
/// bytes again.
pub proof fn lemma_encode_decoded_at(bytes: Seq<u8>, pos: int)
    requires
        0 <= pos,
        parse_at(bytes, pos) is Complete,
        is_plain_at(bytes, pos),
    ensures
        parse_at(bytes, pos) matches Parsed::Complete { value, next } && pos < next <= bytes.len()
            && bytes.subrange(pos, next) == encoding(value),
    decreases bytes.len() - pos, 0nat,
{
    lemma_parse_bounds(bytes, pos);
    let end = line_end(bytes, pos + 1)->Some_0;
    let line = bytes.subrange(pos + 1, end);
    let body = end + 2;
    lemma_line_frame(bytes, pos, end);
    if bytes[pos] == 58 {
        lemma_canonical_signed(line);
    } else if bytes[pos] == 36 {
        if is_nil_marker(line) {
            assert(bytes.subrange(pos, body) =~= seq![36u8, 45u8, 49u8, 13u8, 10u8]);
        } else {
            lemma_canonical_round_trip(line);
            let n = decimal_value(line);
            let s = bytes.subrange(body, body + n);
            assert(bytes.subrange(pos, body + n + 2) =~= bytes.subrange(pos, body) + (s + crlf()));
            assert(encoding(Value::BulkString(s)) =~= bytes.subrange(pos, body) + (s + crlf()));
        }
    } else if bytes[pos] == 42 {
        if is_nil_marker(line) {
            assert(bytes.subrange(pos, body) =~= seq![42u8, 45u8, 49u8, 13u8, 10u8]);
        } else {
            lemma_canonical_round_trip(line);
            let n = decimal_value(line);
            lemma_parse_items_bounds(bytes, body, n);
            lemma_encode_decoded_items(bytes, body, n);
            let next = parse_items_at(bytes, body, n)->next;
            assert(bytes.subrange(pos, next) =~= bytes.subrange(pos, body) + bytes.subrange(
                body,
                next,
            ));
        }
    }
}

/// Writing the values that were read from a run of plain frames gives the
/// bytes of the run again.
proof fn lemma_encode_decoded_items(bytes: Seq<u8>, pos: int, n: nat)
    requires
        0 <= pos <= bytes.len(),
        parse_items_at(bytes, pos, n) is Complete,
        are_plain_at(bytes, pos, n),
    ensures
        parse_items_at(bytes, pos, n) matches Parsed::Complete { value, next } && pos <= next
            <= bytes.len() && bytes.subrange(pos, next) == encoding_all(value),
    decreases bytes.len() - pos, n + 1,
{
    lemma_parse_items_bounds(bytes, pos, n);
    if n == 0 {
        assert(bytes.subrange(pos, pos) =~= Seq::<u8>::empty());
    } else {
        lemma_parse_bounds(bytes, pos);
        let first = parse_at(bytes, pos);
        let mid = first->next;
        let rest = parse_items_at(bytes, mid, (n - 1) as nat);
        lemma_encode_decoded_at(bytes, pos);
        lemma_parse_items_bounds(bytes, mid, (n - 1) as nat);
        lemma_encode_decoded_items(bytes, mid, (n - 1) as nat);
        let items = seq![first->value] + rest->value;
        lemma_encoding_all_front(items);
        assert(items.skip(1) =~= rest->value);
        assert(bytes.subrange(pos, rest->next) =~= bytes.subrange(pos, mid) + bytes.subrange(
            mid,
            rest->next,
        ));
    }
}

/// Encoding inverts decoding: where the bytes begin with a frame whose
/// numbers are all written in their shortest form, writing the value that is
/// read from it reproduces the frame byte for byte.
pub proof fn encode_inverts_decode(bytes: Seq<u8>)
    requires
        parse(bytes) is Complete,
        is_plain_at(bytes, 0),
    ensures
        parse(bytes) matches Parsed::Complete { value, next } && 0 < next <= bytes.len()
            && encoding(value) == bytes.take(next),
{
    lemma_encode_decoded_at(bytes, 0);
    let next = parse(bytes)->next;
    assert(bytes.take(next) =~= bytes.subrange(0, next));
}

/// What `encode` writes for a transmissible value is a plain frame: every
/// number in it stands in its shortest form.
pub proof fn encoded_frames_are_plain(v: Value)
    requires
        is_transmissible(v),
    ensures
        is_plain_at(encoding(v), 0),
{
    let enc = encoding(v);
    assert(enc.subrange(0, enc.len() as int) =~= enc);
    lemma_encoded_is_plain_at(v, enc, 0);
}

/// The wire form of a transmissible value is a plain frame wherever it
/// stands.
proof fn lemma_encoded_is_plain_at(v: Value, bytes: Seq<u8>, pos: int)
    requires
        is_transmissible(v),
        holds_at(bytes, pos, encoding(v)),
    ensures
        is_plain_at(bytes, pos),
    decreases v, 0nat,
{
    match v {
        Value::SimpleString(s) => {
            lemma_decode_text(bytes, pos, 43u8, s);
        },
        Value::Error(s) => {
            lemma_decode_text(bytes, pos, 45u8, s);
        },
        Value::Integer(n) => {
            lemma_plain_integer(bytes, pos, n);
        },
        Value::BulkString(s) => {
            let header = seq![36u8] + decimal(s.len()) + crlf();
            assert(encoding(v) =~= header + (s + crlf()));
            lemma_holds_split(bytes, pos, header, s + crlf());
            lemma_decode_header(bytes, pos, 36u8, s.len());
            lemma_decimal_shape(s.len());
        },
        Value::NilBulk => {
            lemma_decode_nil(bytes, pos, 36u8);
        },
        Value::NilArray => {
            lemma_decode_nil(bytes, pos, 42u8);
        },
        Value::Array(items) => {
            let header = seq![42u8] + decimal(items.len()) + crlf();
            lemma_holds_split(bytes, pos, header, encoding_all(items));
            lemma_decode_header(bytes, pos, 42u8, items.len());
            lemma_decimal_shape(items.len());
            lemma_decimal_round_trip(items.len());
            assert(items.skip(0) =~= items);
            lemma_encoded_are_plain_at(items, 0, bytes, pos + header.len());
        },
    }
}

/// The wire form of an integer is a plain frame.
proof fn lemma_plain_integer(bytes: Seq<u8>, pos: int, n: i64)
    requires
        holds_at(bytes, pos, seq![58u8] + signed_decimal(n as int) + crlf()),
    ensures
        is_plain_at(bytes, pos),
{
    lemma_decode_integer(bytes, pos, n);
    lemma_parse_bounds(bytes, pos);
    lemma_line_end_is_first(bytes, pos + 1);
    let digits = signed_decimal(n as int);
    assert(seq![58u8] + digits + crlf() =~= seq![58u8] + (digits + crlf()));
    lemma_holds_split(bytes, pos, seq![58u8], digits + crlf());
    lemma_holds_index(bytes, pos, seq![58u8], 0);
    lemma_digits_shape_signed(n as int);
    assert forall|k: int| 0 <= k < digits.len() implies digits[k] != 13 by {
        lemma_signed_has_no_cr(n as int, k);
    }
    lemma_digits_line(bytes, pos + 1, digits);
}

/// No byte of a signed numeral is a carriage return.
proof fn lemma_signed_has_no_cr(n: int, k: int)
    requires
        0 <= k < signed_decimal(n).len(),
    ensures
        signed_decimal(n)[k] != 13,
{
    if n < 0 {
        lemma_decimal_shape((-n) as nat);
        if k > 0 {
            assert(signed_decimal(n)[k] == decimal((-n) as nat)[k - 1]);
            assert(is_digit_byte(decimal((-n) as nat)[k - 1]));
        }
    } else {
        lemma_decimal_shape(n as nat);
        assert(is_digit_byte(signed_decimal(n)[k]));
    }
}

/// What `signed_decimal` writes is a canonical signed numeral.
proof fn lemma_digits_shape_signed(n: int)
    ensures
        is_canonical_signed(signed_decimal(n)),
{
    if n < 0 {
        let m = (-n) as nat;
        lemma_decimal_shape(m);
        lemma_decimal_round_trip(m);
        assert(signed_decimal(n).skip(1) =~= decimal(m));
    } else {
        lemma_decimal_shape(n as nat);
        assert(is_digit_byte(decimal(n as nat)[0]));
    }
}

/// The wire forms of transmissible values are plain frames wherever they
/// stand.
proof fn lemma_encoded_are_plain_at(items: Seq<Value>, k: int, bytes: Seq<u8>, pos: int)
    requires
        0 <= k <= items.len(),
        forall|i: int| 0 <= i < items.len() ==> is_transmissible(#[trigger] items[i]),
        holds_at(bytes, pos, encoding_all(items.skip(k))),
    ensures
        are_plain_at(bytes, pos, (items.len() - k) as nat),
    decreases items, items.len() - k,
{
    let tail = items.skip(k);
    if k < items.len() {
        lemma_encoding_all_front(tail);
        assert(tail[0] == items[k]);
        assert(tail.skip(1) =~= items.skip(k + 1));
        let first = encoding(items[k]);
        lemma_holds_split(bytes, pos, first, encoding_all(items.skip(k + 1)));
        lemma_decode_encoded_at(items[k], bytes, pos);
        lemma_encoded_is_plain_at(items[k], bytes, pos);
        lemma_encoded_are_plain_at(items, k + 1, bytes, pos + first.len());
    }
}

} // verus!
