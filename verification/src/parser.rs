//! The reading half of the codec: frames are pulled from a growing buffer of
//! received bytes, one complete value at a time.

use vstd::prelude::*;
use crate::decimal::{
    all_digits, decimal_value, i64_value, is_digit_byte, parse_decimal, parse_signed_decimal,
};
use crate::values::{values_of, RedisValue, Value};

verus! {

/// What a stretch of bytes amounts to when read as a frame.
pub enum Parsed<T> {
    /// A whole frame was there; `next` is the position just behind it.
    Complete { value: T, next: int },
    /// The bytes so far are the beginning of a frame; more are needed.
    Incomplete,
    /// No frame begins like this.
    Malformed,
}

/// Whether the two bytes at `i` are a carriage return and a line feed.
pub open spec fn crlf_at(bytes: Seq<u8>, i: int) -> bool {
    0 <= i && i + 1 < bytes.len() && bytes[i] == 13 && bytes[i + 1] == 10
}

/// The position of the first line terminator at or behind `from`.
pub open spec fn line_end(bytes: Seq<u8>, from: int) -> Option<int>
    decreases bytes.len() - from,
{
    if from < 0 || from + 1 >= bytes.len() {
        None
    } else if crlf_at(bytes, from) {
        Some(from)
    } else {
        line_end(bytes, from + 1)
    }
}

/// Whether `b` is one of the five bytes that can begin a frame.
pub open spec fn is_type_byte(b: u8) -> bool {
    b == 43 || b == 45 || b == 58 || b == 36 || b == 42
}

/// Whether a header line is the `-1` that marks a nil bulk or a nil array.
pub open spec fn is_nil_marker(line: Seq<u8>) -> bool {
    line =~= seq![45u8, 49u8]
}

/// The count that a header line gives, if it is a string of digits that
/// fits the machine's word.
pub open spec fn count_value(line: Seq<u8>) -> Option<nat> {
    if line.len() > 0 && all_digits(line) && decimal_value(line) <= usize::MAX {
        Some(decimal_value(line))
    } else {
        None
    }
}

/// The frame that begins at `pos`.
pub open spec fn parse_at(bytes: Seq<u8>, pos: int) -> Parsed<Value>
    decreases bytes.len() - pos, 0nat,
{
    if pos < 0 || pos >= bytes.len() {
        Parsed::Incomplete
    } else if !is_type_byte(bytes[pos]) {
        Parsed::Malformed
    } else {
        match line_end(bytes, pos + 1) {
            None => Parsed::Incomplete,
            Some(end) => {
                let line = bytes.subrange(pos + 1, end);
                let body = end + 2;
                if end < pos + 1 || body > bytes.len() {
                    Parsed::Malformed
                } else if bytes[pos] == 43 {
                    Parsed::Complete { value: Value::SimpleString(line), next: body }
                } else if bytes[pos] == 45 {
                    Parsed::Complete { value: Value::Error(line), next: body }
                } else if bytes[pos] == 58 {
                    match i64_value(line) {
                        Some(n) => Parsed::Complete { value: Value::Integer(n), next: body },
                        None => Parsed::Malformed,
                    }
                } else if bytes[pos] == 36 {
                    if is_nil_marker(line) {
                        Parsed::Complete { value: Value::NilBulk, next: body }
                    } else {
                        match count_value(line) {
                            None => Parsed::Malformed,
                            Some(n) => if bytes.len() < body + n + 2 {
                                Parsed::Incomplete
                            } else if crlf_at(bytes, body + n) {
                                Parsed::Complete {
                                    value: Value::BulkString(bytes.subrange(body, body + n)),
                                    next: body + n + 2,
                                }
                            } else {
                                Parsed::Malformed
                            },
                        }
                    }
                } else {
                    if is_nil_marker(line) {
                        Parsed::Complete { value: Value::NilArray, next: body }
                    } else {
                        match count_value(line) {
                            None => Parsed::Malformed,
                            Some(n) => as_array(parse_items_at(bytes, body, n)),
                        }
                    }
                }
            },
        }
    }
}

/// The `n` frames that begin at `pos`, one behind the other.
pub open spec fn parse_items_at(bytes: Seq<u8>, pos: int, n: nat) -> Parsed<Seq<Value>>
    decreases bytes.len() - pos, n + 1,
{
    if n == 0 {
        Parsed::Complete { value: Seq::empty(), next: pos }
    } else {
        match parse_at(bytes, pos) {
            Parsed::Complete { value, next } => if pos <= next <= bytes.len() {
                prepend(seq![value], parse_items_at(bytes, next, (n - 1) as nat))
            } else {
                Parsed::Malformed
            },
            Parsed::Incomplete => Parsed::Incomplete,
            Parsed::Malformed => Parsed::Malformed,
        }
    }
}

/// A complete run of frames, taken as the one array that holds them.
pub open spec fn as_array(items: Parsed<Seq<Value>>) -> Parsed<Value> {
    match items {
        Parsed::Complete { value, next } => Parsed::Complete { value: Value::Array(value), next },
        Parsed::Incomplete => Parsed::Incomplete,
        Parsed::Malformed => Parsed::Malformed,
    }
}

/// Puts `front` before the items of a complete result.
pub open spec fn prepend(front: Seq<Value>, rest: Parsed<Seq<Value>>) -> Parsed<Seq<Value>> {
    match rest {
        Parsed::Complete { value, next } => Parsed::Complete { value: front + value, next },
        Parsed::Incomplete => Parsed::Incomplete,
        Parsed::Malformed => Parsed::Malformed,
    }
}

/// The frame at the start of `bytes`.
pub open spec fn parse(bytes: Seq<u8>) -> Parsed<Value> {
    parse_at(bytes, 0)
}

/// Where no line terminator begins in `from..upto`, the search from `from`
/// is the search from `upto`.
pub proof fn lemma_line_end_skips(bytes: Seq<u8>, from: int, upto: int)
    requires
        0 <= from <= upto,
        forall|j: int| from <= j < upto ==> !crlf_at(bytes, j),
    ensures
        line_end(bytes, from) == line_end(bytes, upto),
    decreases upto - from,
{
    if from < upto {
        lemma_line_end_skips(bytes, from + 1, upto);
        assert(!crlf_at(bytes, from));
        if from + 1 >= bytes.len() {
            assert(line_end(bytes, upto) is None);
        }
    }
}

/// What `line_end` finds is the first line terminator from `from` on.
pub proof fn lemma_line_end_is_first(bytes: Seq<u8>, from: int)
    requires
        0 <= from,
    ensures
        match line_end(bytes, from) {
            Some(end) => from <= end && crlf_at(bytes, end) && forall|j: int|
                from <= j < end ==> !crlf_at(bytes, j),
            None => forall|j: int| from <= j ==> !crlf_at(bytes, j),
        },
    decreases bytes.len() - from,
{
    if from + 1 < bytes.len() && !crlf_at(bytes, from) {
        lemma_line_end_is_first(bytes, from + 1);
    }
}

/// A complete frame ends behind where it begins and within the bytes.
pub proof fn lemma_parse_bounds(bytes: Seq<u8>, pos: int)
    requires
        0 <= pos,
    ensures
        parse_at(bytes, pos) matches Parsed::Complete { next, .. } ==> pos < next <= bytes.len(),
    decreases bytes.len() - pos, 0nat,
{
    if pos < bytes.len() && is_type_byte(bytes[pos]) {
        lemma_line_end_is_first(bytes, pos + 1);
        match line_end(bytes, pos + 1) {
            Some(end) => {
                let line = bytes.subrange(pos + 1, end);
                if bytes[pos] == 42 && !is_nil_marker(line) {
                    match count_value(line) {
                        Some(n) => {
                            lemma_parse_items_bounds(bytes, end + 2, n);
                        },
                        None => {},
                    }
                }
            },
            None => {},
        }
    }
}

/// A complete run of frames ends at or behind where it begins and within
/// the bytes, and has as many items as were asked for.
pub proof fn lemma_parse_items_bounds(bytes: Seq<u8>, pos: int, n: nat)
    requires
        0 <= pos <= bytes.len(),
    ensures
        parse_items_at(bytes, pos, n) matches Parsed::Complete { value, next } ==> pos <= next
            <= bytes.len() && value.len() == n,
    decreases bytes.len() - pos, n + 1,
{
    if n > 0 {
        lemma_parse_bounds(bytes, pos);
        match parse_at(bytes, pos) {
            Parsed::Complete { value, next } => {
                lemma_parse_items_bounds(bytes, next, (n - 1) as nat);
            },
            _ => {},
        }
    }
}

/// Why reading a value failed.
#[derive(Debug, Clone, Copy, PartialEq, Eq, Structural)]
pub enum ParseError {
    /// The peer closed the connection before a whole frame had arrived.
    Disconnect,
    /// The bytes received are no frame of the protocol.
    Malformed,
}

/// Whether `b` is an ASCII digit.
pub fn is_digit(b: u8) -> (res: bool)
    ensures
        res == is_digit_byte(b),
{
    b >= 48 && b <= 57
}

/// The numeral of a header line: the bytes before the first line
/// terminator, or all of them where there is none.
pub open spec fn header_digits(blob: Seq<u8>) -> Seq<u8> {
    match line_end(blob, 0) {
        Some(end) => blob.take(end),
        None => blob,
    }
}

/// A line that was cut off before its terminator holds no terminator, so
/// its numeral is the whole of it.
pub proof fn lemma_line_is_its_numeral(bytes: Seq<u8>, from: int, end: int)
    requires
        0 <= from,
        line_end(bytes, from) == Some(end),
    ensures
        from <= end <= bytes.len(),
        header_digits(bytes.subrange(from, end)) == bytes.subrange(from, end),
{
    lemma_line_end_is_first(bytes, from);
    let line = bytes.subrange(from, end);
    lemma_line_end_is_first(line, 0);
    if line_end(line, 0) is Some {
        let at = line_end(line, 0)->Some_0;
        assert(line[at] == bytes[from + at]);
        assert(line[at + 1] == bytes[from + at + 1]);
        assert(crlf_at(bytes, from + at));
    }
}

/// Reads a header line as a count.
///
/// The numeral is what stands before the line terminator, or the whole
/// line where it was handed over without one. Every byte of it has to be a
/// digit, there has to be at least one, and the number has to fit the
/// machine's word; anything else is malformed.
pub fn read_uint(blob: &[u8]) -> (res: Result<usize, ParseError>)
    ensures
        match count_value(header_digits(blob@)) {
            Some(n) => res == Ok::<usize, ParseError>(n as usize),
            None => res == Err::<usize, ParseError>(ParseError::Malformed),
        },
{
    let digits: &[u8] = match find_line_end(blob, 0) {
        Some(end) => vstd::slice::slice_subrange(blob, 0, end),
        None => blob,
    };
    assert(digits@ =~= header_digits(blob@));
    match parse_decimal(digits) {
        Some(n) => {
            if n > usize::MAX as u64 {
                Err(ParseError::Malformed)
            } else {
                Ok(n as usize)
            }
        },
        None => Err(ParseError::Malformed),
    }
}

/// Finds the first line terminator at or behind `from`.
fn find_line_end(buf: &[u8], from: usize) -> (res: Option<usize>)
    requires
        from <= buf.len(),
    ensures
        match line_end(buf@, from as int) {
            Some(end) => res == Some(end as usize) && from <= end && end + 2 <= buf.len(),
            None => res is None,
        },
{
    let mut i: usize = from;
    while i < buf.len() && i + 1 < buf.len()
        invariant
            from <= i <= buf.len(),
            line_end(buf@, from as int) == line_end(buf@, i as int),
        decreases buf.len() - i,
    {
        if buf[i] == 13u8 && buf[i + 1] == 10u8 {
            return Some(i);
        }
        proof {
            assert(!crlf_at(buf@, i as int));
        }
        i += 1;
    }
    None
}

/// Whether the header line `buf[from..end]` is the nil marker `-1`.
fn is_nil_line(buf: &[u8], from: usize, end: usize) -> (res: bool)
    requires
        from <= end <= buf.len(),
    ensures
        res == is_nil_marker(buf@.subrange(from as int, end as int)),
{
    let ghost line = buf@.subrange(from as int, end as int);
    if end - from != 2 {
        return false;
    }
    assert(line[0] == buf@[from as int]);
    assert(line[1] == buf@[from + 1]);
    buf[from] == 45u8 && buf[from + 1] == 49u8
}

/// Copies `buf[from..to]` into a vector of its own.
fn copy_range(buf: &[u8], from: usize, to: usize) -> (res: Vec<u8>)
    requires
        from <= to <= buf.len(),
    ensures
        res@ == buf@.subrange(from as int, to as int),
{
    let part = vstd::slice::slice_subrange(buf, from, to);
    vstd::slice::slice_to_vec(part)
}

/// What the exec reader found at a position: the frame and the position
/// behind it, or nothing yet.
pub open spec fn read_matches(
    res: Result<Option<(RedisValue, usize)>, ParseError>,
    parsed: Parsed<Value>,
) -> bool {
    match parsed {
        Parsed::Complete { value, next } => res matches Ok(Some(found)) && found.0@ == value
            && found.1 == next,
        Parsed::Incomplete => res == Ok::<Option<(RedisValue, usize)>, ParseError>(None),
        Parsed::Malformed => res == Err::<Option<(RedisValue, usize)>, ParseError>(
            ParseError::Malformed,
        ),
    }
}

/// Reads the frame that begins at `pos`.
///
/// Gives the value and the position behind the frame, `None` where the frame
/// is not all there yet, and an error where the bytes are no frame.
pub fn decode_at(buf: &[u8], pos: usize) -> (res: Result<Option<(RedisValue, usize)>, ParseError>)
    requires
        pos <= buf.len(),
    ensures
        read_matches(res, parse_at(buf@, pos as int)),
    decreases buf.len() - pos,
{
    if pos >= buf.len() {
        return Ok(None);
    }
    let tag: u8 = buf[pos];
    if !(tag == 43u8 || tag == 45u8 || tag == 58u8 || tag == 36u8 || tag == 42u8) {
        return Err(ParseError::Malformed);
    }
    let end: usize = match find_line_end(buf, pos + 1) {
        Some(end) => end,
        None => {
            return Ok(None);
        },
    };
    let body: usize = end + 2;
    let ghost line = buf@.subrange(pos + 1, end as int);
    if tag == 43u8 {
        return Ok(Some((RedisValue::SimpleString(copy_range(buf, pos + 1, end)), body)));
    }
    if tag == 45u8 {
        return Ok(Some((RedisValue::Error(copy_range(buf, pos + 1, end)), body)));
    }
    let header = vstd::slice::slice_subrange(buf, pos + 1, end);
    if tag == 58u8 {
        return match parse_signed_decimal(header) {
            Some(n) => Ok(Some((RedisValue::Integer(n), body))),
            None => Err(ParseError::Malformed),
        };
    }
    if is_nil_line(buf, pos + 1, end) {
        if tag == 36u8 {
            return Ok(Some((RedisValue::NilBulk, body)));
        } else {
            return Ok(Some((RedisValue::NilArray, body)));
        }
    }
    proof {
        lemma_line_is_its_numeral(buf@, pos + 1, end as int);
    }
    let n: usize = match read_uint(header) {
        Ok(n) => n,
        Err(e) => {
            return Err(e);
        },
    };
    if tag == 36u8 {
        let available: usize = buf.len() - body;
        if available < n || available - n < 2 {
            return Ok(None);
        }
        if buf[body + n] == 13u8 && buf[body + n + 1] == 10u8 {
            return Ok(Some((RedisValue::BulkString(copy_range(buf, body, body + n)), body + n + 2)));
        } else {
            return Err(ParseError::Malformed);
        }
    }
    let mut items: Vec<RedisValue> = Vec::new();
    let mut cur: usize = body;
    let mut k: usize = 0;
    proof {
        assert(values_of(items@) =~= Seq::<Value>::empty());
        let whole = parse_items_at(buf@, body as int, n as nat);
        assert(prepend(Seq::<Value>::empty(), whole) == whole) by {
            match whole {
                Parsed::Complete { value, next } => {
                    assert(Seq::<Value>::empty() + value =~= value);
                },
                _ => {},
            }
        }
    }
    while k < n
        invariant
            pos < body <= cur <= buf.len(),
            k <= n,
            parse_at(buf@, pos as int) == as_array(parse_items_at(buf@, body as int, n as nat)),
            parse_items_at(buf@, body as int, n as nat) == prepend(
                values_of(items@),
                parse_items_at(buf@, cur as int, (n - k) as nat),
            ),
        decreases n - k,
    {
        let ghost before = values_of(items@);
        let ghost tail = parse_items_at(buf@, cur as int, (n - k) as nat);
        proof {
            lemma_parse_bounds(buf@, cur as int);
        }
        match decode_at(buf, cur) {
            Ok(Some((value, next))) => {
                proof {
                    let after = parse_items_at(buf@, next as int, (n - k - 1) as nat);
                    assert(tail == prepend(seq![value@], after));
                    assert(items@.push(value).drop_last() =~= items@);
                    assert(values_of(items@.push(value)) =~= before.push(value@));
                    match after {
                        Parsed::Complete { value: rest, next: stop } => {
                            assert(before + (seq![value@] + rest) =~= before.push(value@) + rest);
                        },
                        _ => {},
                    }
                }
                items.push(value);
                cur = next;
                k += 1;
            },
            Ok(None) => {
                return Ok(None);
            },
            Err(e) => {
                return Err(e);
            },
        }
    }
    proof {
        let done = values_of(items@);
        assert(done + Seq::<Value>::empty() =~= done);
    }
    Ok(Some((RedisValue::Array(items), cur)))
}

/// What a reader holds: the bytes received and not yet consumed, and
/// whether the peer has closed the connection.
pub struct ReaderState {
    pub pending: Seq<u8>,
    pub closed: bool,
}

/// Pulls whole values out of the bytes that arrive on a connection.
///
/// The transport hands over what it received with `feed` and reports the end
/// of the stream with `close`; `read_value` gives the next value as soon as
/// all of its bytes are there.
pub struct RedisParser {
    buffer: Vec<u8>,
    closed: bool,
}

impl View for RedisParser {
    type V = ReaderState;

    closed spec fn view(&self) -> ReaderState {
        ReaderState { pending: self.buffer@, closed: self.closed }
    }
}

impl RedisParser {
    /// A reader that has received nothing yet.
    pub fn new() -> (parser: Self)
        ensures
            parser@.pending == Seq::<u8>::empty(),
            !parser@.closed,
    {
        RedisParser { buffer: Vec::new(), closed: false }
    }

    /// Takes in bytes that arrived from the peer.
    pub fn feed(&mut self, bytes: &[u8])
        ensures
            final(self)@.pending == old(self)@.pending + bytes@,
            final(self)@.closed == old(self)@.closed,
    {
        self.buffer.extend_from_slice(bytes);
    }

    /// Records that the peer has closed the connection.
    pub fn close(&mut self)
        ensures
            final(self)@.pending == old(self)@.pending,
            final(self)@.closed,
    {
        self.closed = true;
    }

    /// How many received bytes wait to be read.
    pub fn pending_len(&self) -> (n: usize)
        ensures
            n == self@.pending.len(),
    {
        self.buffer.len()
    }

    /// Gives the next value, if all of its bytes have arrived.
    ///
    /// A complete frame at the head of the pending bytes is removed and
    /// returned; the bytes behind it stay for the next call. Where the frame
    /// is still partial the result is `None`, or `Disconnect` once the peer
    /// has closed. Bytes that are no frame give `Malformed`. Nothing is
    /// consumed unless a value is returned.
    pub fn read_value(&mut self) -> (res: Result<Option<RedisValue>, ParseError>)
        ensures
            final(self)@.closed == old(self)@.closed,
            match parse(old(self)@.pending) {
                Parsed::Complete { value, next } => {
                    &&& res matches Ok(Some(v)) && v@ == value
                    &&& 0 < next <= old(self)@.pending.len()
                    &&& final(self)@.pending == old(self)@.pending.skip(next)
                },
                Parsed::Incomplete => {
                    &&& final(self)@.pending == old(self)@.pending
                    &&& res == if old(self)@.closed {
                        Err::<Option<RedisValue>, ParseError>(ParseError::Disconnect)
                    } else {
                        Ok::<Option<RedisValue>, ParseError>(None)
                    }
                },
                Parsed::Malformed => {
                    &&& final(self)@.pending == old(self)@.pending
                    &&& res == Err::<Option<RedisValue>, ParseError>(ParseError::Malformed)
                },
            },
    {
        proof {
            lemma_parse_bounds(self.buffer@, 0);
        }
        match decode_at(self.buffer.as_slice(), 0) {
            Ok(Some((value, next))) => {
                let rest = self.buffer.split_off(next);
                self.buffer = rest;
                assert(self.buffer@ =~= old(self)@.pending.skip(next as int));
                Ok(Some(value))
            },
            Ok(None) => {
                if self.closed {
                    Err(ParseError::Disconnect)
                } else {
                    Ok(None)
                }
            },
            Err(e) => Err(e),
        }
    }
}

} // verus!
