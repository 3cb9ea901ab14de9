//! The commands on streams.

use vstd::prelude::*;
use tokio::sync::mpsc::{unbounded_channel, UnboundedReceiver, UnboundedSender};
use crate::commands::{
    arity_error, arity_error_reply, bulk_reply, error_reply, live_record, lookup, not_an_integer,
    not_an_integer_reply, number_of, wrong_type, wrong_type_reply, Keyspace,
};
use crate::db::{DbRecord, RecordView, DB};
use crate::decimal::parse_decimal;
use crate::list_commands::Timeout;
use crate::stream::{
    collect_fields, entries_after, entries_between, entries_view, fields_view, id_less, id_text,
    last_id, waiters_after_offer, zero_id, EntryView, Field, StreamEntry, StreamId, StreamRecord,
    StreamView, StreamWaiter,
};
use crate::text::{byte_strings, find_byte, is_text, position_of, text, to_upper, upper};
use crate::values::{lemma_values_of, values_of, RedisValue, Value};

verus! {

/// A stream without entries and without waiters.
pub open spec fn empty_stream() -> StreamView {
    StreamView { entries: Seq::empty(), waiters: Seq::empty() }
}

/// The stream under `key` as a command finds it: `None` where a record of
/// another kind is in the way, an empty stream where nothing is there.
pub open spec fn stream_at(db: Keyspace, key: Seq<u8>, now: u64) -> Option<StreamView> {
    match live_record(db, key, now) {
        None => Some(empty_stream()),
        Some(RecordView::Stream(stream)) => Some(stream),
        Some(_) => None,
    }
}

/// The reply to an id that cannot be read.
pub open spec fn invalid_id() -> Value {
    Value::Error(text("ERR Invalid stream ID specified as stream command argument"))
}

/// The reply to an id that does not lie behind the last id of the stream.
pub open spec fn id_too_small() -> Value {
    Value::Error(
        text("ERR The ID specified in XADD is equal or smaller than the target stream top item"),
    )
}

/// The reply to the id `0-0`.
pub open spec fn id_is_zero() -> Value {
    Value::Error(text("ERR The ID specified in XADD must be greater than 0-0"))
}

/// The id that `ms-seq` denotes, where both parts are numbers.
pub open spec fn id_of(s: Seq<u8>) -> Option<StreamId> {
    let dash = position_of(s, 45u8);
    if dash < s.len() {
        match (number_of(s.take(dash)), number_of(s.skip(dash + 1))) {
            (Some(ms), Some(seq)) => Some(StreamId { ms, seq }),
            _ => None,
        }
    } else {
        None
    }
}

/// The id that a bound denotes: `ms-seq`, or `ms` alone with the sequence
/// number `missing`.
pub open spec fn bound_of(s: Seq<u8>, missing: u64) -> Option<StreamId> {
    if position_of(s, 45u8) < s.len() {
        id_of(s)
    } else {
        match number_of(s) {
            Some(ms) => Some(StreamId { ms, seq: missing }),
            None => None,
        }
    }
}

/// Reads `ms-seq`.
pub fn parse_id(s: &[u8]) -> (res: Option<StreamId>)
    ensures
        res == id_of(s@),
{
    let dash: usize = find_byte(s, 45u8);
    if dash >= s.len() {
        return None;
    }
    let front = vstd::slice::slice_subrange(s, 0, dash);
    let back = vstd::slice::slice_subrange(s, dash + 1, s.len());
    assert(front@ =~= s@.take(dash as int));
    assert(back@ =~= s@.skip(dash + 1));
    match (parse_decimal(front), parse_decimal(back)) {
        (Some(ms), Some(seq)) => Some(StreamId { ms, seq }),
        _ => None,
    }
}

/// Reads a bound: `ms-seq`, or `ms` alone with the sequence number
/// `missing`.
pub fn parse_bound(s: &[u8], missing: u64) -> (res: Option<StreamId>)
    ensures
        res == bound_of(s@, missing),
{
    let dash: usize = find_byte(s, 45u8);
    if dash < s.len() {
        parse_id(s)
    } else {
        match parse_decimal(s) {
            Some(ms) => Some(StreamId { ms, seq: missing }),
            None => None,
        }
    }
}

/// How the id of a new entry is asked for.
#[derive(Debug, Clone, Copy, PartialEq, Eq, Structural)]
pub enum IdRequest {
    /// `*`: the current time, and the next free sequence number.
    Auto,
    /// `ms-*`: the given time, and the next free sequence number.
    AutoSeq(u64),
    /// `ms-seq`: exactly this id.
    Exact(StreamId),
}

/// The request that the id argument of `XADD` makes.
pub open spec fn id_request_of(s: Seq<u8>) -> Option<IdRequest> {
    let dash = position_of(s, 45u8);
    if s == seq![42u8] {
        Some(IdRequest::Auto)
    } else if dash < s.len() && s.skip(dash + 1) == seq![42u8] {
        match number_of(s.take(dash)) {
            Some(ms) => Some(IdRequest::AutoSeq(ms)),
            None => None,
        }
    } else {
        match id_of(s) {
            Some(id) => Some(IdRequest::Exact(id)),
            None => None,
        }
    }
}

/// Reads the id argument of `XADD`.
pub fn parse_id_request(s: &[u8]) -> (res: Option<IdRequest>)
    ensures
        res == id_request_of(s@),
{
    if s.len() == 1 && s[0] == 42u8 {
        assert(s@ =~= seq![42u8]);
        return Some(IdRequest::Auto);
    }
    let dash: usize = find_byte(s, 45u8);
    if dash < s.len() && s.len() - dash == 2 && s[dash + 1] == 42u8 {
        assert(s@.skip(dash + 1) =~= seq![42u8]);
        let front = vstd::slice::slice_subrange(s, 0, dash);
        assert(front@ =~= s@.take(dash as int));
        return match parse_decimal(front) {
            Some(ms) => Some(IdRequest::AutoSeq(ms)),
            None => None,
        };
    }
    proof {
        if dash < s.len() && s@.skip(dash + 1) == seq![42u8] {
            assert(s@.skip(dash + 1).len() == 1);
            assert(s@.skip(dash + 1)[0] == 42u8);
        }
        if s@ == seq![42u8] {
            assert(s@.len() == 1);
            assert(s@[0] == 42u8);
        }
    }
    match parse_id(s) {
        Some(id) => Some(IdRequest::Exact(id)),
        None => None,
    }
}

/// The next free id at the time `ms` behind `last`: the sequence number
/// after that of `last` within the same millisecond, zero in another one.
/// `None` where the sequence numbers of the millisecond are used up.
pub open spec fn auto_id(ms: u64, last: StreamId) -> Option<StreamId> {
    if ms == last.ms {
        if last.seq < u64::MAX {
            Some(StreamId { ms, seq: (last.seq + 1) as u64 })
        } else {
            None
        }
    } else {
        Some(StreamId { ms, seq: 0 })
    }
}

/// The id that a request asks for in a stream whose last id is `last`.
pub open spec fn requested_id(request: IdRequest, last: StreamId, now: u64) -> Option<StreamId> {
    match request {
        IdRequest::Auto => auto_id(now, last),
        IdRequest::AutoSeq(ms) => auto_id(ms, last),
        IdRequest::Exact(id) => Some(id),
    }
}

/// The id that a new entry gets, or the error reply that refuses it: the
/// id `0-0` is refused, and so is every id that does not lie strictly
/// behind the last id of the stream.
pub open spec fn accepted_id(request: IdRequest, last: StreamId, now: u64) -> Result<
    StreamId,
    Value,
> {
    match requested_id(request, last, now) {
        None => Err(id_too_small()),
        Some(id) => if id == zero_id() {
            Err(id_is_zero())
        } else if !id_less(last, id) {
            Err(id_too_small())
        } else {
            Ok(id)
        },
    }
}

/// The pairs of names and values that the arguments of `XADD` give.
pub open spec fn pairs_of(args: Seq<Seq<u8>>) -> Seq<(Seq<u8>, Seq<u8>)> {
    Seq::new(args.len() / 2, |i: int| (args[2 * i], args[2 * i + 1]))
}

/// `XADD key id field value [field value ...]`: how the keyspace
/// afterwards and the reply relate to the keyspace before.
///
/// Where the id is accepted, the stream under the key gains one entry with
/// that id at its end, the entry is offered to the waiters of the stream,
/// and the reply is the id. Otherwise nothing changes.
pub open spec fn xadd_spec(
    args: Seq<Seq<u8>>,
    now: u64,
    before: Keyspace,
    after: Keyspace,
    reply: Value,
) -> bool {
    if args.len() < 5 || (args.len() - 3) % 2 != 0 {
        after == before && reply == arity_error("XADD")
    } else {
        match id_request_of(args[2]) {
            None => after == before && reply == invalid_id(),
            Some(request) => match stream_at(before, args[1], now) {
                None => after == before && reply == wrong_type(),
                Some(stream) => match accepted_id(request, last_id(stream.entries), now) {
                    Err(refusal) => after == before && reply == refusal,
                    Ok(id) => {
                        &&& after.contains_key(args[1])
                        &&& after[args[1]] matches RecordView::Stream(grown)
                        &&& grown.entries == stream.entries.push(
                            EntryView { id, fields: collect_fields(pairs_of(args.skip(3))) },
                        )
                        &&& waiters_after_offer(stream.waiters, id, grown.waiters)
                        &&& after == before.insert(args[1], after[args[1]])
                        &&& reply == Value::BulkString(id_text(id))
                    },
                },
            },
        }
    }
}

/// The last id of the stream under `key`, or `None` where a record of
/// another kind is in the way.
fn last_id_at(db: &DB, key: &[u8], now: u64) -> (res: Option<StreamId>)
    ensures
        match stream_at(db@, key@, now) {
            Some(stream) => res == Some(last_id(stream.entries)),
            None => res is None,
        },
{
    match lookup(db, key, now) {
        None => Some(StreamId { ms: 0, seq: 0 }),
        Some(DbRecord::Stream(stream)) => Some(stream.last_id()),
        Some(_) => None,
    }
}

/// Takes the stream under `key` out of the keyspace: the stream that is
/// there, or a new one where nothing is there or a string has expired.
fn take_stream(db: &mut DB, key: &[u8], now: u64) -> (stream: StreamRecord)
    requires
        stream_at(old(db)@, key@, now) is Some,
    ensures
        stream@ == stream_at(old(db)@, key@, now)->Some_0,
        final(db)@ == old(db)@.remove(key@),
{
    match db.take(key) {
        Some(DbRecord::Stream(stream)) => stream,
        _ => StreamRecord::new(),
    }
}

/// Decides the id of a new entry.
fn choose_id(request: IdRequest, last: StreamId, now: u64) -> (res: Result<StreamId, RedisValue>)
    ensures
        match accepted_id(request, last, now) {
            Ok(id) => res == Ok::<StreamId, RedisValue>(id),
            Err(refusal) => res matches Err(reply) && reply@ == refusal,
        },
{
    let ms: u64 = match request {
        IdRequest::Auto => now,
        IdRequest::AutoSeq(ms) => ms,
        IdRequest::Exact(id) => id.ms,
    };
    let wanted: StreamId = match request {
        IdRequest::Exact(id) => id,
        _ => {
            if ms == last.ms {
                if last.seq == u64::MAX {
                    return Err(
                        error_reply(
                            "ERR The ID specified in XADD is equal or smaller than the target stream top item",
                        ),
                    );
                }
                StreamId { ms, seq: last.seq + 1 }
            } else {
                StreamId { ms, seq: 0 }
            }
        },
    };
    if wanted.ms == 0 && wanted.seq == 0 {
        return Err(error_reply("ERR The ID specified in XADD must be greater than 0-0"));
    }
    if !last.is_before(&wanted) {
        return Err(
            error_reply(
                "ERR The ID specified in XADD is equal or smaller than the target stream top item",
            ),
        );
    }
    Ok(wanted)
}

/// Copies the names and values out of the arguments of `XADD`.
fn read_pairs(args: &Vec<Vec<u8>>) -> (kv: Vec<Field>)
    requires
        args@.len() >= 3,
        (args@.len() - 3) % 2 == 0,
    ensures
        fields_view(kv@) == pairs_of(byte_strings(args@).skip(3)),
{
    let ghost rest = byte_strings(args@).skip(3);
    let mut kv: Vec<Field> = Vec::new();
    let mut i: usize = 3;
    while i < args.len()
        invariant
            3 <= i <= args.len(),
            (i - 3) % 2 == 0,
            (args@.len() - 3) % 2 == 0,
            rest == byte_strings(args@).skip(3),
            kv@.len() == (i - 3) / 2,
            forall|j: int|
                0 <= j < kv@.len() ==> kv@[j].0@ == rest[2 * j] && kv@[j].1@ == rest[2 * j + 1],
        decreases args.len() - i,
    {
        kv.push((args[i].clone(), args[i + 1].clone()));
        i += 2;
    }
    assert(fields_view(kv@) =~= pairs_of(rest));
    kv
}

/// `XADD key id field value [field value ...]`.
pub fn xadd(db: &mut DB, args: &Vec<Vec<u8>>, now: u64) -> (reply: RedisValue)
    ensures
        xadd_spec(byte_strings(args@), now, old(db)@, final(db)@, reply@),
{
    if args.len() < 5 || (args.len() - 3) % 2 != 0 {
        return arity_error_reply("XADD");
    }
    let request: IdRequest = match parse_id_request(args[2].as_slice()) {
        Some(request) => request,
        None => {
            return error_reply("ERR Invalid stream ID specified as stream command argument");
        },
    };
    let last: StreamId = match last_id_at(db, args[1].as_slice(), now) {
        Some(last) => last,
        None => {
            return wrong_type_reply();
        },
    };
    let id: StreamId = match choose_id(request, last, now) {
        Ok(id) => id,
        Err(reply) => {
            return reply;
        },
    };
    let entry = StreamEntry::new(id, Some(read_pairs(args)));
    let ghost key = byte_strings(args@)[1];
    let mut stream = take_stream(db, args[1].as_slice(), now);
    let accepted = stream.push(entry);
    assert(accepted);
    db.insert(args[1].clone(), DbRecord::Stream(stream));
    assert(final(db)@ =~= old(db)@.insert(key, final(db)@[key]));
    RedisValue::BulkString(id.to_bytes())
}

/// The names and values of an entry, one after the other, as bulk strings.
pub open spec fn flat_fields(fields: Seq<(Seq<u8>, Seq<u8>)>) -> Seq<Value> {
    Seq::new(
        2 * fields.len(),
        |i: int|
            Value::BulkString(
                if i % 2 == 0 {
                    fields[i / 2].0
                } else {
                    fields[i / 2].1
                },
            ),
    )
}

/// An entry as a reply shows it: its id and its fields.
pub open spec fn entry_value(entry: EntryView) -> Value {
    Value::Array(
        seq![Value::BulkString(id_text(entry.id)), Value::Array(flat_fields(entry.fields))],
    )
}

/// Entries as a reply shows them.
pub open spec fn entry_values(entries: Seq<EntryView>) -> Seq<Value> {
    Seq::new(entries.len(), |i: int| entry_value(entries[i]))
}

/// Builds the value that shows an entry.
pub fn entry_reply(entry: &StreamEntry) -> (reply: RedisValue)
    ensures
        reply@ == entry_value(entry@),
{
    let mut flat: Vec<RedisValue> = Vec::new();
    let count: usize = entry.field_count();
    let mut i: usize = 0;
    while i < count
        invariant
            i <= count,
            count == entry@.fields.len(),
            flat@.len() == 2 * i,
            forall|j: int| 0 <= j < 2 * i ==> flat@[j]@ == flat_fields(entry@.fields)[j],
        decreases count - i,
    {
        let (name, value) = entry.field(i);
        let ghost before = flat@;
        flat.push(RedisValue::BulkString(name.clone()));
        flat.push(RedisValue::BulkString(value.clone()));
        assert forall|j: int| 0 <= j < 2 * (i + 1) implies flat@[j]@ == flat_fields(
            entry@.fields,
        )[j] by {
            if j < 2 * i {
                assert(flat@[j] == before[j]);
            }
        }
        i += 1;
    }
    let fields = RedisValue::Array(flat);
    proof {
        lemma_values_of(flat@);
        assert(fields@->Array_0 =~= flat_fields(entry@.fields));
    }
    let mut parts: Vec<RedisValue> = Vec::new();
    parts.push(RedisValue::BulkString(entry.get_id()));
    parts.push(fields);
    let reply = RedisValue::Array(parts);
    proof {
        lemma_values_of(parts@);
        assert(reply@->Array_0 =~= entry_value(entry@)->Array_0);
    }
    reply
}

/// Builds the values that show a run of entries.
pub fn entries_reply(entries: &Vec<StreamEntry>) -> (reply: RedisValue)
    ensures
        reply@ == Value::Array(entry_values(entries_view(entries@))),
{
    let mut parts: Vec<RedisValue> = Vec::new();
    let mut i: usize = 0;
    while i < entries.len()
        invariant
            i <= entries.len(),
            parts@.len() == i,
            forall|j: int| 0 <= j < i ==> parts@[j]@ == entry_value(entries@[j]@),
        decreases entries.len() - i,
    {
        parts.push(entry_reply(&entries[i]));
        i += 1;
    }
    let reply = RedisValue::Array(parts);
    proof {
        lemma_values_of(parts@);
        assert(reply@->Array_0 =~= entry_values(entries_view(entries@)));
    }
    reply
}

/// The lower bound that an argument of `XRANGE` gives: `-` is the lowest
/// id, and a time alone stands for its first sequence number.
pub open spec fn lower_bound_of(s: Seq<u8>) -> Option<StreamId> {
    if s == seq![45u8] {
        Some(zero_id())
    } else {
        bound_of(s, 0)
    }
}

/// The upper bound that an argument of `XRANGE` gives: `+` is the highest
/// id, and a time alone stands for its last sequence number.
pub open spec fn upper_bound_of(s: Seq<u8>) -> Option<StreamId> {
    if s == seq![43u8] {
        Some(StreamId { ms: u64::MAX, seq: u64::MAX })
    } else {
        bound_of(s, u64::MAX)
    }
}

/// `XRANGE key lo hi`: the reply.
pub open spec fn xrange_reply(args: Seq<Seq<u8>>, now: u64, db: Keyspace) -> Value {
    if args.len() != 4 {
        arity_error("XRANGE")
    } else {
        match (lower_bound_of(args[2]), upper_bound_of(args[3])) {
            (Some(lo), Some(hi)) => match stream_at(db, args[1], now) {
                Some(stream) => Value::Array(entry_values(entries_between(stream.entries, lo, hi))),
                None => wrong_type(),
            },
            _ => invalid_id(),
        }
    }
}

/// `XRANGE key lo hi`.
///
/// Answers the entries with an id from `lo` to `hi`, both included, in the
/// order of the stream.
pub fn xrange(db: &DB, args: &Vec<Vec<u8>>, now: u64) -> (reply: RedisValue)
    ensures
        reply@ == xrange_reply(byte_strings(args@), now, db@),
{
    if args.len() != 4 {
        return arity_error_reply("XRANGE");
    }
    let lo_text = args[2].as_slice();
    let hi_text = args[3].as_slice();
    let lo: Option<StreamId> = if lo_text.len() == 1 && lo_text[0] == 45u8 {
        assert(lo_text@ =~= seq![45u8]);
        Some(StreamId { ms: 0, seq: 0 })
    } else {
        proof {
            if lo_text@ == seq![45u8] {
                assert(lo_text@.len() == 1);
                assert(lo_text@[0] == 45u8);
            }
        }
        parse_bound(lo_text, 0)
    };
    let hi: Option<StreamId> = if hi_text.len() == 1 && hi_text[0] == 43u8 {
        assert(hi_text@ =~= seq![43u8]);
        Some(StreamId { ms: u64::MAX, seq: u64::MAX })
    } else {
        proof {
            if hi_text@ == seq![43u8] {
                assert(hi_text@.len() == 1);
                assert(hi_text@[0] == 43u8);
            }
        }
        parse_bound(hi_text, u64::MAX)
    };
    match (lo, hi) {
        (Some(lo), Some(hi)) => {
            match lookup(db, args[1].as_slice(), now) {
                None => {
                    let none: Vec<StreamEntry> = Vec::new();
                    assert(entries_view(none@) =~= entries_between(empty_stream().entries, lo, hi));
                    entries_reply(&none)
                },
                Some(DbRecord::Stream(stream)) => entries_reply(&stream.range(lo, hi)),
                Some(_) => wrong_type_reply(),
            }
        },
        _ => error_reply("ERR Invalid stream ID specified as stream command argument"),
    }
}

/// What an `XREAD` asks for.
pub struct ReadRequest {
    /// How long to wait where nothing is there, if at all.
    pub block: Option<Timeout>,
    /// The keys of the streams.
    pub keys: Seq<Seq<u8>>,
    /// For each key, the id behind which entries are wanted.
    pub ids: Seq<Seq<u8>>,
}

/// Where the word `STREAMS` stands in the arguments of an `XREAD`: behind
/// `BLOCK` and its number where the command begins with them.
pub open spec fn streams_at(args: Seq<Seq<u8>>) -> int {
    if args.len() > 2 && upper(args[1]) == text("BLOCK") {
        3
    } else {
        1
    }
}

/// The request that the arguments of an `XREAD` make, or the error reply
/// where they make none: `[BLOCK ms] STREAMS key... id...`, with as many
/// ids as keys and at least one of each. A `BLOCK` of zero milliseconds
/// waits forever.
pub open spec fn read_request_of(args: Seq<Seq<u8>>) -> Result<ReadRequest, Value> {
    let base = streams_at(args);
    if base == 3 && number_of(args[2]) is None {
        Err(not_an_integer())
    } else if args.len() < base + 3 || upper(args[base]) != text("STREAMS") || (args.len() - base
        - 1) % 2 != 0 {
        Err(arity_error("XREAD"))
    } else {
        let n = (args.len() - base - 1) / 2;
        Ok(
            ReadRequest {
                block: if base == 3 {
                    Some(
                        if number_of(args[2])->Some_0 == 0 {
                            Timeout::Forever
                        } else {
                            Timeout::Millis(number_of(args[2])->Some_0)
                        },
                    )
                } else {
                    None
                },
                keys: args.subrange(base + 1, base + 1 + n),
                ids: args.subrange(base + 1 + n, args.len() as int),
            },
        )
    }
}

/// The id behind which a reader wants entries: `$` is the last id of the
/// stream, and a time alone stands for its first sequence number.
pub open spec fn read_bound_of(id: Seq<u8>, stream: StreamView) -> Option<StreamId> {
    if id == seq![36u8] {
        Some(last_id(stream.entries))
    } else {
        bound_of(id, 0)
    }
}

/// What one stream gives to a reader: the key and the entries.
pub open spec fn stream_value(key: Seq<u8>, entries: Seq<EntryView>) -> Value {
    Value::Array(seq![Value::BulkString(key), Value::Array(entry_values(entries))])
}

/// What an `XREAD` finds: for each key the bound behind which it reads, and
/// for each stream with an entry behind its bound the key and those
/// entries. The first key that holds a record of another kind, or whose id
/// cannot be read, gives an error reply instead.
pub open spec fn read_all(db: Keyspace, keys: Seq<Seq<u8>>, ids: Seq<Seq<u8>>, now: u64) -> Result<
    (Seq<StreamId>, Seq<Value>),
    Value,
>
    decreases keys.len(),
{
    if keys.len() == 0 {
        Ok((Seq::empty(), Seq::empty()))
    } else {
        match read_all(db, keys.drop_last(), ids.drop_last(), now) {
            Err(refusal) => Err(refusal),
            Ok(found) => match stream_at(db, keys.last(), now) {
                None => Err(wrong_type()),
                Some(stream) => match read_bound_of(ids.last(), stream) {
                    None => Err(invalid_id()),
                    Some(bound) => {
                        let entries = entries_after(stream.entries, bound);
                        Ok(
                            (
                                found.0.push(bound),
                                if entries.len() > 0 {
                                    found.1.push(stream_value(keys.last(), entries))
                                } else {
                                    found.1
                                },
                            ),
                        )
                    },
                },
            },
        }
    }
}

/// The keyspace after one waiter was queued at the stream under `key`.
pub open spec fn with_waiter(db: Keyspace, key: Seq<u8>, waiter: StreamWaiter, now: u64) -> Keyspace {
    match stream_at(db, key, now) {
        Some(stream) => db.insert(
            key,
            RecordView::Stream(
                StreamView { entries: stream.entries, waiters: stream.waiters.push(waiter) },
            ),
        ),
        None => db,
    }
}

/// The keyspace after, for each key in turn, one waiter with that key's
/// bound and mailbox was queued at the stream under the key.
pub open spec fn with_waiters(
    db: Keyspace,
    keys: Seq<Seq<u8>>,
    bounds: Seq<StreamId>,
    senders: Seq<UnboundedSender<StreamEntry>>,
    now: u64,
) -> Keyspace
    decreases keys.len(),
{
    if keys.len() == 0 {
        db
    } else {
        with_waiter(
            with_waiters(db, keys.drop_last(), bounds.drop_last(), senders.drop_last(), now),
            keys.last(),
            StreamWaiter { after: bounds.last(), sender: senders.last() },
            now,
        )
    }
}

/// What an `XREAD` leads to.
pub enum Xread {
    /// The reply is ready.
    Reply(RedisValue),
    /// No stream had anything: a waiter was queued at each, and the reply
    /// depends on what arrives first at one of the `receivers`, which stand
    /// in the order of the `keys`, within the time-out.
    Wait { keys: Vec<Vec<u8>>, receivers: Vec<UnboundedReceiver<StreamEntry>>, timeout: Timeout },
}

/// The content of what an `XREAD` leads to.
pub enum XreadView {
    Reply(Value),
    Wait { keys: Seq<Seq<u8>>, receivers: nat, timeout: Timeout },
}

impl View for Xread {
    type V = XreadView;

    open spec fn view(&self) -> XreadView {
        match self {
            Xread::Reply(value) => XreadView::Reply(value@),
            Xread::Wait { keys, receivers, timeout } => XreadView::Wait {
                keys: byte_strings(keys@),
                receivers: receivers@.len(),
                timeout: *timeout,
            },
        }
    }
}

/// `XREAD [BLOCK ms] STREAMS key... id...`: how the keyspace afterwards
/// and the outcome relate to the keyspace before.
///
/// Where a stream has entries behind its bound, the reply holds them and
/// nothing changes. Where none has, a command without `BLOCK` answers an
/// empty array; one with `BLOCK` that may not wait answers nil; one that
/// may wait queues a new waiter at each stream and waits on as many
/// mailboxes as there are keys.
pub open spec fn xread_spec(
    args: Seq<Seq<u8>>,
    now: u64,
    may_block: bool,
    before: Keyspace,
    after: Keyspace,
    outcome: XreadView,
) -> bool {
    match read_request_of(args) {
        Err(refusal) => after == before && outcome == XreadView::Reply(refusal),
        Ok(request) => match read_all(before, request.keys, request.ids, now) {
            Err(refusal) => after == before && outcome == XreadView::Reply(refusal),
            Ok(found) => if found.1.len() > 0 {
                after == before && outcome == XreadView::Reply(Value::Array(found.1))
            } else {
                match request.block {
                    None => after == before && outcome == XreadView::Reply(
                        Value::Array(Seq::empty()),
                    ),
                    Some(timeout) => if may_block {
                        &&& outcome == XreadView::Wait {
                            keys: request.keys,
                            receivers: request.keys.len(),
                            timeout,
                        }
                        &&& exists|senders: Seq<UnboundedSender<StreamEntry>>|
                            senders.len() == request.keys.len() && after == #[trigger] with_waiters(
                                before,
                                request.keys,
                                found.0,
                                senders,
                                now,
                            )
                    } else {
                        after == before && outcome == XreadView::Reply(Value::NilArray)
                    },
                }
            },
        }
    }
}

/// Builds what one stream gives to a reader.
pub fn stream_reply(key: &[u8], entries: &Vec<StreamEntry>) -> (reply: RedisValue)
    ensures
        reply@ == stream_value(key@, entries_view(entries@)),
{
    let mut parts: Vec<RedisValue> = Vec::new();
    parts.push(bulk_reply(key));
    parts.push(entries_reply(entries));
    let reply = RedisValue::Array(parts);
    proof {
        lemma_values_of(parts@);
        assert(reply@->Array_0 =~= stream_value(key@, entries_view(entries@))->Array_0);
    }
    reply
}

/// Looks at the stream under one key for an `XREAD`: the bound, and the
/// stream's part of the reply where it has entries behind the bound.
fn read_one(db: &DB, key: &[u8], id: &[u8], now: u64) -> (res: Result<
    (StreamId, Option<RedisValue>),
    RedisValue,
>)
    ensures
        match stream_at(db@, key@, now) {
            None => res matches Err(reply) && reply@ == wrong_type(),
            Some(stream) => match read_bound_of(id@, stream) {
                None => res matches Err(reply) && reply@ == invalid_id(),
                Some(bound) => res matches Ok(found) && found.0 == bound && match found.1 {
                    Some(part) => entries_after(stream.entries, bound).len() > 0 && part@
                        == stream_value(key@, entries_after(stream.entries, bound)),
                    None => entries_after(stream.entries, bound).len() == 0,
                },
            },
        },
{
    let from_end: bool = id.len() == 1 && id[0] == 36u8;
    proof {
        if from_end {
            assert(id@ =~= seq![36u8]);
        }
        if id@ == seq![36u8] {
            assert(id@.len() == 1);
            assert(id@[0] == 36u8);
        }
    }
    match lookup(db, key, now) {
        None => {
            let bound: StreamId = if from_end {
                StreamId { ms: 0, seq: 0 }
            } else {
                match parse_bound(id, 0) {
                    Some(bound) => bound,
                    None => {
                        return Err(
                            error_reply(
                                "ERR Invalid stream ID specified as stream command argument",
                            ),
                        );
                    },
                }
            };
            Ok((bound, None))
        },
        Some(DbRecord::Stream(stream)) => {
            let bound: StreamId = if from_end {
                stream.last_id()
            } else {
                match parse_bound(id, 0) {
                    Some(bound) => bound,
                    None => {
                        return Err(
                            error_reply(
                                "ERR Invalid stream ID specified as stream command argument",
                            ),
                        );
                    },
                }
            };
            let found = stream.after(bound);
            if found.len() > 0 {
                Ok((bound, Some(stream_reply(key, &found))))
            } else {
                Ok((bound, None))
            }
        },
        Some(_) => Err(wrong_type_reply()),
    }
}

/// Queuing a waiter at a stream leaves every stream a stream.
proof fn lemma_with_waiter_keeps_streams(
    db: Keyspace,
    key: Seq<u8>,
    waiter: StreamWaiter,
    now: u64,
    other: Seq<u8>,
)
    requires
        stream_at(db, key, now) is Some,
        stream_at(db, other, now) is Some,
    ensures
        stream_at(with_waiter(db, key, waiter, now), other, now) is Some,
{
}

/// Reads the layout of the arguments of an `XREAD`: where the word
/// `STREAMS` stands, how long to wait if at all, and how many streams are
/// named.
fn read_layout(args: &Vec<Vec<u8>>) -> (res: Result<(usize, Option<Timeout>, usize), RedisValue>)
    ensures
        match read_request_of(byte_strings(args@)) {
            Err(refusal) => res matches Err(reply) && reply@ == refusal,
            Ok(request) => res matches Ok(layout) && layout.0 == streams_at(byte_strings(args@))
                && layout.1 == request.block && layout.2 == request.keys.len() && layout.2
                == request.ids.len() && layout.0 + 1 + 2 * layout.2 == args.len(),
        },
{
    let ghost all = byte_strings(args@);
    let mut base: usize = 1;
    let mut block: Option<Timeout> = None;
    if args.len() > 2 {
        let word = to_upper(args[1].as_slice());
        if is_text(word.as_slice(), "BLOCK") {
            base = 3;
            match parse_decimal(args[2].as_slice()) {
                Some(ms) => {
                    block = Some(
                        if ms == 0 {
                            Timeout::Forever
                        } else {
                            Timeout::Millis(ms)
                        },
                    );
                },
                None => {
                    return Err(not_an_integer_reply());
                },
            }
        }
    }
    assert(base == streams_at(all));
    if args.len() < base + 3 {
        return Err(arity_error_reply("XREAD"));
    }
    let word = to_upper(args[base].as_slice());
    if !is_text(word.as_slice(), "STREAMS") || (args.len() - base - 1) % 2 != 0 {
        return Err(arity_error_reply("XREAD"));
    }
    Ok((base, block, (args.len() - base - 1) / 2))
}

/// The keys that an `XREAD` with the word `STREAMS` at `base` names.
pub open spec fn keys_from(args: Seq<Seq<u8>>, base: int, n: int) -> Seq<Seq<u8>> {
    args.subrange(base + 1, base + 1 + n)
}

/// The ids that an `XREAD` with the word `STREAMS` at `base` names.
pub open spec fn ids_from(args: Seq<Seq<u8>>, base: int, n: int) -> Seq<Seq<u8>> {
    args.subrange(base + 1 + n, base + 1 + 2 * n)
}

/// Looks at every stream that an `XREAD` names.
fn find_entries(db: &DB, args: &Vec<Vec<u8>>, base: usize, n: usize, now: u64) -> (res: Result<
    (Vec<StreamId>, Vec<RedisValue>),
    RedisValue,
>)
    requires
        base + 1 + 2 * n == args.len(),
    ensures
        match read_all(
            db@,
            keys_from(byte_strings(args@), base as int, n as int),
            ids_from(byte_strings(args@), base as int, n as int),
            now,
        ) {
            Err(refusal) => res matches Err(reply) && reply@ == refusal,
            Ok(found) => res matches Ok(seen) && seen.0@ == found.0 && values_of(seen.1@)
                == found.1 && seen.0@.len() == n,
        },
        res is Ok ==> forall|j: int|
            0 <= j < n ==> stream_at(
                db@,
                #[trigger] keys_from(byte_strings(args@), base as int, n as int)[j],
                now,
            ) is Some,
{
    let ghost all = byte_strings(args@);
    let ghost keys = keys_from(all, base as int, n as int);
    let ghost ids = ids_from(all, base as int, n as int);
    let mut bounds: Vec<StreamId> = Vec::new();
    let mut parts: Vec<RedisValue> = Vec::new();
    let mut i: usize = 0;
    proof {
        assert(keys.take(0) =~= Seq::<Seq<u8>>::empty());
        assert(values_of(parts@) =~= Seq::<Value>::empty());
    }
    while i < n
        invariant
            i <= n,
            bounds@.len() == i,
            base + 1 + 2 * n == args.len(),
            all == byte_strings(args@),
            keys == keys_from(all, base as int, n as int),
            ids == ids_from(all, base as int, n as int),
            read_all(db@, keys.take(i as int), ids.take(i as int), now) == Ok::<
                (Seq<StreamId>, Seq<Value>),
                Value,
            >((bounds@, values_of(parts@))),
            forall|j: int| 0 <= j < i ==> stream_at(db@, #[trigger] keys[j], now) is Some,
        decreases n - i,
    {
        proof {
            assert(keys.take(i + 1).drop_last() =~= keys.take(i as int));
            assert(ids.take(i + 1).drop_last() =~= ids.take(i as int));
            assert(keys.take(i + 1).last() == all[base + 1 + i]);
            assert(ids.take(i + 1).last() == all[base + 1 + n + i]);
        }
        match read_one(db, args[base + 1 + i].as_slice(), args[base + 1 + n + i].as_slice(), now) {
            Err(reply) => {
                proof {
                    assert(read_all(db@, keys.take(i + 1), ids.take(i + 1), now) == Err::<
                        (Seq<StreamId>, Seq<Value>),
                        Value,
                    >(reply@));
                    lemma_read_all_error(db@, keys, ids, now, i + 1);
                }
                return Err(reply);
            },
            Ok((bound, part)) => {
                bounds.push(bound);
                match part {
                    Some(part) => {
                        let ghost parts_before = parts@;
                        parts.push(part);
                        proof {
                            assert(parts@.drop_last() =~= parts_before);
                        }
                    },
                    None => {},
                }
            },
        }
        i += 1;
    }
    proof {
        assert(keys.take(i as int) =~= keys);
        assert(ids.take(i as int) =~= ids);
    }
    Ok((bounds, parts))
}

/// Whether an `XREAD` with these arguments asks to wait where nothing is
/// there.
pub open spec fn asks_to_wait(args: Seq<Seq<u8>>) -> bool {
    read_request_of(args) matches Ok(request) && request.block is Some
}

/// `XREAD` without `BLOCK`, which changes nothing.
///
/// Gives the reply of a command that does not ask to wait, and `None` for
/// one that does.
pub fn xread_now(db: &DB, args: &Vec<Vec<u8>>, now: u64) -> (res: Option<RedisValue>)
    ensures
        res is None <==> asks_to_wait(byte_strings(args@)),
        res matches Some(reply) ==> forall|may_block: bool|
            #[trigger] xread_spec(
                byte_strings(args@),
                now,
                may_block,
                db@,
                db@,
                XreadView::Reply(reply@),
            ),
{
    let ghost all = byte_strings(args@);
    let (base, block, n) = match read_layout(args) {
        Ok(layout) => layout,
        Err(reply) => {
            return Some(reply);
        },
    };
    if block.is_some() {
        return None;
    }
    proof {
        let request = read_request_of(all)->Ok_0;
        assert(request.keys == keys_from(all, base as int, n as int));
        assert(request.ids =~= ids_from(all, base as int, n as int));
    }
    match find_entries(db, args, base, n, now) {
        Err(reply) => Some(reply),
        Ok((bounds, parts)) => {
            let reply = RedisValue::Array(parts);
            proof {
                lemma_values_of(parts@);
                if parts@.len() == 0 {
                    assert(reply@->Array_0 =~= Seq::<Value>::empty());
                }
            }
            Some(reply)
        },
    }
}

/// `XREAD [BLOCK ms] STREAMS key... id...`.
pub fn xread(db: &mut DB, args: &Vec<Vec<u8>>, now: u64, may_block: bool) -> (outcome: Xread)
    ensures
        xread_spec(byte_strings(args@), now, may_block, old(db)@, final(db)@, outcome@),
{
    let ghost all = byte_strings(args@);
    let (base, block, n) = match read_layout(args) {
        Ok(layout) => layout,
        Err(reply) => {
            return Xread::Reply(reply);
        },
    };
    let ghost request = read_request_of(all)->Ok_0;
    proof {
        assert(request.keys == keys_from(all, base as int, n as int));
        assert(request.ids =~= ids_from(all, base as int, n as int));
    }
    let (bounds, parts) = match find_entries(db, args, base, n, now) {
        Ok(seen) => seen,
        Err(reply) => {
            return Xread::Reply(reply);
        },
    };
    let ghost found = read_all(old(db)@, request.keys, request.ids, now)->Ok_0;
    proof {
        lemma_values_of(parts@);
    }
    if parts.len() > 0 {
        return Xread::Reply(RedisValue::Array(parts));
    }
    let timeout: Timeout = match block {
        None => {
            let reply = RedisValue::Array(parts);
            assert(reply@->Array_0 =~= Seq::<Value>::empty());
            return Xread::Reply(reply);
        },
        Some(timeout) => timeout,
    };
    if !may_block {
        return Xread::Reply(RedisValue::NilArray);
    }
    let mut keys: Vec<Vec<u8>> = Vec::new();
    let mut receivers: Vec<UnboundedReceiver<StreamEntry>> = Vec::new();
    let ghost senders: Seq<UnboundedSender<StreamEntry>> = Seq::empty();
    let mut k: usize = 0;
    proof {
        assert(request.keys.take(0) =~= Seq::<Seq<u8>>::empty());
        assert(byte_strings(keys@) =~= request.keys.take(0));
    }
    while k < n
        invariant
            k <= n,
            n == request.keys.len(),
            n == bounds@.len(),
            base + 1 + 2 * n == args.len(),
            all == byte_strings(args@),
            request.keys == keys_from(all, base as int, n as int),
            senders.len() == k,
            receivers@.len() == k,
            byte_strings(keys@) == request.keys.take(k as int),
            db@ == with_waiters(
                old(db)@,
                request.keys.take(k as int),
                bounds@.take(k as int),
                senders,
                now,
            ),
            forall|j: int| 0 <= j < n ==> stream_at(db@, #[trigger] request.keys[j], now) is Some,
        decreases n - k,
    {
        let ghost current = db@;
        let ghost earlier = senders;
        let key = &args[base + 1 + k];
        assert(key@ == request.keys[k as int]);
        let (sender, receiver) = unbounded_channel::<StreamEntry>();
        let mut stream = take_stream(db, key.as_slice(), now);
        stream.subscribe_waiter(bounds[k], sender);
        db.insert(key.clone(), DbRecord::Stream(stream));
        receivers.push(receiver);
        keys.push(key.clone());
        proof {
            senders = senders.push(sender);
            let waiter = StreamWaiter { after: bounds@[k as int], sender };
            assert(db@ =~= with_waiter(current, key@, waiter, now));
            assert(request.keys.take(k + 1).drop_last() =~= request.keys.take(k as int));
            assert(bounds@.take(k + 1).drop_last() =~= bounds@.take(k as int));
            assert(senders.drop_last() =~= earlier);
            assert(byte_strings(keys@) =~= request.keys.take(k + 1));
            assert forall|j: int| 0 <= j < n implies stream_at(
                db@,
                #[trigger] request.keys[j],
                now,
            ) is Some by {
                lemma_with_waiter_keeps_streams(current, key@, waiter, now, request.keys[j]);
            }
        }
        k += 1;
    }
    proof {
        assert(request.keys.take(k as int) =~= request.keys);
        assert(bounds@.take(k as int) =~= bounds@);
        assert(bounds@ == found.0);
        assert(senders.len() == request.keys.len() && db@ == with_waiters(
            old(db)@,
            request.keys,
            found.0,
            senders,
            now,
        ));
    }
    Xread::Wait { keys, receivers, timeout }
}

/// An error at one key is the error of the whole read.
proof fn lemma_read_all_error(
    db: Keyspace,
    keys: Seq<Seq<u8>>,
    ids: Seq<Seq<u8>>,
    now: u64,
    k: int,
)
    requires
        0 <= k <= keys.len(),
        keys.len() == ids.len(),
        read_all(db, keys.take(k), ids.take(k), now) is Err,
    ensures
        read_all(db, keys, ids, now) == read_all(db, keys.take(k), ids.take(k), now),
    decreases keys.len() - k,
{
    if k == keys.len() {
        assert(keys.take(k) =~= keys);
        assert(ids.take(k) =~= ids);
    } else {
        assert(keys.take(k + 1).drop_last() =~= keys.take(k));
        assert(ids.take(k + 1).drop_last() =~= ids.take(k));
        lemma_read_all_error(db, keys, ids, now, k + 1);
    }
}

/// The reply of an `XREAD` that waited: the key and the entry where one
/// arrived, nil where the time ran out or the stream went away.
pub open spec fn read_waited_value(key: Seq<u8>, arrived: Option<EntryView>) -> Value {
    match arrived {
        Some(entry) => Value::Array(seq![stream_value(key, seq![entry])]),
        None => Value::NilArray,
    }
}

/// Builds the reply of an `XREAD` that waited.
pub fn read_waited_reply(key: &[u8], arrived: Option<StreamEntry>) -> (reply: RedisValue)
    ensures
        reply@ == read_waited_value(
            key@,
            match arrived {
                Some(entry) => Some(entry@),
                None => None,
            },
        ),
{
    match arrived {
        Some(entry) => {
            let mut entries: Vec<StreamEntry> = Vec::new();
            entries.push(entry);
            assert(entries_view(entries@) =~= seq![entry@]);
            let mut parts: Vec<RedisValue> = Vec::new();
            parts.push(stream_reply(key, &entries));
            let reply = RedisValue::Array(parts);
            proof {
                lemma_values_of(parts@);
                assert(reply@->Array_0 =~= seq![stream_value(key@, seq![entry@])]);
            }
            reply
        },
        None => RedisValue::NilArray,
    }
}

} // verus!
