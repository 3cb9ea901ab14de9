//! The commands on lists.

use vstd::prelude::*;
use tokio::sync::mpsc::{unbounded_channel, UnboundedReceiver};
use crate::commands::{
    arity_error, arity_error_reply, bulk_reply, error_reply, live_record, lookup, not_an_integer,
    not_an_integer_reply, number_of, wrong_type, wrong_type_reply, Keyspace,
};
use crate::db::{DbRecord, RecordView, DB};
use crate::decimal::{
    all_digits, decimal_value, i64_value, is_digit_byte, parse_decimal, parse_signed_decimal,
};
use crate::list::{handed_or_stored, list_range, ListRecord, ListView};
use crate::text::{byte_strings, find_byte, position_of, text};
use crate::values::{lemma_values_of, RedisValue, Value};

verus! {

/// A list without elements and without waiters.
pub open spec fn empty_list() -> ListView {
    ListView { items: Seq::empty(), waiters: Seq::empty() }
}

/// The list under `key` as a push or a pop finds it: `None` where a record
/// of another kind is in the way, an empty list where nothing is there.
pub open spec fn list_at(db: Keyspace, key: Seq<u8>, now: u64) -> Option<ListView> {
    match live_record(db, key, now) {
        None => Some(empty_list()),
        Some(RecordView::List(list)) => Some(list),
        Some(_) => None,
    }
}

/// The reply that gives a length.
pub open spec fn length_value(n: nat) -> Value {
    Value::Integer(
        if n <= i64::MAX {
            n as i64
        } else {
            i64::MAX
        },
    )
}

/// The strings as bulk strings.
pub open spec fn bulk_all(items: Seq<Seq<u8>>) -> Seq<Value> {
    Seq::new(items.len(), |i: int| Value::BulkString(items[i]))
}

/// The elements of a list after `value` was stored at one of its ends.
pub open spec fn stored_at(items: Seq<Seq<u8>>, value: Seq<u8>, front: bool) -> Seq<Seq<u8>> {
    if front {
        seq![value] + items
    } else {
        items.push(value)
    }
}

/// The elements of a list after `values` were stored at one of its ends,
/// one after the other.
pub open spec fn pushed_items(items: Seq<Seq<u8>>, values: Seq<Seq<u8>>, front: bool) -> Seq<
    Seq<u8>,
> {
    if front {
        values.reverse() + items
    } else {
        items + values
    }
}

/// What pushing `values` one after the other leaves behind where the first
/// `handed` of them were taken by waiters and `gone` waiters left the queue
/// on the way.
///
/// Every value handed over costs at least one waiter. A value is stored
/// only when no waiter is left, so the values stored are the last ones, and
/// they stand at the chosen end in the order that pushing one by one gives.
pub open spec fn pushes_with(
    before: ListView,
    values: Seq<Seq<u8>>,
    front: bool,
    after: ListView,
    handed: int,
    gone: int,
) -> bool {
    &&& 0 <= handed <= values.len()
    &&& handed <= gone <= before.waiters.len()
    &&& (handed < values.len() ==> gone == before.waiters.len())
    &&& after.waiters == before.waiters.skip(gone)
    &&& after.items == pushed_items(before.items, values.skip(handed), front)
}

/// What pushing `values` one after the other may leave behind, whatever
/// the mailboxes of the waiters did.
pub open spec fn pushes_all(
    before: ListView,
    values: Seq<Seq<u8>>,
    front: bool,
    after: ListView,
) -> bool {
    exists|handed: int, gone: int| pushes_with(before, values, front, after, handed, gone)
}

/// Where nobody waits, every pushed value is stored: none is lost, and
/// the list has nobody waiting afterwards.
pub proof fn pushes_without_waiters_keep_all(
    before: ListView,
    values: Seq<Seq<u8>>,
    front: bool,
    after: ListView,
)
    requires
        before.waiters.len() == 0,
        pushes_all(before, values, front, after),
    ensures
        after.waiters.len() == 0,
        after.items == pushed_items(before.items, values, front),
{
    let (handed, gone) = choose|handed: int, gone: int|
        pushes_with(before, values, front, after, handed, gone);
    assert(values.skip(0) =~= values);
}

/// One more push, after some: the value is handed to a waiter or stored.
proof fn lemma_push_one_more(
    before: ListView,
    values: Seq<Seq<u8>>,
    front: bool,
    mid: ListView,
    handed: int,
    gone: int,
    after: ListView,
) -> (next: (int, int))
    requires
        values.len() > 0,
        pushes_with(before, values.drop_last(), front, mid, handed, gone),
        handed_or_stored(mid, after, stored_at(mid.items, values.last(), front)),
    ensures
        pushes_with(before, values, front, after, next.0, next.1),
{
    let earlier = values.drop_last();
    let k = choose|k: int|
        #![trigger mid.waiters.skip(k)]
        {
            &&& 0 <= k <= mid.waiters.len()
            &&& after.waiters == mid.waiters.skip(k)
            &&& ((k >= 1 && after.items == mid.items) || (k == mid.waiters.len() && after.items
                == stored_at(mid.items, values.last(), front)))
        };
    assert(mid.waiters.skip(k) =~= before.waiters.skip(gone + k));
    if k >= 1 && after.items == mid.items {
        assert(handed == earlier.len());
        assert(earlier.skip(handed) =~= Seq::<Seq<u8>>::empty());
        assert(values.skip(handed + 1) =~= Seq::<Seq<u8>>::empty());
        (handed + 1, gone + k)
    } else {
        let kept = earlier.skip(handed);
        assert(values.skip(handed) =~= kept.push(values.last()));
        if front {
            assert(kept.push(values.last()).reverse() =~= seq![values.last()] + kept.reverse());
            assert(after.items =~= values.skip(handed).reverse() + before.items);
        } else {
            assert(after.items =~= before.items + values.skip(handed));
        }
        (handed, gone + k)
    }
}

/// `RPUSH key v1 ...` and `LPUSH key v1 ...`: how the keyspace afterwards
/// and the reply relate to the keyspace before.
///
/// The record under the key becomes the list that pushing the values
/// leaves behind. The reply is the length that the push brings the list to:
/// the length before plus the number of values, those that go on to a
/// waiter included. A record of another kind is left alone and answered
/// with an error.
pub open spec fn push_spec(
    name: &str,
    front: bool,
    args: Seq<Seq<u8>>,
    now: u64,
    before: Keyspace,
    after: Keyspace,
    reply: Value,
) -> bool {
    if args.len() < 3 {
        after == before && reply == arity_error(name)
    } else {
        match list_at(before, args[1], now) {
            None => after == before && reply == wrong_type(),
            Some(list) => {
                &&& after.contains_key(args[1])
                &&& after[args[1]] matches RecordView::List(pushed)
                &&& pushes_all(list, args.skip(2), front, pushed)
                &&& after == before.insert(args[1], after[args[1]])
                &&& reply == length_value((list.items.len() + args.len() - 2) as nat)
            },
        }
    }
}

/// Builds the reply that gives a length.
pub fn length_reply(n: usize) -> (reply: RedisValue)
    ensures
        reply@ == length_value(n as nat),
{
    if n as u64 > 0x7fff_ffff_ffff_ffffu64 {
        RedisValue::Integer(i64::MAX)
    } else {
        RedisValue::Integer(n as i64)
    }
}

/// Builds the reply that gives the sum of two lengths.
pub fn sum_reply(a: usize, b: usize) -> (reply: RedisValue)
    ensures
        reply@ == length_value((a + b) as nat),
{
    let most: u64 = 0x7fff_ffff_ffff_ffffu64;
    if a as u64 > most || b as u64 > most {
        RedisValue::Integer(i64::MAX)
    } else {
        let sum: u64 = a as u64 + b as u64;
        if sum > most {
            RedisValue::Integer(i64::MAX)
        } else {
            RedisValue::Integer(sum as i64)
        }
    }
}

/// Builds an array of bulk strings.
pub fn bulk_array(items: Vec<Vec<u8>>) -> (reply: RedisValue)
    ensures
        reply@ == Value::Array(bulk_all(byte_strings(items@))),
{
    let mut parts: Vec<RedisValue> = Vec::new();
    let mut items = items;
    let ghost all = byte_strings(items@);
    let count: usize = items.len();
    let mut i: usize = 0;
    while i < count
        invariant
            i <= count,
            count == items@.len(),
            all == byte_strings(items@),
            parts@.len() == i,
            forall|j: int| 0 <= j < i ==> parts@[j]@ == Value::BulkString(all[j]),
        decreases count - i,
    {
        parts.push(RedisValue::BulkString(items[i].clone()));
        i += 1;
    }
    let reply = RedisValue::Array(parts);
    proof {
        lemma_values_of(parts@);
        assert(reply@->Array_0 =~= bulk_all(all));
    }
    reply
}

/// Takes the list under `key` out of the keyspace: the list that is there,
/// or a new one where nothing is there or a string has expired.
fn take_list(db: &mut DB, key: &[u8], now: u64) -> (list: ListRecord)
    requires
        list_at(old(db)@, key@, now) is Some,
    ensures
        list@ == list_at(old(db)@, key@, now)->Some_0,
        final(db)@ == old(db)@.remove(key@),
{
    match db.take(key) {
        Some(DbRecord::List(list)) => list,
        _ => ListRecord::new(),
    }
}

/// Whether a list, or nothing, is under `key`.
fn list_is_free(db: &DB, key: &[u8], now: u64) -> (res: bool)
    ensures
        res == (list_at(db@, key@, now) is Some),
{
    match lookup(db, key, now) {
        None => true,
        Some(DbRecord::List(_)) => true,
        Some(_) => false,
    }
}

/// `RPUSH` and `LPUSH`.
///
/// Creates the list where the key holds none. Each value in turn is offered
/// to the waiters of the list, oldest first, and stored at the back (or at
/// the front) where none of them takes it. Answers the length before plus
/// the number of values pushed.
pub fn push(db: &mut DB, name: &str, front: bool, args: &Vec<Vec<u8>>, now: u64) -> (reply:
    RedisValue)
    ensures
        push_spec(name, front, byte_strings(args@), now, old(db)@, final(db)@, reply@),
{
    if args.len() < 3 {
        return arity_error_reply(name);
    }
    if !list_is_free(db, args[1].as_slice(), now) {
        return wrong_type_reply();
    }
    let ghost all = byte_strings(args@);
    let ghost values = all.skip(2);
    let mut list = take_list(db, args[1].as_slice(), now);
    let ghost before = list@;
    let reply = sum_reply(list.len(), args.len() - 2);
    let ghost handed: int = 0;
    let ghost gone: int = 0;
    let mut i: usize = 2;
    proof {
        let none = values.take(0);
        assert(none.skip(0) =~= Seq::<Seq<u8>>::empty());
        assert(none.skip(0).reverse() =~= Seq::<Seq<u8>>::empty());
        assert(pushed_items(before.items, none.skip(0), front) =~= before.items);
        assert(before.waiters.skip(0) =~= before.waiters);
    }
    while i < args.len()
        invariant
            2 <= i <= args.len(),
            all == byte_strings(args@),
            values == all.skip(2),
            pushes_with(before, values.take(i - 2), front, list@, handed, gone),
        decreases args.len() - i,
    {
        let ghost mid = list@;
        if front {
            list.push_front(args[i].clone());
        } else {
            list.push_back(args[i].clone());
        }
        proof {
            let longer = values.take(i - 1);
            assert(longer.drop_last() =~= values.take(i - 2));
            assert(longer.last() == all[i as int]);
            let next = lemma_push_one_more(before, longer, front, mid, handed, gone, list@);
            handed = next.0;
            gone = next.1;
        }
        i += 1;
    }
    assert(values.take(i - 2) =~= values);
    db.insert(args[1].clone(), DbRecord::List(list));
    assert(final(db)@ =~= old(db)@.insert(all[1], final(db)@[all[1]]));
    reply
}

/// `LLEN key`: the reply.
pub open spec fn llen_reply(args: Seq<Seq<u8>>, now: u64, db: Keyspace) -> Value {
    if args.len() != 2 {
        arity_error("LLEN")
    } else {
        match list_at(db, args[1], now) {
            Some(list) => length_value(list.items.len()),
            None => wrong_type(),
        }
    }
}

/// `LLEN key`.
///
/// Answers the length of the list, zero where the key holds nothing.
pub fn llen(db: &DB, args: &Vec<Vec<u8>>, now: u64) -> (reply: RedisValue)
    ensures
        reply@ == llen_reply(byte_strings(args@), now, db@),
{
    if args.len() != 2 {
        return arity_error_reply("LLEN");
    }
    match lookup(db, args[1].as_slice(), now) {
        None => length_reply(0),
        Some(DbRecord::List(list)) => length_reply(list.len()),
        Some(_) => wrong_type_reply(),
    }
}

/// `LRANGE key start stop`: the reply.
pub open spec fn lrange_reply(args: Seq<Seq<u8>>, now: u64, db: Keyspace) -> Value {
    if args.len() != 4 {
        arity_error("LRANGE")
    } else {
        match (i64_value(args[2]), i64_value(args[3])) {
            (Some(start), Some(stop)) => match list_at(db, args[1], now) {
                Some(list) => Value::Array(
                    bulk_all(list_range(list.items, start as int, stop as int)),
                ),
                None => wrong_type(),
            },
            _ => not_an_integer(),
        }
    }
}

/// `LRANGE key start stop`.
///
/// Answers the elements from `start` to `stop`, both included; a negative
/// index counts from the end of the list.
pub fn lrange(db: &DB, args: &Vec<Vec<u8>>, now: u64) -> (reply: RedisValue)
    ensures
        reply@ == lrange_reply(byte_strings(args@), now, db@),
{
    if args.len() != 4 {
        return arity_error_reply("LRANGE");
    }
    let start: i64 = match parse_signed_decimal(args[2].as_slice()) {
        Some(n) => n,
        None => {
            return not_an_integer_reply();
        },
    };
    let stop: i64 = match parse_signed_decimal(args[3].as_slice()) {
        Some(n) => n,
        None => {
            return not_an_integer_reply();
        },
    };
    match lookup(db, args[1].as_slice(), now) {
        None => {
            let reply = bulk_array(Vec::new());
            assert(reply@->Array_0 =~= bulk_all(
                list_range(empty_list().items, start as int, stop as int),
            ));
            reply
        },
        Some(DbRecord::List(list)) => bulk_array(list.range(start, stop)),
        Some(_) => wrong_type_reply(),
    }
}

/// The smaller of a count and a length.
pub open spec fn at_most(count: u64, len: nat) -> int {
    if count < len {
        count as int
    } else {
        len as int
    }
}

/// `LPOP key [count]`: the keyspace afterwards and the reply.
pub open spec fn lpop_result(args: Seq<Seq<u8>>, now: u64, db: Keyspace) -> (Keyspace, Value) {
    if args.len() == 2 {
        match live_record(db, args[1], now) {
            None => (db, Value::NilBulk),
            Some(RecordView::List(list)) => if list.items.len() == 0 {
                (db, Value::NilBulk)
            } else {
                (
                    db.insert(
                        args[1],
                        RecordView::List(
                            ListView { items: list.items.skip(1), waiters: list.waiters },
                        ),
                    ),
                    Value::BulkString(list.items[0]),
                )
            },
            Some(_) => (db, wrong_type()),
        }
    } else if args.len() == 3 {
        match number_of(args[2]) {
            None => (db, not_an_integer()),
            Some(count) => match live_record(db, args[1], now) {
                None => (db, Value::Array(Seq::empty())),
                Some(RecordView::List(list)) => {
                    let n = at_most(count, list.items.len());
                    (
                        db.insert(
                            args[1],
                            RecordView::List(
                                ListView { items: list.items.skip(n), waiters: list.waiters },
                            ),
                        ),
                        Value::Array(bulk_all(list.items.take(n))),
                    )
                },
                Some(_) => (db, wrong_type()),
            },
        }
    } else {
        (db, arity_error("LPOP"))
    }
}

/// Whether a list is under `key`.
fn holds_list(db: &DB, key: &[u8], now: u64) -> (res: Option<bool>)
    ensures
        match live_record(db@, key@, now) {
            None => res is None,
            Some(RecordView::List(_)) => res == Some(true),
            Some(_) => res == Some(false),
        },
{
    match lookup(db, key, now) {
        None => None,
        Some(DbRecord::List(_)) => Some(true),
        Some(_) => Some(false),
    }
}

/// `LPOP key [count]`.
///
/// Without a count, removes the first element and answers it, or nil where
/// there is none. With a count, removes that many elements from the front,
/// or all where the list has fewer, and answers them as an array.
pub fn lpop(db: &mut DB, args: &Vec<Vec<u8>>, now: u64) -> (reply: RedisValue)
    ensures
        (final(db)@, reply@) == lpop_result(byte_strings(args@), now, old(db)@),
{
    if args.len() != 2 && args.len() != 3 {
        return arity_error_reply("LPOP");
    }
    let count: Option<u64> = if args.len() == 3 {
        match parse_decimal(args[2].as_slice()) {
            Some(count) => Some(count),
            None => {
                return not_an_integer_reply();
            },
        }
    } else {
        None
    };
    match holds_list(db, args[1].as_slice(), now) {
        None => {
            return match count {
                Some(_) => {
                    let reply = bulk_array(Vec::new());
                    assert(reply@->Array_0 =~= Seq::<Value>::empty());
                    reply
                },
                None => RedisValue::NilBulk,
            };
        },
        Some(false) => {
            return wrong_type_reply();
        },
        Some(true) => {},
    }
    let mut list = take_list(db, args[1].as_slice(), now);
    let ghost before = list@;
    let reply = match count {
        None => {
            match list.pop_front() {
                Some(value) => RedisValue::BulkString(value),
                None => RedisValue::NilBulk,
            }
        },
        Some(count) => {
            let mut popped: Vec<Vec<u8>> = Vec::new();
            let wanted: usize = if count < list.len() as u64 {
                count as usize
            } else {
                list.len()
            };
            let mut i: usize = 0;
            assert(before.items.skip(0) =~= before.items);
            assert(byte_strings(popped@) =~= before.items.take(0));
            while i < wanted
                invariant
                    i <= wanted <= before.items.len(),
                    list@.waiters == before.waiters,
                    list@.items == before.items.skip(i as int),
                    byte_strings(popped@) == before.items.take(i as int),
                decreases wanted - i,
            {
                let ghost so_far = byte_strings(popped@);
                match list.pop_front() {
                    Some(value) => {
                        popped.push(value);
                        assert(byte_strings(popped@) =~= so_far.push(before.items[i as int]));
                    },
                    None => {},
                }
                i += 1;
                assert(list@.items =~= before.items.skip(i as int));
                assert(byte_strings(popped@) =~= before.items.take(i as int));
            }
            bulk_array(popped)
        },
    };
    db.insert(args[1].clone(), DbRecord::List(list));
    proof {
        let key = byte_strings(args@)[1];
        if count is None && before.items.len() == 0 {
            assert(final(db)@ =~= old(db)@);
        } else {
            assert(final(db)@ =~= lpop_result(byte_strings(args@), now, old(db)@).0);
        }
    }
    reply
}

/// How long a blocking command waits.
#[derive(Debug, Clone, Copy, PartialEq, Eq, Structural)]
pub enum Timeout {
    /// Until something arrives.
    Forever,
    /// At most this many milliseconds.
    Millis(u64),
}

/// Whether every byte is the digit zero.
pub open spec fn all_zero(s: Seq<u8>) -> bool {
    forall|i: int| 0 <= i < s.len() ==> s[i] == 48
}

/// The thousandths that the digits behind a decimal point give; digits
/// behind the third are cut off.
pub open spec fn thousandths(frac: Seq<u8>) -> int {
    (if frac.len() > 0 {
        (frac[0] - 48) * 100
    } else {
        0
    }) + (if frac.len() > 1 {
        (frac[1] - 48) * 10
    } else {
        0
    }) + (if frac.len() > 2 {
        frac[2] - 48
    } else {
        0
    })
}

/// The time-out that a number of seconds, written with an optional decimal
/// point, gives: forever where the number is zero, else its milliseconds.
/// `None` where the text is no such number or the milliseconds do not fit
/// in 64 bits.
pub open spec fn timeout_of(s: Seq<u8>) -> Option<Timeout> {
    let dot = position_of(s, 46u8);
    let whole = s.take(dot);
    let frac = if dot < s.len() {
        s.skip(dot + 1)
    } else {
        Seq::empty()
    };
    if whole.len() == 0 || !all_digits(whole) || !all_digits(frac) || (dot < s.len() && frac.len()
        == 0) {
        None
    } else if decimal_value(whole) * 1000 + thousandths(frac) > u64::MAX {
        None
    } else if decimal_value(whole) == 0 && all_zero(frac) {
        Some(Timeout::Forever)
    } else {
        Some(Timeout::Millis((decimal_value(whole) * 1000 + thousandths(frac)) as u64))
    }
}

/// Whether every byte of `s` is a digit, and whether every byte is the
/// digit zero.
fn scan_digits(s: &[u8]) -> (res: (bool, bool))
    ensures
        res.0 == all_digits(s@),
        res.0 ==> res.1 == all_zero(s@),
{
    let mut zero: bool = true;
    let mut i: usize = 0;
    while i < s.len()
        invariant
            i <= s.len(),
            all_digits(s@.take(i as int)),
            zero == all_zero(s@.take(i as int)),
        decreases s.len() - i,
    {
        let b: u8 = s[i];
        if b < 48 || b > 57 {
            assert(!is_digit_byte(s@[i as int]));
            return (false, false);
        }
        proof {
            let longer = s@.take(i + 1);
            let shorter = s@.take(i as int);
            assert forall|j: int| 0 <= j < longer.len() implies is_digit_byte(
                #[trigger] longer[j],
            ) by {
                if j < i {
                    assert(longer[j] == shorter[j]);
                }
            }
            if all_zero(shorter) && b == 48 {
                assert forall|j: int| 0 <= j < longer.len() implies longer[j] == 48 by {
                    if j < i {
                        assert(longer[j] == shorter[j]);
                    }
                }
            }
            if all_zero(longer) {
                assert(longer[i as int] == 48);
                assert forall|j: int| 0 <= j < shorter.len() implies shorter[j] == 48 by {
                    assert(longer[j] == 48);
                }
            }
        }
        if b != 48 {
            zero = false;
        }
        i += 1;
    }
    assert(s@.take(i as int) =~= s@);
    (true, zero)
}

/// Reads a time-out in seconds.
pub fn parse_timeout(s: &[u8]) -> (res: Option<Timeout>)
    ensures
        res == timeout_of(s@),
{
    let dot: usize = find_byte(s, 46u8);
    let whole = vstd::slice::slice_subrange(s, 0, dot);
    assert(whole@ =~= s@.take(dot as int));
    let frac: &[u8] = if dot < s.len() {
        vstd::slice::slice_subrange(s, dot + 1, s.len())
    } else {
        vstd::slice::slice_subrange(s, 0, 0)
    };
    proof {
        if dot < s.len() {
            assert(frac@ =~= s@.skip(dot + 1));
        } else {
            assert(frac@ =~= Seq::<u8>::empty());
        }
    }
    let (frac_digits, frac_zero) = scan_digits(frac);
    if !frac_digits || (dot < s.len() && frac.len() == 0) {
        return None;
    }
    let seconds: u64 = match parse_decimal(whole) {
        Some(seconds) => seconds,
        None => {
            return None;
        },
    };
    let mut extra: u64 = 0;
    if frac.len() > 0 {
        assert(is_digit_byte(frac@[0]));
        extra = extra + ((frac[0] - 48) as u64) * 100;
    }
    if frac.len() > 1 {
        assert(is_digit_byte(frac@[1]));
        extra = extra + ((frac[1] - 48) as u64) * 10;
    }
    if frac.len() > 2 {
        assert(is_digit_byte(frac@[2]));
        extra = extra + ((frac[2] - 48) as u64);
    }
    assert(extra == thousandths(frac@));
    if seconds > (u64::MAX - extra) / 1000 {
        return None;
    }
    if seconds == 0 && frac_zero {
        Some(Timeout::Forever)
    } else {
        Some(Timeout::Millis(seconds * 1000 + extra))
    }
}

/// The reply to a time-out that is no number.
pub open spec fn bad_timeout() -> Value {
    Value::Error(text("ERR timeout is not a float or out of range"))
}

/// The reply of a `BLPOP` that got `value` from the list under `key`.
pub open spec fn popped_value(key: Seq<u8>, value: Seq<u8>) -> Value {
    Value::Array(seq![Value::BulkString(key), Value::BulkString(value)])
}

/// What a `BLPOP` leads to.
pub enum Blpop {
    /// The reply is ready.
    Reply(RedisValue),
    /// The list was empty: a waiter was queued, and the reply depends on
    /// what arrives at `receiver` within the time-out.
    Wait { receiver: UnboundedReceiver<Vec<u8>>, timeout: Timeout },
}

/// The content of what a `BLPOP` leads to.
pub enum BlpopView {
    Reply(Value),
    Wait { timeout: Timeout },
}

impl View for Blpop {
    type V = BlpopView;

    open spec fn view(&self) -> BlpopView {
        match self {
            Blpop::Reply(value) => BlpopView::Reply(value@),
            Blpop::Wait { receiver, timeout } => BlpopView::Wait { timeout: *timeout },
        }
    }
}

/// `BLPOP key timeout`: how the keyspace afterwards and the outcome relate
/// to the keyspace before.
///
/// A list with an element loses its first one, which is the reply. At an
/// empty or absent list a command that may block queues one new waiter
/// behind those that are there and waits; one that may not answers nil at
/// once.
pub open spec fn blpop_spec(
    args: Seq<Seq<u8>>,
    now: u64,
    may_block: bool,
    before: Keyspace,
    after: Keyspace,
    outcome: BlpopView,
) -> bool {
    if args.len() != 3 {
        after == before && outcome == BlpopView::Reply(arity_error("BLPOP"))
    } else {
        match timeout_of(args[2]) {
            None => after == before && outcome == BlpopView::Reply(bad_timeout()),
            Some(timeout) => match list_at(before, args[1], now) {
                None => after == before && outcome == BlpopView::Reply(wrong_type()),
                Some(list) => if list.items.len() > 0 {
                    &&& after == before.insert(
                        args[1],
                        RecordView::List(
                            ListView { items: list.items.skip(1), waiters: list.waiters },
                        ),
                    )
                    &&& outcome == BlpopView::Reply(popped_value(args[1], list.items[0]))
                } else if may_block {
                    &&& after.contains_key(args[1])
                    &&& after[args[1]] matches RecordView::List(waiting)
                    &&& waiting.items.len() == 0
                    &&& waiting.waiters.len() == list.waiters.len() + 1
                    &&& waiting.waiters.drop_last() == list.waiters
                    &&& after == before.insert(args[1], after[args[1]])
                    &&& outcome == BlpopView::Wait { timeout }
                } else {
                    after == before && outcome == BlpopView::Reply(Value::NilArray)
                },
            },
        }
    }
}

/// Builds the reply of a `BLPOP` that got a value.
pub fn popped_reply(key: &[u8], value: Vec<u8>) -> (reply: RedisValue)
    ensures
        reply@ == popped_value(key@, value@),
{
    let mut parts: Vec<RedisValue> = Vec::new();
    parts.push(bulk_reply(key));
    parts.push(RedisValue::BulkString(value));
    let reply = RedisValue::Array(parts);
    proof {
        lemma_values_of(parts@);
        assert(reply@->Array_0 =~= popped_value(key@, value@)->Array_0);
    }
    reply
}

/// `BLPOP key timeout`.
pub fn blpop(db: &mut DB, args: &Vec<Vec<u8>>, now: u64, may_block: bool) -> (outcome: Blpop)
    ensures
        blpop_spec(byte_strings(args@), now, may_block, old(db)@, final(db)@, outcome@),
{
    if args.len() != 3 {
        return Blpop::Reply(arity_error_reply("BLPOP"));
    }
    let timeout: Timeout = match parse_timeout(args[2].as_slice()) {
        Some(timeout) => timeout,
        None => {
            return Blpop::Reply(error_reply("ERR timeout is not a float or out of range"));
        },
    };
    if !list_is_free(db, args[1].as_slice(), now) {
        return Blpop::Reply(wrong_type_reply());
    }
    let ghost key = byte_strings(args@)[1];
    let ghost found = list_at(db@, key, now)->Some_0;
    if !may_block {
        let empty: bool = match lookup(db, args[1].as_slice(), now) {
            Some(DbRecord::List(list)) => list.is_empty(),
            _ => true,
        };
        if empty {
            return Blpop::Reply(RedisValue::NilArray);
        }
    }
    let mut list = take_list(db, args[1].as_slice(), now);
    match list.pop_front() {
        Some(value) => {
            db.insert(args[1].clone(), DbRecord::List(list));
            assert(final(db)@ =~= old(db)@.insert(
                key,
                RecordView::List(ListView { items: found.items.skip(1), waiters: found.waiters }),
            ));
            Blpop::Reply(popped_reply(args[1].as_slice(), value))
        },
        None => {
            let (sender, receiver) = unbounded_channel::<Vec<u8>>();
            list.subscribe_waiter(sender);
            assert(list@.waiters.drop_last() =~= found.waiters);
            db.insert(args[1].clone(), DbRecord::List(list));
            assert(final(db)@ =~= old(db)@.insert(key, final(db)@[key]));
            Blpop::Wait { receiver, timeout }
        },
    }
}

/// The reply of a `BLPOP` that waited: the key and the value where one
/// arrived, nil where the time ran out or the list went away.
pub open spec fn waited_value(key: Seq<u8>, arrived: Option<Seq<u8>>) -> Value {
    match arrived {
        Some(value) => popped_value(key, value),
        None => Value::NilArray,
    }
}

/// Builds the reply of a `BLPOP` that waited. It holds exactly one value
/// where one arrived, and is nil otherwise.
pub fn waited_reply(key: &[u8], arrived: Option<Vec<u8>>) -> (reply: RedisValue)
    ensures
        reply@ == waited_value(
            key@,
            match arrived {
                Some(value) => Some(value@),
                None => None,
            },
        ),
{
    match arrived {
        Some(value) => popped_reply(key, value),
        None => RedisValue::NilArray,
    }
}

} // verus!
