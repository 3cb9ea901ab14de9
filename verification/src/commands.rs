//! The commands on strings: what each one answers and how it changes the
//! keyspace.
//!
//! A command is a sequence of byte strings, the first of which is its name.
//! Each command has a specification function that gives, for every keyspace
//! and every time, the reply and the keyspace afterwards; the executable
//! function beside it is proved to compute exactly that.

use vstd::prelude::*;
use crate::db::{is_live, DbRecord, RecordView, StringRecord, StringView, DB};
use crate::decimal::{
    all_digits, decimal_value, i64_value, parse_decimal, parse_signed_decimal, push_signed_decimal,
    signed_decimal,
};
use crate::text::{byte_strings, bytes_of, is_text, push_text, text, to_upper, upper};
use crate::values::{string_of, RedisValue, Value};

verus! {

/// The keyspace as the commands see it.
pub type Keyspace = Map<Seq<u8>, RecordView>;

/// The reply to a command that was given the wrong number of arguments.
pub open spec fn arity_error(name: &str) -> Value {
    Value::Error(text("Err wrong number of arguments for '") + text(name) + text("' command"))
}

/// The reply to a command that met a record of another kind than it works
/// on.
pub open spec fn wrong_type() -> Value {
    Value::Error(text("WRONGTYPE Operation against a key holding the wrong kind of value"))
}

/// The reply to a command that needed a number and was given something
/// else, or whose result would not fit in 64 bits.
pub open spec fn not_an_integer() -> Value {
    Value::Error(text("ERR value is not an integer or out of range"))
}

/// The reply `OK`.
pub open spec fn ok() -> Value {
    Value::SimpleString(text("OK"))
}

/// The record under `key` as a command sees it at `now`: a string that has
/// expired counts as absent.
pub open spec fn live_record(db: Keyspace, key: Seq<u8>, now: u64) -> Option<RecordView> {
    if db.contains_key(key) {
        match db[key] {
            RecordView::String(s) => if is_live(s.time_limit, now) {
                Some(db[key])
            } else {
                None
            },
            _ => Some(db[key]),
        }
    } else {
        None
    }
}

/// A value as a reply to a read: a string of either kind is sent as a bulk
/// string.
pub open spec fn as_bulk(v: Value) -> Value {
    match string_of(v) {
        Some(s) => Value::BulkString(s),
        None => v,
    }
}

/// The number that an argument gives, if it is a string of digits that fits
/// in 64 bits.
pub open spec fn number_of(s: Seq<u8>) -> Option<u64> {
    if s.len() > 0 && all_digits(s) && decimal_value(s) <= u64::MAX {
        Some(decimal_value(s) as u64)
    } else {
        None
    }
}

/// Builds the reply to a command that was given the wrong number of
/// arguments.
pub fn arity_error_reply(name: &str) -> (reply: RedisValue)
    ensures
        reply@ == arity_error(name),
{
    let mut message: Vec<u8> = Vec::new();
    push_text(&mut message, "Err wrong number of arguments for '");
    push_text(&mut message, name);
    push_text(&mut message, "' command");
    assert(message@ =~= text("Err wrong number of arguments for '") + text(name) + text(
        "' command",
    ));
    RedisValue::Error(message)
}

/// Builds an error reply with the given text.
pub fn error_reply(message: &str) -> (reply: RedisValue)
    ensures
        reply@ == Value::Error(text(message)),
{
    RedisValue::Error(bytes_of(message))
}

/// Builds the reply for a record of the wrong kind.
pub fn wrong_type_reply() -> (reply: RedisValue)
    ensures
        reply@ == wrong_type(),
{
    error_reply("WRONGTYPE Operation against a key holding the wrong kind of value")
}

/// Builds the reply for an argument that is no number.
pub fn not_an_integer_reply() -> (reply: RedisValue)
    ensures
        reply@ == not_an_integer(),
{
    error_reply("ERR value is not an integer or out of range")
}

/// Builds a simple string reply with the given text.
pub fn simple_reply(message: &str) -> (reply: RedisValue)
    ensures
        reply@ == Value::SimpleString(text(message)),
{
    RedisValue::SimpleString(bytes_of(message))
}

/// Builds a bulk string reply with a copy of the given bytes.
pub fn bulk_reply(bytes: &[u8]) -> (reply: RedisValue)
    ensures
        reply@ == Value::BulkString(bytes@),
{
    RedisValue::BulkString(vstd::slice::slice_to_vec(bytes))
}

/// The record under `key` as a command sees it at `now`.
pub fn lookup<'a>(db: &'a DB, key: &[u8], now: u64) -> (res: Option<&'a DbRecord>)
    ensures
        match live_record(db@, key@, now) {
            Some(content) => res matches Some(record) && record@ == content,
            None => res is None,
        },
{
    match db.get(key) {
        Some(record) => {
            match record {
                DbRecord::String(s) => {
                    if s.is_valid_at(now) {
                        Some(record)
                    } else {
                        None
                    }
                },
                _ => Some(record),
            }
        },
        None => None,
    }
}

/// When a `SET` with these arguments lets its record expire: `None` where
/// the option's value is no number or the time would not fit, else the
/// time, if any.
pub open spec fn expiry_of(args: Seq<Seq<u8>>, now: u64) -> Option<Option<u64>> {
    if args.len() > 4 && upper(args[3]) == text("PX") {
        match number_of(args[4]) {
            Some(ms) => if now + ms <= u64::MAX {
                Some(Some((now + ms) as u64))
            } else {
                None
            },
            None => None,
        }
    } else if args.len() > 4 && upper(args[3]) == text("EX") {
        match number_of(args[4]) {
            Some(sec) => if now + sec * 1000 <= u64::MAX {
                Some(Some((now + sec * 1000) as u64))
            } else {
                None
            },
            None => None,
        }
    } else {
        Some(None)
    }
}

/// `SET key value [PX ms | EX sec]`: the keyspace afterwards and the reply.
pub open spec fn set_result(args: Seq<Seq<u8>>, now: u64, db: Keyspace) -> (Keyspace, Value) {
    if args.len() < 3 {
        (db, arity_error("SET"))
    } else {
        match expiry_of(args, now) {
            None => (db, not_an_integer()),
            Some(time_limit) => (
                db.insert(
                    args[1],
                    RecordView::String(StringView { value: Value::BulkString(args[2]), time_limit }),
                ),
                ok(),
            ),
        }
    }
}

/// Computes when a `SET` lets its record expire.
fn read_expiry(args: &Vec<Vec<u8>>, now: u64) -> (res: Option<Option<u64>>)
    ensures
        res == expiry_of(byte_strings(args@), now),
{
    if args.len() <= 4 {
        return Some(None);
    }
    let option = to_upper(args[3].as_slice());
    let in_millis: bool = is_text(option.as_slice(), "PX");
    let in_seconds: bool = is_text(option.as_slice(), "EX");
    if !in_millis && !in_seconds {
        return Some(None);
    }
    let amount: u64 = match parse_decimal(args[4].as_slice()) {
        Some(amount) => amount,
        None => {
            return None;
        },
    };
    let delta: u64 = if in_millis {
        amount
    } else {
        if amount > u64::MAX / 1000 {
            return None;
        }
        amount * 1000
    };
    if delta > u64::MAX - now {
        None
    } else {
        Some(Some(now + delta))
    }
}

/// `SET key value [PX ms | EX sec]`.
///
/// Stores the value as a string under the key, in place of any record that
/// was there, and answers `OK`. With `PX` or `EX` the record expires that
/// many milliseconds or seconds after `now`.
pub fn set(db: &mut DB, args: &Vec<Vec<u8>>, now: u64) -> (reply: RedisValue)
    ensures
        (final(db)@, reply@) == set_result(byte_strings(args@), now, old(db)@),
{
    if args.len() < 3 {
        return arity_error_reply("SET");
    }
    match read_expiry(args, now) {
        None => not_an_integer_reply(),
        Some(time_limit) => {
            let value = RedisValue::BulkString(args[2].clone());
            let record = match time_limit {
                Some(limit) => StringRecord::new_with_limit(value, limit),
                None => StringRecord::new(value),
            };
            db.insert(args[1].clone(), DbRecord::String(record));
            simple_reply("OK")
        },
    }
}

/// `GET key`: the reply.
pub open spec fn get_reply(args: Seq<Seq<u8>>, now: u64, db: Keyspace) -> Value {
    if args.len() != 2 {
        arity_error("GET")
    } else {
        match live_record(db, args[1], now) {
            None => Value::NilBulk,
            Some(RecordView::String(s)) => as_bulk(s.value),
            Some(_) => wrong_type(),
        }
    }
}

/// `GET key`.
///
/// Answers the value of a string that has not expired as a bulk string, nil
/// where there is none, and an error for a record of another kind.
pub fn get(db: &DB, args: &Vec<Vec<u8>>, now: u64) -> (reply: RedisValue)
    ensures
        reply@ == get_reply(byte_strings(args@), now, db@),
{
    if args.len() != 2 {
        return arity_error_reply("GET");
    }
    match lookup(db, args[1].as_slice(), now) {
        None => RedisValue::NilBulk,
        Some(DbRecord::String(s)) => {
            match s.get_value().get_string() {
                Ok(bytes) => RedisValue::BulkString(bytes),
                Err(_) => s.get_value().clone(),
            }
        },
        Some(_) => wrong_type_reply(),
    }
}

/// `TYPE key`: the reply.
pub open spec fn type_reply(args: Seq<Seq<u8>>, now: u64, db: Keyspace) -> Value {
    if args.len() != 2 {
        arity_error("TYPE")
    } else {
        match live_record(db, args[1], now) {
            None => Value::SimpleString(text("none")),
            Some(RecordView::String(_)) => Value::SimpleString(text("string")),
            Some(RecordView::List(_)) => Value::SimpleString(text("list")),
            Some(RecordView::Stream(_)) => Value::SimpleString(text("stream")),
        }
    }
}

/// `TYPE key`.
///
/// Answers the kind of the record under the key, or `none`.
pub fn type_of(db: &DB, args: &Vec<Vec<u8>>, now: u64) -> (reply: RedisValue)
    ensures
        reply@ == type_reply(byte_strings(args@), now, db@),
{
    if args.len() != 2 {
        return arity_error_reply("TYPE");
    }
    match lookup(db, args[1].as_slice(), now) {
        None => simple_reply("none"),
        Some(DbRecord::String(_)) => simple_reply("string"),
        Some(DbRecord::List(_)) => simple_reply("list"),
        Some(DbRecord::Stream(_)) => simple_reply("stream"),
    }
}

/// `INCR key`: the keyspace afterwards and the reply.
pub open spec fn incr_result(args: Seq<Seq<u8>>, now: u64, db: Keyspace) -> (Keyspace, Value) {
    if args.len() != 2 {
        (db, arity_error("INCR"))
    } else {
        match live_record(db, args[1], now) {
            None => (
                db.insert(
                    args[1],
                    RecordView::String(
                        StringView { value: Value::BulkString(signed_decimal(1)), time_limit: None },
                    ),
                ),
                Value::Integer(1),
            ),
            Some(RecordView::String(s)) => match counter_of(s.value) {
                Some(n) => if n < i64::MAX {
                    (
                        db.insert(
                            args[1],
                            RecordView::String(
                                StringView {
                                    value: Value::BulkString(signed_decimal(n + 1)),
                                    time_limit: s.time_limit,
                                },
                            ),
                        ),
                        Value::Integer((n + 1) as i64),
                    )
                } else {
                    (db, not_an_integer())
                },
                None => (db, not_an_integer()),
            },
            Some(_) => (db, wrong_type()),
        }
    }
}

/// The 64-bit integer that a stored value reads as, if it is a string that
/// is a numeral.
pub open spec fn counter_of(v: Value) -> Option<i64> {
    match string_of(v) {
        Some(s) => i64_value(s),
        None => None,
    }
}

/// `INCR key`.
///
/// Adds one to the number that the string under the key reads as, stores
/// the sum in its place and answers it. A key without a live record is set
/// to one. A string that is no number, or whose successor does not fit in
/// 64 bits, is left as it is and answered with an error.
pub fn incr(db: &mut DB, args: &Vec<Vec<u8>>, now: u64) -> (reply: RedisValue)
    ensures
        (final(db)@, reply@) == incr_result(byte_strings(args@), now, old(db)@),
{
    if args.len() != 2 {
        return arity_error_reply("INCR");
    }
    let (current, time_limit): (Option<i64>, Option<u64>) = match lookup(
        db,
        args[1].as_slice(),
        now,
    ) {
        None => {
            let mut digits: Vec<u8> = Vec::new();
            push_signed_decimal(&mut digits, 1);
            assert(digits@ =~= signed_decimal(1));
            db.insert(
                args[1].clone(),
                DbRecord::String(StringRecord::new(RedisValue::BulkString(digits))),
            );
            return RedisValue::Integer(1);
        },
        Some(DbRecord::String(s)) => {
            let current: Option<i64> = match s.get_value().get_string() {
                Ok(bytes) => parse_signed_decimal(bytes.as_slice()),
                Err(_) => None,
            };
            (current, s.time_limit())
        },
        Some(_) => {
            return wrong_type_reply();
        },
    };
    match current {
        Some(n) => {
            if n == i64::MAX {
                return not_an_integer_reply();
            }
            let mut digits: Vec<u8> = Vec::new();
            push_signed_decimal(&mut digits, n + 1);
            assert(digits@ =~= signed_decimal(n + 1));
            let value = RedisValue::BulkString(digits);
            let record = match time_limit {
                Some(limit) => StringRecord::new_with_limit(value, limit),
                None => StringRecord::new(value),
            };
            db.insert(args[1].clone(), DbRecord::String(record));
            RedisValue::Integer(n + 1)
        },
        None => not_an_integer_reply(),
    }
}

} // verus!
