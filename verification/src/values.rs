//! The tagged values that travel over the wire and rest in the keyspace.

use vstd::prelude::*;
use crate::decimal::{decimal, push_decimal, push_signed_decimal, signed_decimal};

verus! {

/// A value as it is held in memory.
#[derive(Debug, PartialEq, Eq)]
pub enum RedisValue {
    SimpleString(Vec<u8>),
    Error(Vec<u8>),
    Integer(i64),
    BulkString(Vec<u8>),
    NilBulk,
    Array(Vec<RedisValue>),
    NilArray,
}

/// The mathematical content of a [`RedisValue`].
pub enum Value {
    SimpleString(Seq<u8>),
    Error(Seq<u8>),
    Integer(i64),
    BulkString(Seq<u8>),
    NilBulk,
    Array(Seq<Value>),
    NilArray,
}

impl View for RedisValue {
    type V = Value;

    open spec fn view(&self) -> Value {
        value_of(*self)
    }
}

/// The content of a value in memory.
pub open spec fn value_of(v: RedisValue) -> Value
    decreases v, 0nat,
{
    match v {
        RedisValue::SimpleString(s) => Value::SimpleString(s@),
        RedisValue::Error(s) => Value::Error(s@),
        RedisValue::Integer(n) => Value::Integer(n),
        RedisValue::BulkString(s) => Value::BulkString(s@),
        RedisValue::NilBulk => Value::NilBulk,
        RedisValue::Array(items) => Value::Array(values_of(items@)),
        RedisValue::NilArray => Value::NilArray,
    }
}

/// The contents of a sequence of values in memory, in order.
pub open spec fn values_of(items: Seq<RedisValue>) -> Seq<Value>
    decreases items, 1nat,
{
    if items.len() == 0 {
        Seq::empty()
    } else {
        values_of(items.drop_last()).push(value_of(items.last()))
    }
}

/// `values_of` keeps the length and works element by element.
pub proof fn lemma_values_of(items: Seq<RedisValue>)
    ensures
        values_of(items).len() == items.len(),
        forall|i: int| 0 <= i < items.len() ==> (#[trigger] values_of(items)[i]) == items[i]@,
    decreases items.len(),
{
    if items.len() > 0 {
        lemma_values_of(items.drop_last());
    }
}

/// The line terminator of the protocol.
pub open spec fn crlf() -> Seq<u8> {
    seq![13u8, 10u8]
}

/// The one canonical wire form of a value.
pub open spec fn encoding(v: Value) -> Seq<u8>
    decreases v, 0nat,
{
    match v {
        Value::SimpleString(s) => seq![43u8] + s + crlf(),
        Value::Error(s) => seq![45u8] + s + crlf(),
        Value::Integer(n) => seq![58u8] + signed_decimal(n as int) + crlf(),
        Value::BulkString(s) => seq![36u8] + decimal(s.len()) + crlf() + s + crlf(),
        Value::NilBulk => seq![36u8, 45u8, 49u8, 13u8, 10u8],
        Value::Array(items) => seq![42u8] + decimal(items.len()) + crlf() + encoding_all(items),
        Value::NilArray => seq![42u8, 45u8, 49u8, 13u8, 10u8],
    }
}

/// The wire forms of `items`, one after the other.
pub open spec fn encoding_all(items: Seq<Value>) -> Seq<u8>
    decreases items, 1nat,
{
    if items.len() == 0 {
        Seq::empty()
    } else {
        encoding_all(items.drop_last()) + encoding(items.last())
    }
}

/// The wire form of a string sent as a simple string, whatever tag it had.
pub open spec fn simple_string_encoding(s: Seq<u8>) -> Seq<u8> {
    seq![43u8] + s + crlf()
}

/// The string that a value carries, if it is one of the two string kinds.
pub open spec fn string_of(v: Value) -> Option<Seq<u8>> {
    match v {
        Value::SimpleString(s) => Some(s),
        Value::BulkString(s) => Some(s),
        _ => None,
    }
}

/// An element of an array value is structurally smaller than the array, and
/// its view is the element of the array's view at the same place.
pub proof fn lemma_item_is_smaller(v: &RedisValue, i: int)
    requires
        v is Array,
        0 <= i < v->Array_0.len(),
    ensures
        decreases_to!(*v => v->Array_0[i]),
        v@ is Array,
        v@->Array_0.len() == v->Array_0.len(),
        v@->Array_0[i] == v->Array_0[i]@,
{
    vstd::std_specs::vec::axiom_vec_index_decreases(v->Array_0, i);
    assert(decreases_to!(*v => v->Array_0));
    lemma_values_of(v->Array_0@);
}

/// Why a value could not be read as asked.
#[derive(Debug, Clone, Copy, PartialEq, Eq, Structural)]
pub enum ValueError {
    /// The value is neither a simple string nor a bulk string.
    NotAString,
    /// The value is not an integer.
    NotAnInteger,
}

impl RedisValue {
    /// The string that the value carries.
    pub fn get_string(&self) -> (res: Result<Vec<u8>, ValueError>)
        ensures
            match string_of(self@) {
                Some(s) => res is Ok && res->Ok_0@ == s,
                None => res == Err::<Vec<u8>, ValueError>(ValueError::NotAString),
            },
    {
        match self {
            RedisValue::SimpleString(s) => Ok(s.clone()),
            RedisValue::BulkString(s) => Ok(s.clone()),
            _ => Err(ValueError::NotAString),
        }
    }

    /// The integer that the value carries.
    pub fn _get_int(&self) -> (res: Result<i64, ValueError>)
        ensures
            match self@ {
                Value::Integer(n) => res == Ok::<i64, ValueError>(n),
                _ => res == Err::<i64, ValueError>(ValueError::NotAnInteger),
            },
    {
        match self {
            RedisValue::Integer(n) => Ok(*n),
            _ => Err(ValueError::NotAnInteger),
        }
    }

    /// Appends the wire form of the value to `out`.
    pub fn encode_into(&self, out: &mut Vec<u8>)
        ensures
            final(out)@ == old(out)@ + encoding(self@),
        decreases self,
    {
        match self {
            RedisValue::SimpleString(s) => {
                out.push(43u8);
                out.extend_from_slice(s.as_slice());
                out.push(13u8);
                out.push(10u8);
                assert(out@ =~= old(out)@ + encoding(self@));
            },
            RedisValue::Error(s) => {
                out.push(45u8);
                out.extend_from_slice(s.as_slice());
                out.push(13u8);
                out.push(10u8);
                assert(out@ =~= old(out)@ + encoding(self@));
            },
            RedisValue::Integer(n) => {
                out.push(58u8);
                push_signed_decimal(out, *n);
                out.push(13u8);
                out.push(10u8);
                assert(out@ =~= old(out)@ + encoding(self@));
            },
            RedisValue::BulkString(s) => {
                out.push(36u8);
                push_decimal(out, s.len() as u64);
                out.push(13u8);
                out.push(10u8);
                out.extend_from_slice(s.as_slice());
                out.push(13u8);
                out.push(10u8);
                assert(out@ =~= old(out)@ + encoding(self@));
            },
            RedisValue::NilBulk => {
                out.push(36u8);
                out.push(45u8);
                out.push(49u8);
                out.push(13u8);
                out.push(10u8);
                assert(out@ =~= old(out)@ + encoding(self@));
            },
            RedisValue::Array(items) => {
                out.push(42u8);
                push_decimal(out, items.len() as u64);
                out.push(13u8);
                out.push(10u8);
                let ghost header = out@;
                let ghost views = self@->Array_0;
                proof {
                    lemma_values_of(items@);
                }
                assert(header =~= old(out)@ + (seq![42u8] + decimal(views.len()) + crlf()));
                let mut i: usize = 0;
                assert(views.take(0) =~= Seq::<Value>::empty());
                while i < items.len()
                    invariant
                        *self == RedisValue::Array(*items),
                        views == self@->Array_0,
                        views.len() == items.len(),
                        i <= items.len(),
                        out@ == header + encoding_all(views.take(i as int)),
                    decreases items.len() - i,
                {
                    proof {
                        lemma_item_is_smaller(self, i as int);
                        let next = views.take(i + 1);
                        assert(next.drop_last() =~= views.take(i as int));
                        assert(next.last() == items[i as int]@);
                    }
                    items[i].encode_into(out);
                    i += 1;
                    assert(out@ =~= header + encoding_all(views.take(i as int)));
                }
                assert(views.take(i as int) =~= views);
                assert(out@ =~= old(out)@ + encoding(self@));
            },
            RedisValue::NilArray => {
                out.push(42u8);
                out.push(45u8);
                out.push(49u8);
                out.push(13u8);
                out.push(10u8);
                assert(out@ =~= old(out)@ + encoding(self@));
            },
        }
    }

    /// The wire form of the value.
    pub fn encode(&self) -> (encoded: Vec<u8>)
        ensures
            encoded@ == encoding(self@),
    {
        let mut encoded: Vec<u8> = Vec::new();
        self.encode_into(&mut encoded);
        assert(encoded@ =~= encoding(self@));
        encoded
    }

    /// The wire form of a string value sent as a simple string.
    ///
    /// Succeeds exactly on the two string kinds.
    pub fn as_simple_string(&self) -> (res: Result<Vec<u8>, ValueError>)
        ensures
            match string_of(self@) {
                Some(s) => res is Ok && res->Ok_0@ == simple_string_encoding(s),
                None => res == Err::<Vec<u8>, ValueError>(ValueError::NotAString),
            },
    {
        match self {
            RedisValue::SimpleString(s) | RedisValue::BulkString(s) => {
                let mut encoded: Vec<u8> = Vec::new();
                encoded.push(43u8);
                encoded.extend_from_slice(s.as_slice());
                encoded.push(13u8);
                encoded.push(10u8);
                assert(encoded@ =~= simple_string_encoding(s@));
                Ok(encoded)
            },
            _ => Err(ValueError::NotAString),
        }
    }
}

impl Clone for RedisValue {
    fn clone(&self) -> (res: Self)
        ensures
            res@ == self@,
        decreases self,
    {
        match self {
            RedisValue::SimpleString(s) => RedisValue::SimpleString(s.clone()),
            RedisValue::Error(s) => RedisValue::Error(s.clone()),
            RedisValue::Integer(n) => RedisValue::Integer(*n),
            RedisValue::BulkString(s) => RedisValue::BulkString(s.clone()),
            RedisValue::NilBulk => RedisValue::NilBulk,
            RedisValue::Array(items) => {
                let mut copy: Vec<RedisValue> = Vec::new();
                let mut i: usize = 0;
                while i < items.len()
                    invariant
                        *self == RedisValue::Array(*items),
                        i <= items.len(),
                        copy.len() == i,
                        forall|j: int| 0 <= j < i ==> copy@[j]@ == items@[j]@,
                    decreases items.len() - i,
                {
                    proof {
                        lemma_item_is_smaller(self, i as int);
                    }
                    copy.push(items[i].clone());
                    i += 1;
                }
                let res = RedisValue::Array(copy);
                proof {
                    lemma_values_of(copy@);
                    lemma_values_of(items@);
                    assert(res@->Array_0 =~= self@->Array_0);
                }
                res
            },
            RedisValue::NilArray => RedisValue::NilArray,
        }
    }
}

} // verus!
