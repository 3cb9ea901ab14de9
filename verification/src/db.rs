//! The keyspace: a mapping from keys to records of three kinds.

use vstd::prelude::*;
use crate::clock::now_millis;
use crate::list::{ListRecord, ListView};
use crate::stream::{StreamRecord, StreamView};
use crate::text::bytes_eq;
use crate::values::{RedisValue, Value};

verus! {

/// The content of a string record.
pub struct StringView {
    pub value: Value,
    pub time_limit: Option<u64>,
}

/// A string in the keyspace: a value and, optionally, the time at which it
/// expires, in milliseconds since the Unix epoch.
#[derive(Debug)]
pub struct StringRecord {
    value: RedisValue,
    time_limit: Option<u64>,
}

impl View for StringRecord {
    type V = StringView;

    closed spec fn view(&self) -> StringView {
        StringView { value: self.value@, time_limit: self.time_limit }
    }
}

impl Clone for StringRecord {
    fn clone(&self) -> (res: Self)
        ensures
            res@ == self@,
    {
        StringRecord { value: self.value.clone(), time_limit: self.time_limit }
    }
}

/// Whether a record with the given limit is still to be seen at `now`: a
/// record expires at the very millisecond of its limit.
pub open spec fn is_live(time_limit: Option<u64>, now: u64) -> bool {
    match time_limit {
        Some(limit) => now < limit,
        None => true,
    }
}

impl StringRecord {
    /// A record that never expires.
    pub fn new(value: RedisValue) -> (record: Self)
        ensures
            record@.value == value@,
            record@.time_limit is None,
    {
        StringRecord { value, time_limit: None }
    }

    /// A record that expires at `limit`.
    pub fn new_with_limit(value: RedisValue, limit: u64) -> (record: Self)
        ensures
            record@.value == value@,
            record@.time_limit == Some(limit),
    {
        StringRecord { value, time_limit: Some(limit) }
    }

    /// Whether the record is still to be seen at the time `now`.
    pub fn is_valid_at(&self, now: u64) -> (res: bool)
        ensures
            res == is_live(self@.time_limit, now),
    {
        match self.time_limit {
            Some(limit) => now < limit,
            None => true,
        }
    }

    /// Whether the record is still to be seen at the time that the wall
    /// clock shows. A record without a limit always is.
    pub fn is_valid(&self) -> (res: bool)
        ensures
            exists|now: u64| res == #[trigger] is_live(self@.time_limit, now),
            self@.time_limit is None ==> res,
    {
        let now = now_millis();
        let res = self.is_valid_at(now);
        assert(res == is_live(self@.time_limit, now));
        res
    }

    /// The value of the record.
    pub fn get_value(&self) -> (value: &RedisValue)
        ensures
            value@ == self@.value,
    {
        &self.value
    }

    /// The time at which the record expires, if it does.
    pub fn time_limit(&self) -> (limit: Option<u64>)
        ensures
            limit == self@.time_limit,
    {
        self.time_limit
    }
}

/// The content of a record.
pub enum RecordView {
    String(StringView),
    List(ListView),
    Stream(StreamView),
}

/// A record of the keyspace, tagged by its kind.
pub enum DbRecord {
    String(StringRecord),
    List(ListRecord),
    Stream(StreamRecord),
}

impl View for DbRecord {
    type V = RecordView;

    open spec fn view(&self) -> RecordView {
        match self {
            DbRecord::String(record) => RecordView::String(record@),
            DbRecord::List(record) => RecordView::List(record@),
            DbRecord::Stream(record) => RecordView::Stream(record@),
        }
    }
}

/// The name of the kind of a record.
pub open spec fn kind_name(record: RecordView) -> Seq<char> {
    match record {
        RecordView::String(_) => "string"@,
        RecordView::List(_) => "list"@,
        RecordView::Stream(_) => "stream"@,
    }
}

impl DbRecord {
    /// The string record, if this is one.
    pub fn get_string(&self) -> (res: Option<&StringRecord>)
        ensures
            match self@ {
                RecordView::String(content) => res matches Some(record) && record@ == content,
                _ => res is None,
            },
    {
        match self {
            DbRecord::String(record) => Some(record),
            _ => None,
        }
    }

    /// The list record, if this is one.
    pub fn get_list(&self) -> (res: Option<&ListRecord>)
        ensures
            match self@ {
                RecordView::List(content) => res matches Some(record) && record@ == content,
                _ => res is None,
            },
    {
        match self {
            DbRecord::List(record) => Some(record),
            _ => None,
        }
    }

    /// The list record to work on, if this is one. What is done to it is
    /// done to this record.
    pub fn get_mut_list(&mut self) -> (res: Option<&mut ListRecord>)
        ensures
            match old(self)@ {
                RecordView::List(content) => res matches Some(record) && record@ == content
                    && final(self)@ == RecordView::List(final(record)@),
                _ => res is None && final(self)@ == old(self)@,
            },
    {
        match self {
            DbRecord::List(record) => Some(record),
            _ => None,
        }
    }

    /// The stream record to work on, if this is one. What is done to it is
    /// done to this record.
    pub fn get_mut_stream(&mut self) -> (res: Option<&mut StreamRecord>)
        ensures
            match old(self)@ {
                RecordView::Stream(content) => res matches Some(record) && record@ == content
                    && final(self)@ == RecordView::Stream(final(record)@),
                _ => res is None && final(self)@ == old(self)@,
            },
    {
        match self {
            DbRecord::Stream(record) => Some(record),
            _ => None,
        }
    }

    /// The stream record, if this is one.
    pub fn get_stream(&self) -> (res: Option<&StreamRecord>)
        ensures
            match self@ {
                RecordView::Stream(content) => res matches Some(record) && record@ == content,
                _ => res is None,
            },
    {
        match self {
            DbRecord::Stream(record) => Some(record),
            _ => None,
        }
    }

    /// The name of the record's kind: `string`, `list` or `stream`.
    pub fn get_type(&self) -> (name: String)
        ensures
            name@ == kind_name(self@),
    {
        match self {
            DbRecord::List(_) => "list".to_owned(),
            DbRecord::String(_) => "string".to_owned(),
            DbRecord::Stream(_) => "stream".to_owned(),
        }
    }
}

/// A key with its record, as the keyspace holds it.
pub type Slot = (Vec<u8>, DbRecord);

/// The mapping that a run of slots describes.
pub open spec fn map_of(slots: Seq<Slot>) -> Map<Seq<u8>, RecordView>
    decreases slots.len(),
{
    if slots.len() == 0 {
        Map::empty()
    } else {
        map_of(slots.drop_last()).insert(slots.last().0@, slots.last().1@)
    }
}

/// Whether no key occurs twice.
pub open spec fn keys_distinct(slots: Seq<Slot>) -> bool {
    forall|i: int, j: int| 0 <= i < j < slots.len() ==> slots[i].0@ != slots[j].0@
}

/// The keys of the mapping are the keys of the slots.
proof fn lemma_map_of_keys(slots: Seq<Slot>, key: Seq<u8>)
    ensures
        map_of(slots).contains_key(key) <==> exists|i: int|
            0 <= i < slots.len() && (#[trigger] slots[i]).0@ == key,
    decreases slots.len(),
{
    if slots.len() > 0 {
        let front = slots.drop_last();
        lemma_map_of_keys(front, key);
        if map_of(slots).contains_key(key) {
            if slots.last().0@ == key {
                assert(slots[slots.len() - 1].0@ == key);
            } else {
                let i = choose|i: int| 0 <= i < front.len() && (#[trigger] front[i]).0@ == key;
                assert(slots[i].0@ == key);
            }
        }
        if exists|i: int| 0 <= i < slots.len() && (#[trigger] slots[i]).0@ == key {
            let i = choose|i: int| 0 <= i < slots.len() && (#[trigger] slots[i]).0@ == key;
            if i < slots.len() - 1 {
                assert(front[i].0@ == key);
            }
        }
    }
}

/// Where no key occurs twice, each slot's key maps to that slot's record.
proof fn lemma_map_of_index(slots: Seq<Slot>, i: int)
    requires
        keys_distinct(slots),
        0 <= i < slots.len(),
    ensures
        map_of(slots).contains_key(slots[i].0@),
        map_of(slots)[slots[i].0@] == slots[i].1@,
    decreases slots.len(),
{
    if i < slots.len() - 1 {
        let front = slots.drop_last();
        assert(keys_distinct(front)) by {
            assert forall|a: int, b: int| 0 <= a < b < front.len() implies front[a].0@
                != front[b].0@ by {
                assert(slots[a].0@ != slots[b].0@);
            }
        }
        lemma_map_of_index(front, i);
        assert(slots[i].0@ != slots[slots.len() - 1].0@);
    }
}

/// Where no key occurs twice, taking a slot out takes its key out of the
/// mapping and leaves the rest.
proof fn lemma_map_of_remove(slots: Seq<Slot>, i: int)
    requires
        keys_distinct(slots),
        0 <= i < slots.len(),
    ensures
        map_of(slots.remove(i)) == map_of(slots).remove(slots[i].0@),
        keys_distinct(slots.remove(i)),
    decreases slots.len(),
{
    let shorter = slots.remove(i);
    assert(keys_distinct(shorter)) by {
        assert forall|a: int, b: int| 0 <= a < b < shorter.len() implies shorter[a].0@
            != shorter[b].0@ by {
            let a2 = if a < i {
                a
            } else {
                a + 1
            };
            let b2 = if b < i {
                b
            } else {
                b + 1
            };
            assert(slots[a2].0@ != slots[b2].0@);
        }
    }
    let front = slots.drop_last();
    if i == slots.len() - 1 {
        assert(shorter =~= front);
        lemma_map_of_keys(front, slots[i].0@);
        if map_of(front).contains_key(slots[i].0@) {
            let j = choose|j: int| 0 <= j < front.len() && (#[trigger] front[j]).0@ == slots[i].0@;
            assert(slots[j].0@ != slots[i].0@);
        }
        assert(map_of(front) =~= map_of(slots).remove(slots[i].0@));
    } else {
        assert(keys_distinct(front)) by {
            assert forall|a: int, b: int| 0 <= a < b < front.len() implies front[a].0@
                != front[b].0@ by {
                assert(slots[a].0@ != slots[b].0@);
            }
        }
        lemma_map_of_remove(front, i);
        assert(shorter.drop_last() =~= front.remove(i));
        assert(shorter.last() == slots.last());
        assert(slots[i].0@ != slots[slots.len() - 1].0@);
        assert(map_of(shorter) =~= map_of(slots).remove(slots[i].0@));
    }
}

/// The keyspace.
pub struct DB {
    slots: Vec<Slot>,
}

impl View for DB {
    type V = Map<Seq<u8>, RecordView>;

    closed spec fn view(&self) -> Map<Seq<u8>, RecordView> {
        map_of(self.slots@)
    }
}

impl DB {
    #[verifier::type_invariant]
    spec fn unique_keys(self) -> bool {
        keys_distinct(self.slots@)
    }

    /// A keyspace without keys.
    pub fn new() -> (db: Self)
        ensures
            db@ == Map::<Seq<u8>, RecordView>::empty(),
    {
        DB { slots: Vec::new() }
    }

    /// The place of `key` among the slots.
    fn find(&self, key: &[u8]) -> (res: Option<usize>)
        ensures
            match res {
                Some(i) => i < self.slots@.len() && self.slots@[i as int].0@ == key@,
                None => forall|j: int| 0 <= j < self.slots@.len() ==> self.slots@[j].0@ != key@,
            },
    {
        let mut i: usize = 0;
        while i < self.slots.len()
            invariant
                i <= self.slots.len(),
                forall|j: int| 0 <= j < i ==> self.slots@[j].0@ != key@,
            decreases self.slots.len() - i,
        {
            if bytes_eq(self.slots[i].0.as_slice(), key) {
                return Some(i);
            }
            i += 1;
        }
        None
    }

    /// The record under `key`, if there is one.
    pub fn get(&self, key: &[u8]) -> (res: Option<&DbRecord>)
        ensures
            match res {
                Some(record) => self@.contains_key(key@) && record@ == self@[key@],
                None => !self@.contains_key(key@),
            },
    {
        proof {
            use_type_invariant(self);
            lemma_map_of_keys(self.slots@, key@);
        }
        match self.find(key) {
            Some(i) => {
                proof {
                    lemma_map_of_index(self.slots@, i as int);
                }
                Some(&self.slots[i].1)
            },
            None => None,
        }
    }

    /// Whether there is a record under `key`.
    pub fn contains_key(&self, key: &[u8]) -> (res: bool)
        ensures
            res == self@.contains_key(key@),
    {
        self.get(key).is_some()
    }

    /// Takes the record under `key` out of the keyspace, if there is one.
    pub fn take(&mut self, key: &[u8]) -> (res: Option<DbRecord>)
        ensures
            final(self)@ == old(self)@.remove(key@),
            match res {
                Some(record) => old(self)@.contains_key(key@) && record@ == old(self)@[key@],
                None => !old(self)@.contains_key(key@),
            },
    {
        proof {
            use_type_invariant(&*self);
            lemma_map_of_keys(self.slots@, key@);
        }
        match self.find(key) {
            Some(i) => {
                proof {
                    lemma_map_of_index(self.slots@, i as int);
                    lemma_map_of_remove(self.slots@, i as int);
                }
                let mut slots: Vec<Slot> = Vec::new();
                core::mem::swap(&mut self.slots, &mut slots);
                let slot = slots.remove(i);
                core::mem::swap(&mut self.slots, &mut slots);
                Some(slot.1)
            },
            None => {
                assert(self@ =~= old(self)@.remove(key@));
                None
            },
        }
    }

    /// Puts `record` under `key`, in place of what was there.
    pub fn insert(&mut self, key: Vec<u8>, record: DbRecord)
        ensures
            final(self)@ == old(self)@.insert(key@, record@),
    {
        let _ = self.take(key.as_slice());
        proof {
            use_type_invariant(&*self);
            lemma_map_of_keys(self.slots@, key@);
        }
        let ghost before = self.slots@;
        let mut slots: Vec<Slot> = Vec::new();
        core::mem::swap(&mut self.slots, &mut slots);
        slots.push((key, record));
        proof {
            assert(slots@.drop_last() =~= before);
            assert(keys_distinct(slots@)) by {
                assert forall|a: int, b: int| 0 <= a < b < slots@.len() implies slots@[a].0@
                    != slots@[b].0@ by {
                    if b == slots@.len() - 1 {
                        assert(before[a].0@ != key@);
                    } else {
                        assert(before[a].0@ != before[b].0@);
                    }
                }
            }
            assert(map_of(slots@) =~= old(self)@.insert(key@, record@));
        }
        core::mem::swap(&mut self.slots, &mut slots);
    }

    /// How many keys the keyspace holds.
    pub fn len(&self) -> (n: usize)
        ensures
            n == self@.dom().len(),
            self@.dom().finite(),
    {
        proof {
            use_type_invariant(self);
            lemma_map_of_len(self.slots@);
        }
        self.slots.len()
    }
}

/// Where no key occurs twice, the mapping has as many keys as there are
/// slots.
proof fn lemma_map_of_len(slots: Seq<Slot>)
    requires
        keys_distinct(slots),
    ensures
        map_of(slots).dom().finite(),
        map_of(slots).dom().len() == slots.len(),
    decreases slots.len(),
{
    if slots.len() > 0 {
        let front = slots.drop_last();
        assert(keys_distinct(front)) by {
            assert forall|a: int, b: int| 0 <= a < b < front.len() implies front[a].0@
                != front[b].0@ by {
                assert(slots[a].0@ != slots[b].0@);
            }
        }
        lemma_map_of_len(front);
        lemma_map_of_keys(front, slots.last().0@);
        if map_of(front).contains_key(slots.last().0@) {
            let j = choose|j: int| 0 <= j < front.len() && (#[trigger] front[j]).0@
                == slots.last().0@;
            assert(slots[j].0@ != slots[slots.len() - 1].0@);
        }
    }
}

} // verus!
