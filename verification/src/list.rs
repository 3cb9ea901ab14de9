//! Lists: double-ended queues of strings, with the mailboxes of the readers
//! that wait for an element.

use std::collections::VecDeque;
use vstd::prelude::*;
use tokio::sync::mpsc::UnboundedSender;
use crate::mailbox::try_send;
use crate::text::byte_strings;

verus! {

/// The content of a list: its elements from front to back, and its
/// waiters, oldest first.
pub struct ListView {
    pub items: Seq<Seq<u8>>,
    pub waiters: Seq<UnboundedSender<Vec<u8>>>,
}

/// What a push may leave behind, whatever the mailboxes of the waiters did.
///
/// The waiters are tried from the oldest on, and each one tried leaves the
/// queue. Either one of them took the value, and the elements are what they
/// were; or every waiter was tried in vain (or there was none), and the
/// elements are `stored`.
pub open spec fn handed_or_stored(before: ListView, after: ListView, stored: Seq<Seq<u8>>) -> bool {
    exists|k: int|
        #![trigger before.waiters.skip(k)]
        {
            &&& 0 <= k <= before.waiters.len()
            &&& after.waiters == before.waiters.skip(k)
            &&& ((k >= 1 && after.items == before.items) || (k == before.waiters.len()
                && after.items == stored))
        }
}

/// An index counted from the end when negative, and not before the start.
pub open spec fn from_end(i: int, len: int) -> int {
    if i >= 0 {
        i
    } else if len + i < 0 {
        0
    } else {
        len + i
    }
}

/// The elements from `start` to `stop`, both included, where a negative
/// index counts from the end and `stop` is cut off at the last element.
pub open spec fn list_range(items: Seq<Seq<u8>>, start: int, stop: int) -> Seq<Seq<u8>> {
    let first = from_end(start, items.len() as int);
    let wanted = from_end(stop, items.len() as int);
    let last = if wanted < items.len() - 1 {
        wanted
    } else {
        items.len() - 1
    };
    if first < items.len() && first <= last {
        items.subrange(first, last + 1)
    } else {
        Seq::empty()
    }
}

/// A list in the keyspace.
pub struct ListRecord {
    list: VecDeque<Vec<u8>>,
    waiters: VecDeque<UnboundedSender<Vec<u8>>>,
}

impl View for ListRecord {
    type V = ListView;

    closed spec fn view(&self) -> ListView {
        ListView { items: byte_strings(self.list@), waiters: self.waiters@ }
    }
}

/// Copies a queue of strings.
fn copy_strings(list: &VecDeque<Vec<u8>>) -> (res: VecDeque<Vec<u8>>)
    ensures
        byte_strings(res@) == byte_strings(list@),
{
    let mut res: VecDeque<Vec<u8>> = VecDeque::new();
    let mut i: usize = 0;
    while i < list.len()
        invariant
            i <= list.len(),
            res@.len() == i,
            forall|j: int| 0 <= j < i ==> res@[j]@ == list@[j]@,
        decreases list.len() - i,
    {
        res.push_back(list[i].clone());
        i += 1;
    }
    assert(byte_strings(res@) =~= byte_strings(list@));
    res
}

impl ListRecord {
    /// A list without elements and without waiters.
    pub fn new() -> (record: Self)
        ensures
            record@.items == Seq::<Seq<u8>>::empty(),
            record@.waiters == Seq::<UnboundedSender<Vec<u8>>>::empty(),
    {
        let record = ListRecord { list: VecDeque::new(), waiters: VecDeque::new() };
        assert(byte_strings(record.list@) =~= Seq::<Seq<u8>>::empty());
        record
    }

    /// A list with the given elements and without waiters.
    pub fn from_list(list: VecDeque<Vec<u8>>) -> (record: Self)
        ensures
            record@.items == byte_strings(list@),
            record@.waiters == Seq::<UnboundedSender<Vec<u8>>>::empty(),
    {
        ListRecord { list, waiters: VecDeque::new() }
    }

    /// A copy of the elements, front first.
    pub fn get_list(&self) -> (list: VecDeque<Vec<u8>>)
        ensures
            byte_strings(list@) == self@.items,
    {
        copy_strings(&self.list)
    }

    /// How many elements the list holds.
    pub fn len(&self) -> (n: usize)
        ensures
            n == self@.items.len(),
    {
        self.list.len()
    }

    /// Whether the list holds no element.
    pub fn is_empty(&self) -> (res: bool)
        ensures
            res == (self@.items.len() == 0),
    {
        self.list.len() == 0
    }

    /// How many waiters are queued.
    pub fn waiter_count(&self) -> (n: usize)
        ensures
            n == self@.waiters.len(),
    {
        self.waiters.len()
    }

    /// Hands `value` to the oldest waiter whose mailbox takes it.
    ///
    /// Every waiter that is tried leaves the queue. The result says whether
    /// one of them took the value; where none did, no waiter is left.
    fn hand_over(&mut self, value: &Vec<u8>) -> (handed: bool)
        ensures
            final(self)@.items == old(self)@.items,
            exists|k: int|
                #![trigger old(self)@.waiters.skip(k)]
                {
                    &&& 0 <= k <= old(self)@.waiters.len()
                    &&& final(self)@.waiters == old(self)@.waiters.skip(k)
                    &&& if handed {
                        k >= 1
                    } else {
                        k == old(self)@.waiters.len()
                    }
                },
    {
        let ghost waiting = self.waiters@;
        let count: usize = self.waiters.len();
        let mut tried: usize = 0;
        assert(waiting.skip(0) =~= waiting);
        while tried < count
            invariant
                tried <= count,
                count == waiting.len(),
                waiting == old(self)@.waiters,
                self.waiters@ == waiting.skip(tried as int),
                self.list == old(self).list,
            decreases count - tried,
        {
            let waiter = self.waiters.pop_front().unwrap();
            tried += 1;
            assert(self.waiters@ =~= waiting.skip(tried as int));
            if try_send(&waiter, value.clone()) {
                assert(self@.waiters == old(self)@.waiters.skip(tried as int));
                return true;
            }
        }
        assert(self@.waiters == old(self)@.waiters.skip(tried as int));
        false
    }

    /// Puts `value` at the front, unless a waiter takes it.
    ///
    /// The value is offered to the waiters, oldest first, until the mailbox
    /// of one takes it; a waiter whose mailbox is closed is dropped. Where
    /// no waiter takes it, it becomes the first element.
    pub fn push_front(&mut self, value: Vec<u8>)
        ensures
            handed_or_stored(old(self)@, final(self)@, seq![value@] + old(self)@.items),
    {
        if !self.hand_over(&value) {
            self.list.push_front(value);
            assert(byte_strings(self.list@) =~= seq![value@] + old(self)@.items);
        }
    }

    /// Puts `value` at the back, unless a waiter takes it.
    ///
    /// The value is offered to the waiters, oldest first, until the mailbox
    /// of one takes it; a waiter whose mailbox is closed is dropped. Where
    /// no waiter takes it, it becomes the last element.
    pub fn push_back(&mut self, value: Vec<u8>)
        ensures
            handed_or_stored(old(self)@, final(self)@, old(self)@.items.push(value@)),
    {
        if !self.hand_over(&value) {
            self.list.push_back(value);
            assert(byte_strings(self.list@) =~= old(self)@.items.push(value@));
        }
    }

    /// Removes and returns the first element, if there is one.
    pub fn pop_front(&mut self) -> (res: Option<Vec<u8>>)
        ensures
            final(self)@.waiters == old(self)@.waiters,
            match res {
                Some(value) => old(self)@.items.len() > 0 && value@ == old(self)@.items[0]
                    && final(self)@.items == old(self)@.items.skip(1),
                None => old(self)@.items.len() == 0 && final(self)@.items == old(self)@.items,
            },
    {
        let res = self.list.pop_front();
        proof {
            if res is Some {
                assert(byte_strings(self.list@) =~= old(self)@.items.skip(1));
            }
        }
        res
    }

    /// Copies of the elements from `start` to `stop`, both included, where
    /// a negative index counts from the end.
    pub fn range(&self, start: i64, stop: i64) -> (found: Vec<Vec<u8>>)
        ensures
            byte_strings(found@) == list_range(self@.items, start as int, stop as int),
    {
        let mut found: Vec<Vec<u8>> = Vec::new();
        let len: usize = self.list.len();
        assert(byte_strings(found@) =~= Seq::<Seq<u8>>::empty());
        if len == 0 {
            return found;
        }
        let first: usize = clamp_index(start, len);
        let wanted: usize = clamp_index(stop, len);
        let last: usize = if wanted < len - 1 {
            wanted
        } else {
            len - 1
        };
        if first >= len || first > last {
            return found;
        }
        let mut i: usize = first;
        while i <= last
            invariant
                first <= i <= last + 1,
                last < len,
                len == self.list@.len(),
                found@.len() == i - first,
                forall|j: int| 0 <= j < i - first ==> found@[j]@ == self.list@[first + j]@,
            decreases last + 1 - i,
        {
            found.push(self.list[i].clone());
            i += 1;
        }
        assert(byte_strings(found@) =~= self@.items.subrange(first as int, last + 1));
        found
    }

    /// Adds a waiter at the end of the queue.
    pub fn subscribe_waiter(&mut self, waiter: UnboundedSender<Vec<u8>>)
        ensures
            final(self)@.items == old(self)@.items,
            final(self)@.waiters == old(self)@.waiters.push(waiter),
    {
        self.waiters.push_back(waiter);
    }
}

/// An index counted from the end when negative, not before the start, and
/// cut off at `len` where it lies behind the end.
fn clamp_index(i: i64, len: usize) -> (res: usize)
    ensures
        from_end(i as int, len as int) >= len ==> res >= len,
        from_end(i as int, len as int) < len ==> res == from_end(i as int, len as int),
{
    if i >= 0 {
        if i as u64 >= len as u64 {
            len
        } else {
            i as usize
        }
    } else {
        let back: u64 = ((-(i + 1)) as u64) + 1;
        if back >= len as u64 {
            0
        } else {
            len - (back as usize)
        }
    }
}

} // verus!
