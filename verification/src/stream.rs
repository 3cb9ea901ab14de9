//! Streams: append-only sequences of entries whose ids only ever grow, with
//! the mailboxes of the readers that wait for new entries.

use std::collections::VecDeque;
use vstd::prelude::*;
use tokio::sync::mpsc::UnboundedSender;
use crate::decimal::{decimal, push_decimal};
use crate::mailbox::try_send;
use crate::text::bytes_eq;

verus! {

/// The id of a stream entry: a millisecond time and a sequence number
/// within that millisecond.
#[derive(Debug, Clone, Copy, PartialEq, Eq, Structural)]
pub struct StreamId {
    pub ms: u64,
    pub seq: u64,
}

/// The order of ids: by time first, by sequence number within one time.
pub open spec fn id_less(a: StreamId, b: StreamId) -> bool {
    a.ms < b.ms || (a.ms == b.ms && a.seq < b.seq)
}

/// The text form of an id, `ms-seq`.
pub open spec fn id_text(id: StreamId) -> Seq<u8> {
    decimal(id.ms as nat) + seq![45u8] + decimal(id.seq as nat)
}

/// The id below every id that a stream can hold.
pub open spec fn zero_id() -> StreamId {
    StreamId { ms: 0, seq: 0 }
}

impl StreamId {
    /// Whether this id comes strictly before `other`.
    pub fn is_before(&self, other: &StreamId) -> (res: bool)
        ensures
            res == id_less(*self, *other),
    {
        self.ms < other.ms || (self.ms == other.ms && self.seq < other.seq)
    }

    /// The text form `ms-seq`.
    pub fn to_bytes(&self) -> (res: Vec<u8>)
        ensures
            res@ == id_text(*self),
    {
        let mut res: Vec<u8> = Vec::new();
        push_decimal(&mut res, self.ms);
        res.push(45u8);
        push_decimal(&mut res, self.seq);
        assert(res@ =~= id_text(*self));
        res
    }
}

/// A field of an entry in memory: its name and its value.
pub type Field = (Vec<u8>, Vec<u8>);

/// The content of a list of fields.
pub open spec fn fields_view(kv: Seq<Field>) -> Seq<(Seq<u8>, Seq<u8>)> {
    Seq::new(kv.len(), |i: int| (kv[i].0@, kv[i].1@))
}

/// The place of the field called `name`, if there is one.
pub open spec fn field_index(fields: Seq<(Seq<u8>, Seq<u8>)>, name: Seq<u8>) -> Option<int>
    decreases fields.len(),
{
    if fields.len() == 0 {
        None
    } else {
        match field_index(fields.drop_last(), name) {
            Some(i) => Some(i),
            None => if fields.last().0 == name {
                Some(fields.len() - 1)
            } else {
                None
            },
        }
    }
}

/// The fields with `name` set to `value`: in the place where the name
/// already stood, else at the end.
pub open spec fn with_field(
    fields: Seq<(Seq<u8>, Seq<u8>)>,
    name: Seq<u8>,
    value: Seq<u8>,
) -> Seq<(Seq<u8>, Seq<u8>)> {
    match field_index(fields, name) {
        Some(i) => fields.update(i, (name, value)),
        None => fields.push((name, value)),
    }
}

/// The mapping that a run of name and value pairs describes: a name given
/// twice keeps its first place and its last value.
pub open spec fn collect_fields(pairs: Seq<(Seq<u8>, Seq<u8>)>) -> Seq<(Seq<u8>, Seq<u8>)>
    decreases pairs.len(),
{
    if pairs.len() == 0 {
        Seq::empty()
    } else {
        with_field(collect_fields(pairs.drop_last()), pairs.last().0, pairs.last().1)
    }
}

/// Whether no name occurs twice.
pub open spec fn names_distinct(fields: Seq<(Seq<u8>, Seq<u8>)>) -> bool {
    forall|i: int, j: int| 0 <= i < j < fields.len() ==> fields[i].0 != fields[j].0
}

/// What `field_index` finds is the one place of the name, and it finds
/// nothing only where the name is absent.
pub proof fn lemma_field_index(fields: Seq<(Seq<u8>, Seq<u8>)>, name: Seq<u8>)
    ensures
        match field_index(fields, name) {
            Some(i) => 0 <= i < fields.len() && fields[i].0 == name && forall|j: int|
                0 <= j < i ==> fields[j].0 != name,
            None => forall|j: int| 0 <= j < fields.len() ==> fields[j].0 != name,
        },
    decreases fields.len(),
{
    if fields.len() > 0 {
        lemma_field_index(fields.drop_last(), name);
        assert forall|j: int| 0 <= j < fields.len() - 1 implies fields[j]
            == fields.drop_last()[j] by {}
    }
}

/// Setting a field keeps the names distinct.
pub proof fn lemma_with_field_distinct(
    fields: Seq<(Seq<u8>, Seq<u8>)>,
    name: Seq<u8>,
    value: Seq<u8>,
)
    requires
        names_distinct(fields),
    ensures
        names_distinct(with_field(fields, name, value)),
{
    lemma_field_index(fields, name);
}

/// A collected mapping holds no name twice.
pub proof fn lemma_collect_fields_distinct(pairs: Seq<(Seq<u8>, Seq<u8>)>)
    ensures
        names_distinct(collect_fields(pairs)),
    decreases pairs.len(),
{
    if pairs.len() > 0 {
        lemma_collect_fields_distinct(pairs.drop_last());
        lemma_with_field_distinct(
            collect_fields(pairs.drop_last()),
            pairs.last().0,
            pairs.last().1,
        );
    }
}

/// The content of a stream entry.
pub struct EntryView {
    pub id: StreamId,
    pub fields: Seq<(Seq<u8>, Seq<u8>)>,
}

/// One entry of a stream: an id and a mapping from field names to values,
/// kept in the order in which the names first came.
#[derive(Debug, PartialEq, Eq)]
pub struct StreamEntry {
    id: StreamId,
    kv: Vec<Field>,
}

impl View for StreamEntry {
    type V = EntryView;

    closed spec fn view(&self) -> EntryView {
        EntryView { id: self.id, fields: fields_view(self.kv@) }
    }
}

/// Copies a list of fields.
fn copy_fields(kv: &Vec<Field>) -> (res: Vec<Field>)
    ensures
        fields_view(res@) == fields_view(kv@),
{
    let mut res: Vec<Field> = Vec::new();
    let mut i: usize = 0;
    while i < kv.len()
        invariant
            i <= kv.len(),
            res.len() == i,
            forall|j: int| 0 <= j < i ==> res@[j].0@ == kv@[j].0@ && res@[j].1@ == kv@[j].1@,
        decreases kv.len() - i,
    {
        res.push((kv[i].0.clone(), kv[i].1.clone()));
        i += 1;
    }
    assert(fields_view(res@) =~= fields_view(kv@));
    res
}

/// Sets the field `name` to `value` in a list without repeated names.
fn set_field(kv: &mut Vec<Field>, name: Vec<u8>, value: Vec<u8>)
    ensures
        fields_view(final(kv)@) == with_field(fields_view(old(kv)@), name@, value@),
{
    let ghost before = fields_view(kv@);
    let mut i: usize = 0;
    while i < kv.len()
        invariant
            i <= kv.len(),
            kv@ == old(kv)@,
            field_index(before.take(i as int), name@) is None,
            before == fields_view(kv@),
        decreases kv.len() - i,
    {
        proof {
            assert(before.take(i + 1).drop_last() =~= before.take(i as int));
            assert(before.take(i + 1).last() == before[i as int]);
        }
        if bytes_eq(kv[i].0.as_slice(), name.as_slice()) {
            proof {
                lemma_field_index_extends(before, i as int, name@);
            }
            kv.set(i, (name, value));
            assert(fields_view(kv@) =~= with_field(before, name@, value@));
            return;
        }
        i += 1;
    }
    assert(before.take(i as int) =~= before);
    kv.push((name, value));
    assert(fields_view(kv@) =~= with_field(before, name@, value@));
}

/// A name first found within a front part is found at the same place in
/// the whole.
proof fn lemma_field_index_extends(fields: Seq<(Seq<u8>, Seq<u8>)>, i: int, name: Seq<u8>)
    requires
        0 <= i < fields.len(),
        field_index(fields.take(i + 1), name) == Some(i),
    ensures
        field_index(fields, name) == Some(i),
    decreases fields.len() - i,
{
    if i + 1 < fields.len() {
        lemma_field_index_grows(fields, i + 1, i, name);
    } else {
        assert(fields.take(i + 1) =~= fields);
    }
}

/// What is found within a front part stays found in every longer one.
proof fn lemma_field_index_grows(fields: Seq<(Seq<u8>, Seq<u8>)>, k: int, i: int, name: Seq<u8>)
    requires
        0 <= k <= fields.len(),
        field_index(fields.take(k), name) == Some(i),
    ensures
        field_index(fields, name) == Some(i),
    decreases fields.len() - k,
{
    if k == fields.len() {
        assert(fields.take(k) =~= fields);
    } else {
        assert(fields.take(k + 1).drop_last() =~= fields.take(k));
        lemma_field_index_grows(fields, k + 1, i, name);
    }
}

impl StreamEntry {
    /// An entry with the given id and the mapping that `values` describes;
    /// no fields where there are none.
    pub fn new(id: StreamId, values: Option<Vec<Field>>) -> (entry: Self)
        ensures
            entry@.id == id,
            entry@.fields == match values {
                Some(kv) => collect_fields(fields_view(kv@)),
                None => Seq::empty(),
            },
            names_distinct(entry@.fields),
    {
        let mut kv: Vec<Field> = Vec::new();
        assert(fields_view(kv@) =~= Seq::empty());
        match values {
            Some(given) => {
                let ghost pairs = fields_view(given@);
                let mut i: usize = 0;
                assert(pairs.take(0) =~= Seq::empty());
                while i < given.len()
                    invariant
                        i <= given.len(),
                        pairs == fields_view(given@),
                        fields_view(kv@) == collect_fields(pairs.take(i as int)),
                    decreases given.len() - i,
                {
                    proof {
                        assert(pairs.take(i + 1).drop_last() =~= pairs.take(i as int));
                        assert(pairs.take(i + 1).last() == pairs[i as int]);
                    }
                    set_field(&mut kv, given[i].0.clone(), given[i].1.clone());
                    i += 1;
                }
                proof {
                    assert(pairs.take(i as int) =~= pairs);
                    lemma_collect_fields_distinct(pairs);
                }
            },
            None => {},
        }
        StreamEntry { id, kv }
    }

    /// The id of the entry.
    pub fn id(&self) -> (id: StreamId)
        ensures
            id == self@.id,
    {
        self.id
    }

    /// The id of the entry in its text form `ms-seq`.
    pub fn get_id(&self) -> (res: Vec<u8>)
        ensures
            res@ == id_text(self@.id),
    {
        self.id.to_bytes()
    }

    /// How many fields the entry has.
    pub fn field_count(&self) -> (n: usize)
        ensures
            n == self@.fields.len(),
    {
        self.kv.len()
    }

    /// The name and the value of the `i`-th field.
    pub fn field(&self, i: usize) -> (res: (&Vec<u8>, &Vec<u8>))
        requires
            i < self@.fields.len(),
        ensures
            res.0@ == self@.fields[i as int].0,
            res.1@ == self@.fields[i as int].1,
    {
        (&self.kv[i].0, &self.kv[i].1)
    }
}

impl Clone for StreamEntry {
    fn clone(&self) -> (res: Self)
        ensures
            res@ == self@,
    {
        StreamEntry { id: self.id, kv: copy_fields(&self.kv) }
    }
}

/// A reader that waits for an entry with an id behind `after`.
pub struct StreamWaiter {
    pub after: StreamId,
    pub sender: UnboundedSender<StreamEntry>,
}

/// The content of a stream: its entries in the order in which they were
/// appended, and its waiters, oldest first.
pub struct StreamView {
    pub entries: Seq<EntryView>,
    pub waiters: Seq<StreamWaiter>,
}

/// The contents of a run of entries.
pub open spec fn entries_view(entries: Seq<StreamEntry>) -> Seq<EntryView> {
    Seq::new(entries.len(), |i: int| entries[i]@)
}

/// Whether the ids grow strictly from each entry to the next, starting
/// above `0-0`.
pub open spec fn ids_increase(entries: Seq<EntryView>) -> bool {
    &&& forall|i: int, j: int| 0 <= i < j < entries.len() ==> id_less(entries[i].id, entries[j].id)
    &&& forall|i: int| 0 <= i < entries.len() ==> id_less(zero_id(), #[trigger] entries[i].id)
}

/// The id of the last entry, or `0-0` for a stream without entries.
pub open spec fn last_id(entries: Seq<EntryView>) -> StreamId {
    if entries.len() == 0 {
        zero_id()
    } else {
        entries.last().id
    }
}

/// The waiters that stay after an entry with id `id` was offered to each of
/// `waiters` in turn. A waiter is offered the entry when the id lies behind
/// its bound; `took[i]` says whether the mailbox of the `i`-th waiter took
/// what it was offered. A waiter leaves when it was offered the entry and
/// its mailbox did not take it.
pub open spec fn remaining_waiters(waiters: Seq<StreamWaiter>, id: StreamId, took: Seq<bool>) -> Seq<
    StreamWaiter,
>
    decreases waiters.len(),
{
    if waiters.len() == 0 {
        Seq::empty()
    } else {
        let front = remaining_waiters(waiters.drop_last(), id, took.drop_last());
        if !id_less(waiters.last().after, id) || took.last() {
            front.push(waiters.last())
        } else {
            front
        }
    }
}

/// Whether `after` is what is left of the waiters `before` once an entry
/// with id `id` was offered to them, whatever their mailboxes did.
pub open spec fn waiters_after_offer(
    before: Seq<StreamWaiter>,
    id: StreamId,
    after: Seq<StreamWaiter>,
) -> bool {
    exists|took: Seq<bool>| #![trigger remaining_waiters(before, id, took)]
        took.len() == before.len() && after == remaining_waiters(before, id, took)
}

/// The entries with an id from `lo` to `hi`, both included.
pub open spec fn entries_between(entries: Seq<EntryView>, lo: StreamId, hi: StreamId) -> Seq<
    EntryView,
>
    decreases entries.len(),
{
    if entries.len() == 0 {
        Seq::empty()
    } else {
        let front = entries_between(entries.drop_last(), lo, hi);
        if !id_less(entries.last().id, lo) && !id_less(hi, entries.last().id) {
            front.push(entries.last())
        } else {
            front
        }
    }
}

/// The entries with an id strictly behind `bound`.
pub open spec fn entries_after(entries: Seq<EntryView>, bound: StreamId) -> Seq<EntryView>
    decreases entries.len(),
{
    if entries.len() == 0 {
        Seq::empty()
    } else {
        let front = entries_after(entries.drop_last(), bound);
        if id_less(bound, entries.last().id) {
            front.push(entries.last())
        } else {
            front
        }
    }
}

/// A stream in the keyspace.
pub struct StreamRecord {
    entries: Vec<StreamEntry>,
    waiters: VecDeque<StreamWaiter>,
}

impl View for StreamRecord {
    type V = StreamView;

    closed spec fn view(&self) -> StreamView {
        StreamView { entries: entries_view(self.entries@), waiters: self.waiters@ }
    }
}

impl StreamRecord {
    #[verifier::type_invariant]
    spec fn well_ordered(self) -> bool {
        ids_increase(entries_view(self.entries@))
    }

    /// A stream without entries and without waiters.
    pub fn new() -> (record: Self)
        ensures
            record@.entries == Seq::<EntryView>::empty(),
            record@.waiters == Seq::<StreamWaiter>::empty(),
            ids_increase(record@.entries),
    {
        let record = StreamRecord { entries: Vec::new(), waiters: VecDeque::new() };
        assert(entries_view(record.entries@) =~= Seq::<EntryView>::empty());
        record
    }

    /// The ids of every stream grow strictly from entry to entry, and none
    /// is `0-0`.
    pub fn ids_grow(&self)
        ensures
            ids_increase(self@.entries),
    {
        proof {
            use_type_invariant(self);
        }
    }

    /// How many entries the stream holds.
    pub fn len(&self) -> (n: usize)
        ensures
            n == self@.entries.len(),
    {
        self.entries.len()
    }

    /// The `i`-th entry.
    pub fn entry(&self, i: usize) -> (entry: &StreamEntry)
        requires
            i < self@.entries.len(),
        ensures
            entry@ == self@.entries[i as int],
    {
        &self.entries[i]
    }

    /// The id of the last entry, or `0-0` where there is none.
    pub fn last_id(&self) -> (id: StreamId)
        ensures
            id == last_id(self@.entries),
    {
        if self.entries.len() == 0 {
            StreamId { ms: 0, seq: 0 }
        } else {
            self.entries[self.entries.len() - 1].id()
        }
    }

    /// The last entry, or an entry with id `0-0` and no fields where the
    /// stream is empty.
    pub fn peek_last(&self) -> (entry: StreamEntry)
        ensures
            entry@ == if self@.entries.len() == 0 {
                EntryView { id: zero_id(), fields: Seq::empty() }
            } else {
                self@.entries.last()
            },
    {
        if self.entries.len() == 0 {
            StreamEntry::new(StreamId { ms: 0, seq: 0 }, None)
        } else {
            self.entries[self.entries.len() - 1].clone()
        }
    }

    /// Appends an entry whose id lies behind the last one, and offers it to
    /// the waiters.
    ///
    /// An entry whose id does not lie strictly behind the last id of the
    /// stream (behind `0-0` in an empty stream) is refused, and nothing
    /// changes. Otherwise the entry is appended and sent to every waiter
    /// whose bound lies before its id; a waiter whose mailbox is closed is
    /// dropped, all others stay in their order.
    pub fn push(&mut self, entry: StreamEntry) -> (accepted: bool)
        ensures
            accepted == id_less(last_id(old(self)@.entries), entry@.id),
            accepted ==> final(self)@.entries == old(self)@.entries.push(entry@),
            accepted ==> waiters_after_offer(
                old(self)@.waiters,
                entry@.id,
                final(self)@.waiters,
            ),
            !accepted ==> final(self)@ == old(self)@,
            ids_increase(old(self)@.entries),
            ids_increase(final(self)@.entries),
    {
        proof {
            use_type_invariant(&*self);
        }
        let id = entry.id();
        let last = self.last_id();
        if !last.is_before(&id) {
            return false;
        }
        let ghost waiting = self.waiters@;
        let ghost took: Seq<bool> = Seq::empty();
        let mut queue: VecDeque<StreamWaiter> = VecDeque::new();
        core::mem::swap(&mut self.waiters, &mut queue);
        let mut kept: VecDeque<StreamWaiter> = VecDeque::new();
        let count: usize = queue.len();
        let mut i: usize = 0;
        assert(waiting.take(0) =~= Seq::<StreamWaiter>::empty());
        assert(waiting.skip(0) =~= waiting);
        while i < count
            invariant
                i <= count,
                count == waiting.len(),
                queue@ == waiting.skip(i as int),
                took.len() == i,
                kept@ == remaining_waiters(waiting.take(i as int), id, took),
                id == entry@.id,
            decreases count - i,
        {
            let waiter = queue.pop_front().unwrap();
            assert(waiter == waiting[i as int]);
            let offered: bool = waiter.after.is_before(&id);
            let delivered: bool = if offered {
                try_send(&waiter.sender, entry.clone())
            } else {
                false
            };
            proof {
                let earlier = took;
                took = took.push(delivered);
                assert(waiting.take(i + 1).drop_last() =~= waiting.take(i as int));
                assert(waiting.take(i + 1).last() == waiter);
                assert(took.drop_last() =~= earlier);
                assert(queue@ =~= waiting.skip(i + 1));
            }
            if !offered || delivered {
                kept.push_back(waiter);
            }
            i += 1;
        }
        proof {
            assert(waiting.take(i as int) =~= waiting);
            let before = entries_view(old(self).entries@);
            let after = entries_view(old(self).entries@.push(entry));
            assert(after =~= before.push(entry@));
            assert(ids_increase(after)) by {
                assert forall|a: int, b: int| 0 <= a < b < after.len() implies id_less(
                    after[a].id,
                    after[b].id,
                ) by {
                    if b == after.len() - 1 {
                        if a < before.len() - 1 {
                            assert(id_less(before[a].id, before[before.len() - 1].id));
                        }
                    } else {
                        assert(id_less(before[a].id, before[b].id));
                    }
                }
                assert forall|a: int| 0 <= a < after.len() implies id_less(
                    zero_id(),
                    #[trigger] after[a].id,
                ) by {
                    if a < before.len() {
                        assert(id_less(zero_id(), before[a].id));
                    }
                }
            }
        }
        let mut entries: Vec<StreamEntry> = Vec::new();
        core::mem::swap(&mut self.entries, &mut entries);
        entries.push(entry);
        core::mem::swap(&mut self.entries, &mut entries);
        core::mem::swap(&mut self.waiters, &mut kept);
        assert(took.len() == waiting.len() && self.waiters@ == remaining_waiters(waiting, id, took));
        true
    }

    /// Copies of the entries with an id from `lo` to `hi`, both included,
    /// in the order of the stream.
    pub fn range(&self, lo: StreamId, hi: StreamId) -> (found: Vec<StreamEntry>)
        ensures
            entries_view(found@) == entries_between(self@.entries, lo, hi),
    {
        let ghost all = self@.entries;
        let mut found: Vec<StreamEntry> = Vec::new();
        let mut i: usize = 0;
        assert(all.take(0) =~= Seq::<EntryView>::empty());
        assert(entries_view(found@) =~= Seq::<EntryView>::empty());
        while i < self.entries.len()
            invariant
                i <= self.entries.len(),
                all == self@.entries,
                entries_view(found@) == entries_between(all.take(i as int), lo, hi),
            decreases self.entries.len() - i,
        {
            let ghost before = entries_view(found@);
            let id = self.entries[i].id();
            proof {
                assert(all.take(i + 1).drop_last() =~= all.take(i as int));
                assert(all.take(i + 1).last() == self.entries@[i as int]@);
            }
            if !id.is_before(&lo) && !hi.is_before(&id) {
                found.push(self.entries[i].clone());
                assert(entries_view(found@) =~= before.push(self.entries@[i as int]@));
            }
            i += 1;
        }
        assert(all.take(i as int) =~= all);
        found
    }

    /// Copies of the entries with an id strictly behind `bound`, in the
    /// order of the stream.
    pub fn after(&self, bound: StreamId) -> (found: Vec<StreamEntry>)
        ensures
            entries_view(found@) == entries_after(self@.entries, bound),
    {
        let ghost all = self@.entries;
        let mut found: Vec<StreamEntry> = Vec::new();
        let mut i: usize = 0;
        assert(all.take(0) =~= Seq::<EntryView>::empty());
        assert(entries_view(found@) =~= Seq::<EntryView>::empty());
        while i < self.entries.len()
            invariant
                i <= self.entries.len(),
                all == self@.entries,
                entries_view(found@) == entries_after(all.take(i as int), bound),
            decreases self.entries.len() - i,
        {
            let ghost before = entries_view(found@);
            let id = self.entries[i].id();
            proof {
                assert(all.take(i + 1).drop_last() =~= all.take(i as int));
                assert(all.take(i + 1).last() == self.entries@[i as int]@);
            }
            if bound.is_before(&id) {
                found.push(self.entries[i].clone());
                assert(entries_view(found@) =~= before.push(self.entries@[i as int]@));
            }
            i += 1;
        }
        assert(all.take(i as int) =~= all);
        found
    }

    /// Adds a waiter for entries with an id behind `after` at the end of
    /// the queue.
    pub fn subscribe_waiter(&mut self, after: StreamId, waiter: UnboundedSender<StreamEntry>)
        ensures
            final(self)@.entries == old(self)@.entries,
            final(self)@.waiters == old(self)@.waiters.push(
                StreamWaiter { after, sender: waiter },
            ),
    {
        proof {
            use_type_invariant(&*self);
        }
        let mut queue: VecDeque<StreamWaiter> = VecDeque::new();
        core::mem::swap(&mut self.waiters, &mut queue);
        queue.push_back(StreamWaiter { after, sender: waiter });
        core::mem::swap(&mut self.waiters, &mut queue);
    }

    /// How many waiters are queued.
    pub fn waiter_count(&self) -> (n: usize)
        ensures
            n == self@.waiters.len(),
    {
        self.waiters.len()
    }
}

} // verus!
