//! What holds of the commands taken together.

use vstd::prelude::*;
use crate::client_handler::{needs_exclusive, run_spec, OutcomeView, World};
use crate::commands::{expiry_of, get_reply, ok, set_result, Keyspace};
use crate::db::RecordView;
use crate::list::{handed_or_stored, ListView};
use crate::list_commands::{
    blpop_spec, list_at, popped_value, timeout_of, waited_value, BlpopView,
};
use crate::stream::{id_less, ids_increase, last_id, zero_id, EntryView};
use crate::values::Value;

verus! {

/// Stream ids only grow: an entry whose id lies behind the last id of a
/// stream with growing ids, appended to it, leaves the ids growing, and the
/// new id is the last one. This is the only way in which a stream gains an
/// entry.
pub proof fn appending_keeps_ids_growing(entries: Seq<EntryView>, entry: EntryView)
    requires
        ids_increase(entries),
        id_less(last_id(entries), entry.id),
    ensures
        ids_increase(entries.push(entry)),
        last_id(entries.push(entry)) == entry.id,
        entry.id != zero_id(),
{
    let grown = entries.push(entry);
    assert forall|i: int, j: int| 0 <= i < j < grown.len() implies id_less(
        grown[i].id,
        grown[j].id,
    ) by {
        if j == grown.len() - 1 {
            if i < entries.len() - 1 {
                assert(id_less(entries[i].id, entries[entries.len() - 1].id));
            }
        } else {
            assert(id_less(entries[i].id, entries[j].id));
        }
    }
    assert forall|i: int| 0 <= i < grown.len() implies id_less(
        zero_id(),
        #[trigger] grown[i].id,
    ) by {
        if i < entries.len() {
            assert(id_less(zero_id(), entries[i].id));
        }
    }
}

/// A command that does not need the keyspace and the registry for itself
/// changes neither, nor the mode of its connection, and answers at once.
pub proof fn reading_changes_nothing(
    id: u32,
    name: Seq<u8>,
    args: Seq<Seq<u8>>,
    now: u64,
    may_block: bool,
    before: World,
    after: World,
    outcome: OutcomeView,
)
    requires
        !needs_exclusive(name, args),
        run_spec(id, name, args, now, may_block, before, after, outcome),
    ensures
        after == before,
        outcome is Reply,
{
    reveal(run_spec);
}

/// A push or a pop on a list.
pub enum ListOp {
    PushFront(Seq<u8>),
    PushBack(Seq<u8>),
    PopFront,
}

/// What one operation may do to a list: the contract of `push_front`, of
/// `push_back` and of `pop_front`, with what the pop gave.
pub open spec fn list_step(
    before: ListView,
    op: ListOp,
    after: ListView,
    popped: Option<Seq<u8>>,
) -> bool {
    match op {
        ListOp::PushFront(value) => popped is None && handed_or_stored(
            before,
            after,
            seq![value] + before.items,
        ),
        ListOp::PushBack(value) => popped is None && handed_or_stored(
            before,
            after,
            before.items.push(value),
        ),
        ListOp::PopFront => after.waiters == before.waiters && match popped {
            Some(value) => before.items.len() > 0 && value == before.items[0] && after.items
                == before.items.skip(1),
            None => before.items.len() == 0 && after.items == before.items,
        },
    }
}

/// The elements of a list without waiters after one operation.
pub open spec fn items_after(items: Seq<Seq<u8>>, op: ListOp) -> Seq<Seq<u8>> {
    match op {
        ListOp::PushFront(value) => seq![value] + items,
        ListOp::PushBack(value) => items.push(value),
        ListOp::PopFront => if items.len() > 0 {
            items.skip(1)
        } else {
            items
        },
    }
}

/// The values that the operations pushed, in the order of the operations.
pub open spec fn pushed_values(ops: Seq<ListOp>) -> Seq<Seq<u8>>
    decreases ops.len(),
{
    if ops.len() == 0 {
        Seq::empty()
    } else {
        match ops.last() {
            ListOp::PushFront(value) => pushed_values(ops.drop_last()).push(value),
            ListOp::PushBack(value) => pushed_values(ops.drop_last()).push(value),
            ListOp::PopFront => pushed_values(ops.drop_last()),
        }
    }
}

/// The values that the pops gave, in their order.
pub open spec fn popped_values(results: Seq<Option<Seq<u8>>>) -> Seq<Seq<u8>>
    decreases results.len(),
{
    if results.len() == 0 {
        Seq::empty()
    } else {
        match results.last() {
            Some(value) => popped_values(results.drop_last()).push(value),
            None => popped_values(results.drop_last()),
        }
    }
}

/// Whether the operations `ops` lead through the lists `states` and give
/// the results `results`.
pub open spec fn leads_through(
    ops: Seq<ListOp>,
    states: Seq<ListView>,
    results: Seq<Option<Seq<u8>>>,
) -> bool {
    &&& states.len() == ops.len() + 1
    &&& results.len() == ops.len()
    &&& forall|i: int|
        #![trigger ops[i]]
        0 <= i < ops.len() ==> list_step(states[i], ops[i], states[i + 1], results[i])
}

/// On a list without waiters, one operation stores what it pushes at the
/// end it names, takes what it pops from the front, and leaves the list
/// without waiters.
pub proof fn step_without_waiters(
    before: ListView,
    op: ListOp,
    after: ListView,
    popped: Option<Seq<u8>>,
)
    requires
        before.waiters.len() == 0,
        list_step(before, op, after, popped),
    ensures
        after.waiters.len() == 0,
        after.items == items_after(before.items, op),
        popped is Some <==> op is PopFront && before.items.len() > 0,
        popped is Some ==> popped->Some_0 == before.items[0],
{
    match op {
        ListOp::PushFront(value) => {
            let k = choose|k: int|
                #![trigger before.waiters.skip(k)]
                {
                    &&& 0 <= k <= before.waiters.len()
                    &&& after.waiters == before.waiters.skip(k)
                    &&& ((k >= 1 && after.items == before.items) || (k == before.waiters.len()
                        && after.items == seq![value] + before.items))
                };
            assert(before.waiters.skip(0) =~= before.waiters);
        },
        ListOp::PushBack(value) => {
            let k = choose|k: int|
                #![trigger before.waiters.skip(k)]
                {
                    &&& 0 <= k <= before.waiters.len()
                    &&& after.waiters == before.waiters.skip(k)
                    &&& ((k >= 1 && after.items == before.items) || (k == before.waiters.len()
                        && after.items == before.items.push(value)))
                };
            assert(before.waiters.skip(0) =~= before.waiters);
        },
        ListOp::PopFront => {},
    }
}

/// No data is lost on push and pop: after any sequence of pushes and
/// pops on a list on which nobody waits, the values popped together with
/// the values still in the list are, as multisets, the values that were in
/// the list at first together with the values pushed. In particular, where
/// the list began empty and ends empty, what was popped is what was pushed.
pub proof fn pushes_and_pops_lose_nothing(
    ops: Seq<ListOp>,
    states: Seq<ListView>,
    results: Seq<Option<Seq<u8>>>,
)
    requires
        leads_through(ops, states, results),
        states[0].waiters.len() == 0,
    ensures
        states.last().waiters.len() == 0,
        popped_values(results).to_multiset().add(states.last().items.to_multiset())
            == states[0].items.to_multiset().add(pushed_values(ops).to_multiset()),
        states[0].items.len() == 0 && states.last().items.len() == 0 ==> popped_values(
            results,
        ).to_multiset() == pushed_values(ops).to_multiset(),
    decreases ops.len(),
{
    broadcast use vstd::seq_lib::group_to_multiset_ensures;

    let first = states[0].items;
    if ops.len() == 0 {
        assert(popped_values(results).to_multiset() =~= vstd::multiset::Multiset::empty());
        assert(pushed_values(ops).to_multiset() =~= vstd::multiset::Multiset::empty());
        assert(popped_values(results).to_multiset().add(first.to_multiset())
            =~= first.to_multiset().add(pushed_values(ops).to_multiset()));
    } else {
        let n = ops.len() as int;
        let ops_before = ops.drop_last();
        let states_before = states.drop_last();
        let results_before = results.drop_last();
        assert(leads_through(ops_before, states_before, results_before)) by {
            assert forall|i: int| #![trigger ops_before[i]] 0 <= i < ops_before.len() implies list_step(
                states_before[i],
                ops_before[i],
                states_before[i + 1],
                results_before[i],
            ) by {
                assert(ops[i] == ops_before[i]);
            }
        }
        pushes_and_pops_lose_nothing(ops_before, states_before, results_before);
        let mid = states[n - 1];
        let last = states[n];
        assert(states_before.last() == mid);
        assert(ops[n - 1] == ops.last());
        assert(list_step(mid, ops.last(), last, results.last()));
        step_without_waiters(mid, ops.last(), last, results.last());
        let popped_before = popped_values(results_before).to_multiset();
        let pushed_before = pushed_values(ops_before).to_multiset();
        match ops.last() {
            ListOp::PushFront(value) => {
                assert((seq![value] + mid.items).to_multiset() =~= mid.items.to_multiset().insert(
                    value,
                )) by {
                    let joined = seq![value] + mid.items;
                    assert(joined.remove(0) =~= mid.items);
                    assert(joined[0] == value);
                    assert(joined.to_multiset().remove(value) =~= mid.items.to_multiset());
                    assert(joined.to_multiset().count(value) > 0) by {
                        assert(joined.contains(value));
                    }
                }
                assert(popped_values(results) == popped_values(results_before));
                assert(pushed_values(ops) == pushed_values(ops_before).push(value));
                assert(pushed_values(ops).to_multiset() =~= pushed_before.insert(value));
                assert(last.items.to_multiset() =~= mid.items.to_multiset().insert(value));
                assert forall|x: Seq<u8>|
                    popped_values(results).to_multiset().add(last.items.to_multiset()).count(x)
                        == first.to_multiset().add(pushed_values(ops).to_multiset()).count(
                        x,
                    ) by {
                    assert(popped_before.add(mid.items.to_multiset()).count(x)
                        == first.to_multiset().add(pushed_before).count(x));
                }
                assert(popped_values(results).to_multiset().add(last.items.to_multiset())
                    =~= first.to_multiset().add(pushed_values(ops).to_multiset()));
            },
            ListOp::PushBack(value) => {
                assert(popped_values(results) == popped_values(results_before));
                assert(pushed_values(ops) == pushed_values(ops_before).push(value));
                assert(pushed_values(ops).to_multiset() =~= pushed_before.insert(value));
                assert(last.items.to_multiset() =~= mid.items.to_multiset().insert(value));
                assert forall|x: Seq<u8>|
                    popped_values(results).to_multiset().add(last.items.to_multiset()).count(x)
                        == first.to_multiset().add(pushed_values(ops).to_multiset()).count(
                        x,
                    ) by {
                    assert(popped_before.add(mid.items.to_multiset()).count(x)
                        == first.to_multiset().add(pushed_before).count(x));
                }
                assert(popped_values(results).to_multiset().add(last.items.to_multiset())
                    =~= first.to_multiset().add(pushed_values(ops).to_multiset()));
            },
            ListOp::PopFront => {
                if mid.items.len() > 0 {
                    assert(mid.items.skip(1) =~= mid.items.remove(0));
                    assert(mid.items.to_multiset().count(mid.items[0]) > 0) by {
                        assert(mid.items.contains(mid.items[0]));
                    }
                }
                assert(popped_values(results).to_multiset().add(last.items.to_multiset())
                    =~= first.to_multiset().add(pushed_values(ops).to_multiset()));
            },
        }
    }
    if first.len() == 0 && states.last().items.len() == 0 {
        assert(first.to_multiset() =~= vstd::multiset::Multiset::empty());
        assert(states.last().items.to_multiset() =~= vstd::multiset::Multiset::empty());
        assert forall|x: Seq<u8>|
            popped_values(results).to_multiset().count(x) == pushed_values(
                ops,
            ).to_multiset().count(x) by {
            assert(popped_values(results).to_multiset().add(
                states.last().items.to_multiset(),
            ).count(x) == first.to_multiset().add(pushed_values(ops).to_multiset()).count(x));
        }
        assert(popped_values(results).to_multiset() =~= pushed_values(ops).to_multiset());
    }
}

/// A `BLPOP` delivers at most once: where it answers at once, the answer
/// is nil or holds exactly the one element that left the front of the list;
/// where it waits, the list stays empty and the answer after the wait is
/// nil or holds exactly the one value that arrived.
pub proof fn blpop_delivers_at_most_once(
    args: Seq<Seq<u8>>,
    now: u64,
    may_block: bool,
    before: Keyspace,
    after: Keyspace,
    outcome: BlpopView,
    arrived: Option<Seq<u8>>,
)
    requires
        args.len() == 3,
        timeout_of(args[2]) is Some,
        list_at(before, args[1], now) is Some,
        blpop_spec(args, now, may_block, before, after, outcome),
    ensures
        match outcome {
            BlpopView::Reply(reply) => {
                let list = list_at(before, args[1], now)->Some_0;
                if list.items.len() > 0 {
                    &&& reply == popped_value(args[1], list.items[0])
                    &&& list_at(after, args[1], now) matches Some(left)
                    &&& list.items == seq![list.items[0]] + left.items
                } else {
                    reply == Value::NilArray && after == before
                }
            },
            BlpopView::Wait { timeout } => {
                &&& list_at(after, args[1], now) matches Some(left)
                &&& left.items.len() == 0
                &&& waited_value(args[1], arrived) == match arrived {
                    Some(value) => popped_value(args[1], value),
                    None => Value::NilArray,
                }
            },
        },
{
    let list = list_at(before, args[1], now)->Some_0;
    if list.items.len() > 0 {
        let left = ListView { items: list.items.skip(1), waiters: list.waiters };
        assert(after[args[1]] == RecordView::List(left));
        assert(list.items =~= seq![list.items[0]] + left.items);
    }
}

/// `GET` after `SET` gives the value that the most recent `SET` of the key
/// stored, unless that value has expired: where the record under the key
/// is still the one that the `SET` put there, a `GET` at a time before the
/// record's limit answers the value as a bulk string, and one at or behind
/// the limit answers nil.
pub proof fn get_after_set(
    set_args: Seq<Seq<u8>>,
    set_at: u64,
    before: Keyspace,
    get_args: Seq<Seq<u8>>,
    get_at: u64,
    later: Keyspace,
)
    requires
        set_args.len() >= 3,
        set_result(set_args, set_at, before).1 == ok(),
        get_args.len() == 2,
        get_args[1] == set_args[1],
        later.contains_key(set_args[1]),
        later[set_args[1]] == set_result(set_args, set_at, before).0[set_args[1]],
    ensures
        expiry_of(set_args, set_at) is Some,
        get_reply(get_args, get_at, later) == match expiry_of(set_args, set_at)->Some_0 {
            Some(limit) => if get_at < limit {
                Value::BulkString(set_args[2])
            } else {
                Value::NilBulk
            },
            None => Value::BulkString(set_args[2]),
        },
{
}

} // verus!
