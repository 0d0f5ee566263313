//! What holds of the step for every graph.

use vstd::prelude::*;
use vstd::seq_lib::to_multiset_build;

use crate::execution::model::{
    arguments, commit, input_bindings, insert_by_slot, mirrored, read_input, resolve,
    resolved_inputs, sort_by_slot, store_value, successors, successors_of, target_for, Binding,
    Resolved,
};
use crate::execution::step::ExecutionStepError;
use crate::graph::{incoming_of, outgoing_of, with_weight, GraphModel, GraphNode, Link};
use crate::value::Value;

verus! {

/// Whether the slots never fall from one item to the next.
pub open spec fn ascending(items: Seq<Resolved>) -> bool {
    forall|i: int, j: int| 0 <= i < j < items.len() ==> items[i].slot <= items[j].slot
}

/// Whether the slots rise from each item to the next.
pub open spec fn strictly_ascending(items: Seq<Resolved>) -> bool {
    forall|i: int, j: int| 0 <= i < j < items.len() ==> items[i].slot < items[j].slot
}

/// Whether no two items have the same slot.
pub open spec fn distinct_slots(items: Seq<Resolved>) -> bool {
    forall|i: int, j: int| 0 <= i < j < items.len() ==> items[i].slot != items[j].slot
}

/// Whether none of the links is a data-flow edge.
pub open spec fn no_data_flow(links: Seq<Link>) -> bool {
    forall|i: int| 0 <= i < links.len() ==> !((#[trigger] links[i]).edge is DataFlow)
}

/// Whether none of the links is an execution-flow edge.
pub open spec fn no_execution_flow(links: Seq<Link>) -> bool {
    forall|i: int| 0 <= i < links.len() ==> !((#[trigger] links[i]).edge is ExecutionFlow)
}

/// Inserting into an ascending sequence puts the item at a position `k`
/// with no greater slot before it and only greater slots behind it.
proof fn lemma_insert_between(sorted: Seq<Resolved>, item: Resolved) -> (k: int)
    requires
        ascending(sorted),
    ensures
        0 <= k <= sorted.len(),
        insert_by_slot(sorted, item) == sorted.insert(k, item),
        forall|j: int| 0 <= j < k ==> sorted[j].slot <= item.slot,
        forall|j: int| k <= j < sorted.len() ==> sorted[j].slot > item.slot,
    decreases sorted.len(),
{
    if sorted.len() == 0 || sorted.last().slot <= item.slot {
        assert(sorted.insert(sorted.len() as int, item) =~= sorted.push(item));
        assert forall|j: int| 0 <= j < sorted.len() implies sorted[j].slot <= item.slot by {
            assert(sorted[j].slot <= sorted[sorted.len() - 1].slot);
        }
        sorted.len() as int
    } else {
        let rest = sorted.drop_last();
        let k = lemma_insert_between(rest, item);
        assert(sorted.insert(k, item) =~= rest.insert(k, item).push(sorted.last()));
        assert forall|j: int| 0 <= j < k implies sorted[j].slot <= item.slot by {
            assert(rest[j] == sorted[j]);
        }
        assert forall|j: int| k <= j < sorted.len() implies sorted[j].slot > item.slot by {
            if j < rest.len() {
                assert(rest[j] == sorted[j]);
            }
        }
        k
    }
}

/// Sorting by slot rearranges the items, and nothing more: the result has
/// ascending slots and holds each item as often as the input does.
pub proof fn lemma_sort_by_slot_rearranges(items: Seq<Resolved>)
    ensures
        ascending(sort_by_slot(items)),
        sort_by_slot(items).len() == items.len(),
        sort_by_slot(items).to_multiset() == items.to_multiset(),
    decreases items.len(),
{
    if items.len() == 0 {
        assert(sort_by_slot(items) =~= items);
    } else {
        let rest = items.drop_last();
        let sorted = sort_by_slot(rest);
        lemma_sort_by_slot_rearranges(rest);
        let k = lemma_insert_between(sorted, items.last());
        lemma_insert_holds_the_same(sorted, items.last());
        to_multiset_build(rest, items.last());
        assert(rest.push(items.last()) =~= items);
    }
}

proof fn lemma_insert_holds_the_same(sorted: Seq<Resolved>, item: Resolved)
    ensures
        insert_by_slot(sorted, item).to_multiset() == sorted.to_multiset().insert(item),
    decreases sorted.len(),
{
    if sorted.len() == 0 || sorted.last().slot <= item.slot {
        to_multiset_build(sorted, item);
    } else {
        let rest = sorted.drop_last();
        lemma_insert_holds_the_same(rest, item);
        to_multiset_build(insert_by_slot(rest, item), sorted.last());
        to_multiset_build(rest, sorted.last());
        assert(rest.push(sorted.last()) =~= sorted);
        assert(rest.to_multiset().insert(item).insert(sorted.last()) =~= rest.to_multiset().insert(
            sorted.last(),
        ).insert(item));
    }
}

/// The items that have the slot `slot`, in their order.
pub open spec fn with_slot(items: Seq<Resolved>, slot: usize) -> Seq<Resolved> {
    items.filter(|r: Resolved| r.slot == slot)
}

proof fn lemma_with_slot_push(items: Seq<Resolved>, item: Resolved, slot: usize)
    ensures
        with_slot(items.push(item), slot) == if item.slot == slot {
            with_slot(items, slot).push(item)
        } else {
            with_slot(items, slot)
        },
{
    items.lemma_filter_push(item, |r: Resolved| r.slot == slot);
}

proof fn lemma_insert_is_stable(sorted: Seq<Resolved>, item: Resolved, slot: usize)
    ensures
        with_slot(insert_by_slot(sorted, item), slot) == if item.slot == slot {
            with_slot(sorted, slot).push(item)
        } else {
            with_slot(sorted, slot)
        },
    decreases sorted.len(),
{
    if sorted.len() == 0 || sorted.last().slot <= item.slot {
        lemma_with_slot_push(sorted, item, slot);
    } else {
        let rest = sorted.drop_last();
        lemma_insert_is_stable(rest, item, slot);
        lemma_with_slot_push(insert_by_slot(rest, item), sorted.last(), slot);
        lemma_with_slot_push(rest, sorted.last(), slot);
        assert(rest.push(sorted.last()) =~= sorted);
    }
}

/// Sorting by slot is stable: the items of one slot stand in the result
/// in the order in which they stand in the input.
pub proof fn lemma_sort_by_slot_is_stable(items: Seq<Resolved>, slot: usize)
    ensures
        with_slot(sort_by_slot(items), slot) == with_slot(items, slot),
    decreases items.len(),
{
    if items.len() == 0 {
        assert(sort_by_slot(items) =~= items);
    } else {
        let rest = items.drop_last();
        lemma_sort_by_slot_is_stable(rest, slot);
        lemma_insert_is_stable(sort_by_slot(rest), items.last(), slot);
        lemma_with_slot_push(rest, items.last(), slot);
        assert(rest.push(items.last()) =~= items);
    }
}

/// Sorting items of distinct slots: the slots rise strictly, and each item
/// of the input stands somewhere in the result.
proof fn lemma_sort_distinct(items: Seq<Resolved>)
    requires
        distinct_slots(items),
    ensures
        strictly_ascending(sort_by_slot(items)),
        sort_by_slot(items).len() == items.len(),
        forall|k: int| 0 <= k < items.len() ==> sort_by_slot(items).contains(#[trigger] items[k]),
        forall|i: int| 0 <= i < items.len() ==> items.contains(#[trigger] sort_by_slot(items)[i]),
    decreases items.len(),
{
    if items.len() > 0 {
        let rest = items.drop_last();
        let sorted = sort_by_slot(rest);
        let last = items.last();
        lemma_sort_distinct(rest);
        let k = lemma_insert_between(sorted, last);
        let result = sort_by_slot(items);
        assert(result == sorted.insert(k, last));
        assert forall|j: int| 0 <= j < sorted.len() implies (#[trigger] sorted[j]).slot != last.slot by {
            assert(rest.contains(sorted[j]));
            let q = choose|q: int| 0 <= q < rest.len() && rest[q] == sorted[j];
            assert(items[q] == rest[q]);
        }
        assert forall|i: int, j: int| 0 <= i < j < result.len() implies result[i].slot < result[j].slot by {
            if i < k && j > k {
                assert(sorted[i].slot < sorted[j - 1].slot || i == j - 1);
            }
        }
        assert forall|q: int| 0 <= q < items.len() implies result.contains(#[trigger] items[q]) by {
            if q == items.len() - 1 {
                assert(result[k] == items[q]);
            } else {
                assert(sorted.contains(rest[q]));
                let i = choose|i: int| 0 <= i < sorted.len() && sorted[i] == rest[q];
                if i < k {
                    assert(result[i] == items[q]);
                } else {
                    assert(result[i + 1] == items[q]);
                }
            }
        }
        assert forall|i: int| 0 <= i < items.len() implies items.contains(#[trigger] result[i]) by {
            if i == k {
                assert(items[items.len() - 1] == result[i]);
            } else {
                let j = if i < k { i } else { i - 1 };
                assert(rest.contains(sorted[j]));
                let q = choose|q: int| 0 <= q < rest.len() && rest[q] == sorted[j];
                assert(items[q] == result[i]);
            }
        }
    }
}

proof fn lemma_rising_from_below(items: Seq<Resolved>, i: int)
    requires
        strictly_ascending(items),
        0 <= i < items.len(),
    ensures
        items[i].slot >= i,
    decreases i,
{
    if i > 0 {
        lemma_rising_from_below(items, i - 1);
    }
}

proof fn lemma_rising_from_above(items: Seq<Resolved>, i: int)
    requires
        strictly_ascending(items),
        0 <= i < items.len(),
        forall|k: int| 0 <= k < items.len() ==> items[k].slot < items.len(),
    ensures
        items[i].slot <= i,
    decreases items.len() - i,
{
    if i < items.len() - 1 {
        lemma_rising_from_above(items, i + 1);
    }
}

/// Arguments go by slot, not by the order of reading: where the values
/// read have the slots 0, 1, ..., n-1, each once and in any order, the
/// argument at position `i` is the value read for slot `i`.
pub proof fn lemma_arguments_in_slot_order(items: Seq<Resolved>)
    requires
        distinct_slots(items),
        forall|k: int| 0 <= k < items.len() ==> items[k].slot < items.len(),
    ensures
        arguments(items).len() == items.len(),
        forall|k: int| 0 <= k < items.len() ==> arguments(items)[(#[trigger] items[k]).slot as int] == items[k].value,
{
    let sorted = sort_by_slot(items);
    lemma_sort_distinct(items);
    assert forall|i: int| 0 <= i < sorted.len() implies (#[trigger] sorted[i]).slot == i by {
        assert forall|k: int| 0 <= k < sorted.len() implies sorted[k].slot < sorted.len() by {
            assert(items.contains(sorted[k]));
        }
        lemma_rising_from_below(sorted, i);
        lemma_rising_from_above(sorted, i);
    }
    assert forall|k: int| 0 <= k < items.len() implies arguments(items)[(#[trigger] items[k]).slot as int]
        == items[k].value by {
        assert(sorted.contains(items[k]));
        let i = choose|i: int| 0 <= i < sorted.len() && sorted[i] == items[k];
        assert(sorted[i].slot == i);
    }
}

/// Edges of other kinds mirror nothing.
pub proof fn lemma_nothing_mirrored(m: GraphModel, links: Seq<Link>)
    requires
        no_data_flow(links),
    ensures
        mirrored(m, links) == Ok::<Option<Value>, ExecutionStepError>(None),
    decreases links.len(),
{
    if links.len() > 0 {
        lemma_nothing_mirrored(m, links.drop_last());
        assert(links.last() == links[links.len() - 1]);
    }
}

/// Reading a store that mirrors no other store changes nothing: the graph
/// stays as it is, so the same read gives the same value again.
pub proof fn lemma_read_without_mirror(m: GraphModel, s: nat)
    requires
        no_data_flow(incoming_of(m, s)),
    ensures
        read_input(m, s) == (m, store_value(m, s)),
{
    lemma_nothing_mirrored(m, incoming_of(m, s));
}

/// Resolving inputs of which none mirrors another store leaves the graph
/// as it is.
pub proof fn lemma_resolve_without_mirrors(m: GraphModel, bindings: Seq<Binding>)
    requires
        forall|k: int| 0 <= k < bindings.len() ==> no_data_flow(incoming_of(m, (#[trigger] bindings[k]).store)),
    ensures
        resolve(m, bindings).0 == m,
    decreases bindings.len(),
{
    if bindings.len() > 0 {
        lemma_resolve_without_mirrors(m, bindings.drop_last());
        assert(bindings.last() == bindings[bindings.len() - 1]);
        lemma_read_without_mirror(m, bindings.last().store);
    }
}

/// Whether a resolution of `bindings` leaves the node at `q` alone:
/// `q` is not among the bound stores, or it mirrors no other store.
pub open spec fn steady(m: GraphModel, bindings: Seq<Binding>, q: nat) -> bool {
    forall|k: int|
        0 <= k < bindings.len() && (#[trigger] bindings[k]).store == q ==> no_data_flow(incoming_of(m, q))
}

/// Input resolution changes no edge and adds no node, and it leaves every
/// node as it is but the bound stores that mirror another store.
pub proof fn lemma_resolve_touches_bound_stores(m: GraphModel, bindings: Seq<Binding>)
    ensures
        resolve(m, bindings).0.len() == m.len(),
        forall|q: nat| #[trigger] incoming_of(resolve(m, bindings).0, q) == incoming_of(m, q),
        forall|q: nat| #[trigger] outgoing_of(resolve(m, bindings).0, q) == outgoing_of(m, q),
        forall|q: int|
            0 <= q < m.len() && steady(m, bindings, q as nat) ==> #[trigger] resolve(m, bindings).0[q] == m[q],
    decreases bindings.len(),
{
    if bindings.len() > 0 {
        let rest = bindings.drop_last();
        let before = resolve(m, rest).0;
        let after = resolve(m, bindings).0;
        lemma_resolve_touches_bound_stores(m, rest);
        assert(bindings.last() == bindings[bindings.len() - 1]);
        assert forall|q: nat| #[trigger] incoming_of(after, q) == incoming_of(m, q) by {
            assert(incoming_of(before, q) == incoming_of(m, q));
        }
        assert forall|q: nat| #[trigger] outgoing_of(after, q) == outgoing_of(m, q) by {
            assert(outgoing_of(before, q) == outgoing_of(m, q));
        }
        assert forall|q: int| 0 <= q < m.len() && steady(m, bindings, q as nat) implies #[trigger] after[q]
            == m[q] by {
            lemma_steady_before(m, bindings, rest.len() as int, q as nat);
            assert(before[q] == m[q]);
            if bindings.last().store == q {
                assert(incoming_of(before, q as nat) == incoming_of(m, q as nat));
                lemma_read_without_mirror(before, q as nat);
            }
        }
    }
}

/// What a resolution leaves alone, each part of it leaves alone.
proof fn lemma_steady_before(m: GraphModel, bindings: Seq<Binding>, n: int, q: nat)
    requires
        0 <= n <= bindings.len(),
        steady(m, bindings, q),
    ensures
        steady(m, bindings.take(n), q),
{
    assert forall|k: int| 0 <= k < bindings.take(n).len() && (#[trigger] bindings.take(n)[k]).store == q implies no_data_flow(
        incoming_of(m, q),
    ) by {
        assert(bindings[k] == bindings.take(n)[k]);
    }
}

/// Input resolution turns no store into something else.
pub proof fn lemma_resolve_keeps_stores(m: GraphModel, bindings: Seq<Binding>, q: nat)
    requires
        store_value(m, q) is Ok,
    ensures
        store_value(resolve(m, bindings).0, q) is Ok,
    decreases bindings.len(),
{
    if bindings.len() > 0 {
        lemma_resolve_keeps_stores(m, bindings.drop_last(), q);
    }
}

/// A resolution that succeeds has read every bound store, and up to each
/// binding it is the resolution of the bindings before it.
pub proof fn lemma_resolve_in_parts(m: GraphModel, bindings: Seq<Binding>, n: int)
    requires
        0 <= n <= bindings.len(),
        resolve(m, bindings).1 is Ok,
    ensures
        resolve(m, bindings).1->Ok_0.len() == bindings.len(),
        resolve(m, bindings.take(n)).1 == Ok::<Seq<Resolved>, ExecutionStepError>(
            resolve(m, bindings).1->Ok_0.take(n),
        ),
    decreases bindings.len(),
{
    if bindings.len() == 0 {
        assert(bindings.take(n) =~= bindings);
        assert(resolve(m, bindings).1->Ok_0.take(n) =~= resolve(m, bindings).1->Ok_0);
    } else {
        let rest = bindings.drop_last();
        lemma_resolve_in_parts(m, rest, rest.len() as int);
        if n == bindings.len() {
            assert(bindings.take(n) =~= bindings);
            assert(resolve(m, bindings).1->Ok_0.take(n) =~= resolve(m, bindings).1->Ok_0);
        } else {
            lemma_resolve_in_parts(m, rest, n);
            assert(rest.take(n) =~= bindings.take(n));
            assert(resolve(m, rest).1->Ok_0.take(n) =~= resolve(m, bindings).1->Ok_0.take(n));
        }
    }
}

/// The values that stand in the stores that `bindings` binds, each with
/// the slot it is bound to.
pub open spec fn stored(m: GraphModel, bindings: Seq<Binding>) -> Seq<Resolved> {
    Seq::new(
        bindings.len(),
        |k: int| Resolved { slot: bindings[k].slot, value: store_value(m, bindings[k].store)->Ok_0 },
    )
}

/// Whether every store that `bindings` binds is a store indeed, and
/// mirrors no other store.
pub open spec fn plain_stores(m: GraphModel, bindings: Seq<Binding>) -> bool {
    forall|k: int|
        0 <= k < bindings.len() ==> store_value(m, (#[trigger] bindings[k]).store) is Ok && no_data_flow(
            incoming_of(m, bindings[k].store),
        )
}

/// Resolving stores that mirror no other store reads what stands in them.
pub proof fn lemma_resolve_reads_stores(m: GraphModel, bindings: Seq<Binding>)
    requires
        plain_stores(m, bindings),
    ensures
        resolve(m, bindings) == (m, Ok::<Seq<Resolved>, ExecutionStepError>(stored(m, bindings))),
    decreases bindings.len(),
{
    if bindings.len() == 0 {
        assert(stored(m, bindings) =~= Seq::<Resolved>::empty());
    } else {
        let rest = bindings.drop_last();
        assert forall|k: int| 0 <= k < rest.len() implies store_value(m, (#[trigger] rest[k]).store) is Ok
            && no_data_flow(incoming_of(m, rest[k].store)) by {
            assert(rest[k] == bindings[k]);
        }
        lemma_resolve_reads_stores(m, rest);
        assert(bindings.last() == bindings[bindings.len() - 1]);
        lemma_read_without_mirror(m, bindings.last().store);
        assert(stored(m, bindings) =~= stored(m, rest).push(
            Resolved { slot: bindings.last().slot, value: store_value(m, bindings.last().store)->Ok_0 },
        ));
    }
}

/// A node is called with the values of its input stores in the order of
/// their slots, whatever the order of the edges that bind them. Where the
/// stores bound to the argument positions of the node at `p` have the slots
/// 0, 1, ..., n-1, each once, and none of them mirrors another store, input
/// resolution leaves the graph as it is, and the argument at position `i`
/// is the value of the store bound to slot `i`.
pub proof fn lemma_inputs_in_slot_order(m: GraphModel, p: nat)
    requires
        plain_stores(m, input_bindings(m, p)),
        forall|j: int, k: int|
            0 <= j < k < input_bindings(m, p).len() ==> input_bindings(m, p)[j].slot != input_bindings(m, p)[k].slot,
        forall|k: int| 0 <= k < input_bindings(m, p).len() ==> input_bindings(m, p)[k].slot < input_bindings(m, p).len(),
    ensures
        resolved_inputs(m, p).0 == m,
        resolved_inputs(m, p).1 matches Ok(inputs) && inputs.len() == input_bindings(m, p).len() && forall|k: int|
            0 <= k < inputs.len() ==> inputs[(#[trigger] input_bindings(m, p)[k]).slot as int] == store_value(
                m,
                input_bindings(m, p)[k].store,
            )->Ok_0,
{
    let bindings = input_bindings(m, p);
    lemma_resolve_reads_stores(m, bindings);
    let items = stored(m, bindings);
    lemma_arguments_in_slot_order(items);
    assert forall|k: int| 0 <= k < bindings.len() implies arguments(items)[(#[trigger] bindings[k]).slot as int]
        == store_value(m, bindings[k].store)->Ok_0 by {
        assert(items[k].slot == bindings[k].slot);
    }
}

/// Input resolution is idempotent on stores that mirror no other store:
/// it leaves the graph as it is, so that resolving again reads the same.
pub proof fn lemma_inputs_read_unchanged(m: GraphModel, p: nat)
    requires
        forall|k: int|
            0 <= k < input_bindings(m, p).len() ==> no_data_flow(
                incoming_of(m, (#[trigger] input_bindings(m, p)[k]).store),
            ),
    ensures
        resolved_inputs(m, p).0 == m,
        resolved_inputs(resolved_inputs(m, p).0, p) == resolved_inputs(m, p),
{
    lemma_resolve_without_mirrors(m, input_bindings(m, p));
}

proof fn lemma_mirrored_from_stores(m: GraphModel, links: Seq<Link>)
    requires
        forall|j: int|
            0 <= j < links.len() && (#[trigger] links[j]).edge is DataFlow ==> store_value(m, links[j].source) is Ok,
    ensures
        mirrored(m, links) is Ok,
    decreases links.len(),
{
    if links.len() > 0 {
        lemma_mirrored_from_stores(m, links.drop_last());
        assert(links.last() == links[links.len() - 1]);
    }
}

/// Among data-flow edges that all start at stores, the last one decides:
/// its store's value is the one mirrored.
pub proof fn lemma_last_mirror_wins(m: GraphModel, links: Seq<Link>, k: int)
    requires
        0 <= k < links.len(),
        links[k].edge is DataFlow,
        forall|j: int| k < j < links.len() ==> !((#[trigger] links[j]).edge is DataFlow),
        forall|j: int|
            0 <= j < links.len() && (#[trigger] links[j]).edge is DataFlow ==> store_value(m, links[j].source) is Ok,
    ensures
        mirrored(m, links) == Ok::<Option<Value>, ExecutionStepError>(
            Some(store_value(m, links[k].source)->Ok_0),
        ),
    decreases links.len(),
{
    let rest = links.drop_last();
    assert(links.last() == links[links.len() - 1]);
    if k == links.len() - 1 {
        lemma_mirrored_from_stores(m, rest);
    } else {
        lemma_last_mirror_wins(m, rest, k);
    }
}

/// A store that mirrors another reflects it whenever it is read: the read
/// gives the value that the mirrored store holds at that moment, and
/// leaves the reading store holding it too.
pub proof fn lemma_read_reflects_mirror(m: GraphModel, s: nat, k: int)
    requires
        store_value(m, s) is Ok,
        0 <= k < incoming_of(m, s).len(),
        incoming_of(m, s)[k].edge is DataFlow,
        forall|j: int| k < j < incoming_of(m, s).len() ==> !((#[trigger] incoming_of(m, s)[j]).edge is DataFlow),
        forall|j: int|
            0 <= j < incoming_of(m, s).len() && (#[trigger] incoming_of(m, s)[j]).edge is DataFlow ==> store_value(
                m,
                incoming_of(m, s)[j].source,
            ) is Ok,
    ensures
        ({
            let v = store_value(m, incoming_of(m, s)[k].source)->Ok_0;
            &&& read_input(m, s) == (with_weight(m, s, GraphNode::Store(v)), Ok::<Value, ExecutionStepError>(v))
            &&& store_value(read_input(m, s).0, s) == Ok::<Value, ExecutionStepError>(v)
        }),
{
    lemma_last_mirror_wins(m, incoming_of(m, s), k);
}

/// Only a store is refreshed: reading a node that is no store is an
/// error, whatever it mirrors, and leaves the graph as it is.
pub proof fn lemma_read_of_no_store(m: GraphModel, s: nat)
    requires
        store_value(m, s) is Err,
    ensures
        read_input(m, s).0 == m,
        read_input(m, s).1 is Err,
{
}

proof fn lemma_mirrored_alike(m: GraphModel, other: GraphModel, links: Seq<Link>)
    requires
        forall|j: int|
            0 <= j < links.len() && (#[trigger] links[j]).edge is DataFlow ==> store_value(m, links[j].source)
                == store_value(other, links[j].source),
    ensures
        mirrored(m, links) == mirrored(other, links),
    decreases links.len(),
{
    if links.len() > 0 {
        lemma_mirrored_alike(m, other, links.drop_last());
        assert(links.last() == links[links.len() - 1]);
    }
}

/// Whether the store that binding `k` binds mirrors stores that the
/// resolution of `bindings` leaves alone, the last of them by its incoming
/// edge `j`.
pub open spec fn mirrors_steadily(m: GraphModel, bindings: Seq<Binding>, k: int, j: int) -> bool {
    let links = incoming_of(m, bindings[k].store);
    &&& 0 <= k < bindings.len()
    &&& store_value(m, bindings[k].store) is Ok
    &&& 0 <= j < links.len()
    &&& links[j].edge is DataFlow
    &&& forall|i: int| j < i < links.len() ==> !((#[trigger] links[i]).edge is DataFlow)
    &&& forall|i: int|
        0 <= i < links.len() && (#[trigger] links[i]).edge is DataFlow ==> store_value(m, links[i].source) is Ok
            && steady(m, bindings, links[i].source)
}

/// The value that the store of binding `k` mirrors by its edge `j`.
pub open spec fn mirrored_value(m: GraphModel, bindings: Seq<Binding>, k: int, j: int) -> Value {
    store_value(m, incoming_of(m, bindings[k].store)[j].source)->Ok_0
}

proof fn lemma_mirror_held(m: GraphModel, bindings: Seq<Binding>, k: int, j: int, n: int)
    requires
        mirrors_steadily(m, bindings, k, j),
        resolve(m, bindings).1 is Ok,
        k < n <= bindings.len(),
    ensures
        resolve(m, bindings.take(n)).1 is Ok,
        resolve(m, bindings.take(n)).1->Ok_0.len() == n,
        resolve(m, bindings.take(n)).1->Ok_0[k] == (Resolved {
            slot: bindings[k].slot,
            value: mirrored_value(m, bindings, k, j),
        }),
        store_value(resolve(m, bindings.take(n)).0, bindings[k].store) == Ok::<Value, ExecutionStepError>(
            mirrored_value(m, bindings, k, j),
        ),
    decreases n,
{
    let s = bindings[k].store;
    let links = incoming_of(m, s);
    let w = mirrored_value(m, bindings, k, j);
    let part = bindings.take(n);
    let rest = bindings.take(n - 1);
    let before = resolve(m, rest).0;
    let q = bindings[n - 1].store;
    lemma_resolve_in_parts(m, bindings, n);
    lemma_resolve_in_parts(m, bindings, n - 1);
    assert(part.drop_last() =~= rest);
    assert(part.last() == bindings[n - 1]);
    lemma_resolve_touches_bound_stores(m, rest);
    lemma_resolve_keeps_stores(m, rest, s);
    if n - 1 > k {
        lemma_mirror_held(m, bindings, k, j, n - 1);
    }
    if q == s {
        assert(incoming_of(before, s) == links);
        assert forall|i: int| 0 <= i < links.len() && (#[trigger] links[i]).edge is DataFlow implies store_value(
            m,
            links[i].source,
        ) == store_value(before, links[i].source) by {
            lemma_steady_before(m, bindings, n - 1, links[i].source);
            assert(before[links[i].source as int] == m[links[i].source as int]);
        }
        lemma_mirrored_alike(m, before, links);
        lemma_last_mirror_wins(m, links, j);
        assert(read_input(before, s) == (
            with_weight(before, s, GraphNode::Store(w)),
            Ok::<Value, ExecutionStepError>(w),
        ));
    }
}

/// A store that mirrors another reflects it in a whole resolution, among
/// any number of inputs. Where the mirrored stores are left alone by the
/// resolution, and the resolution succeeds, the value read for the
/// mirroring store is the one that the mirrored store holds, and after the
/// resolution both stores hold it.
pub proof fn lemma_resolution_reflects_mirror(m: GraphModel, bindings: Seq<Binding>, k: int, j: int)
    requires
        mirrors_steadily(m, bindings, k, j),
        resolve(m, bindings).1 is Ok,
    ensures
        resolve(m, bindings).1->Ok_0.len() == bindings.len(),
        resolve(m, bindings).1->Ok_0[k] == (Resolved {
            slot: bindings[k].slot,
            value: mirrored_value(m, bindings, k, j),
        }),
        store_value(resolve(m, bindings).0, bindings[k].store) == Ok::<Value, ExecutionStepError>(
            mirrored_value(m, bindings, k, j),
        ),
        store_value(resolve(m, bindings).0, incoming_of(m, bindings[k].store)[j].source) == Ok::<
            Value,
            ExecutionStepError,
        >(mirrored_value(m, bindings, k, j)),
{
    let source = incoming_of(m, bindings[k].store)[j].source;
    lemma_mirror_held(m, bindings, k, j, bindings.len() as int);
    assert(bindings.take(bindings.len() as int) =~= bindings);
    lemma_resolve_touches_bound_stores(m, bindings);
    assert(resolve(m, bindings).0[source as int] == m[source as int]);
}

/// The values read keep the slots of their bindings.
pub proof fn lemma_resolve_keeps_slots(m: GraphModel, bindings: Seq<Binding>)
    requires
        resolve(m, bindings).1 is Ok,
    ensures
        resolve(m, bindings).1->Ok_0.len() == bindings.len(),
        forall|i: int|
            0 <= i < bindings.len() ==> (#[trigger] resolve(m, bindings).1->Ok_0[i]).slot == bindings[i].slot,
    decreases bindings.len(),
{
    if bindings.len() > 0 {
        let rest = bindings.drop_last();
        lemma_resolve_keeps_slots(m, rest);
        assert forall|i: int| 0 <= i < bindings.len() implies (#[trigger] resolve(m, bindings).1->Ok_0[i]).slot
            == bindings[i].slot by {
            if i < rest.len() {
                assert(resolve(m, rest).1->Ok_0[i].slot == rest[i].slot);
            }
        }
    }
}

/// A node is called with what its input stores mirror. Where the stores
/// bound to the argument positions of the node at `p` have the slots
/// 0, 1, ..., n-1, each once, one of them mirrors stores that the
/// resolution leaves alone, and the resolution succeeds, the argument at
/// the position of that store's slot is the value that the mirrored store
/// holds, and after the resolution both stores hold it.
pub proof fn lemma_inputs_reflect_mirror(m: GraphModel, p: nat, k: int, j: int)
    requires
        mirrors_steadily(m, input_bindings(m, p), k, j),
        resolved_inputs(m, p).1 is Ok,
        forall|a: int, b: int|
            0 <= a < b < input_bindings(m, p).len() ==> input_bindings(m, p)[a].slot != input_bindings(m, p)[b].slot,
        forall|a: int| 0 <= a < input_bindings(m, p).len() ==> input_bindings(m, p)[a].slot < input_bindings(m, p).len(),
    ensures
        resolved_inputs(m, p).1->Ok_0.len() == input_bindings(m, p).len(),
        resolved_inputs(m, p).1->Ok_0[input_bindings(m, p)[k].slot as int] == mirrored_value(
            m,
            input_bindings(m, p),
            k,
            j,
        ),
        store_value(resolved_inputs(m, p).0, input_bindings(m, p)[k].store) == Ok::<Value, ExecutionStepError>(
            mirrored_value(m, input_bindings(m, p), k, j),
        ),
        store_value(resolved_inputs(m, p).0, incoming_of(m, input_bindings(m, p)[k].store)[j].source) == Ok::<
            Value,
            ExecutionStepError,
        >(mirrored_value(m, input_bindings(m, p), k, j)),
{
    let bindings = input_bindings(m, p);
    let items = resolve(m, bindings).1->Ok_0;
    lemma_resolution_reflects_mirror(m, bindings, k, j);
    lemma_resolve_keeps_slots(m, bindings);
    assert(distinct_slots(items)) by {
        assert forall|a: int, b: int| 0 <= a < b < items.len() implies items[a].slot != items[b].slot by {
            assert(items[a].slot == bindings[a].slot);
            assert(items[b].slot == bindings[b].slot);
        }
    }
    assert forall|a: int| 0 <= a < items.len() implies items[a].slot < items.len() by {
        assert(items[a].slot == bindings[a].slot);
    }
    lemma_arguments_in_slot_order(items);
    assert(arguments(items)[items[k].slot as int] == items[k].value);
}

/// The store that a result goes to is bound to the result's position; a
/// result goes nowhere exactly if nothing is bound to its position.
pub proof fn lemma_target_is_bound(bindings: Seq<Binding>, slot: int)
    ensures
        target_for(bindings, slot) matches Some(t) ==> exists|k: int|
            0 <= k < bindings.len() && (#[trigger] bindings[k]).slot == slot && bindings[k].store == t,
        target_for(bindings, slot) is None <==> forall|k: int|
            0 <= k < bindings.len() ==> (#[trigger] bindings[k]).slot != slot,
    decreases bindings.len(),
{
    if bindings.len() > 0 {
        if bindings.first().slot == slot {
            assert(bindings[0].slot == slot && bindings[0].store == target_for(bindings, slot)->Some_0);
        } else {
            let rest = bindings.drop_first();
            lemma_target_is_bound(rest, slot);
            if target_for(bindings, slot) is Some {
                let t = target_for(bindings, slot)->Some_0;
                let k = choose|k: int| 0 <= k < rest.len() && (#[trigger] rest[k]).slot == slot && rest[k].store == t;
                assert(bindings[k + 1] == rest[k]);
            } else {
                assert forall|k: int| 0 <= k < bindings.len() implies (#[trigger] bindings[k]).slot != slot by {
                    if k > 0 {
                        assert(rest[k - 1] == bindings[k]);
                    }
                }
            }
            if forall|k: int| 0 <= k < bindings.len() ==> (#[trigger] bindings[k]).slot != slot {
                assert forall|k: int| 0 <= k < rest.len() implies (#[trigger] rest[k]).slot != slot by {
                    assert(rest[k] == bindings[k + 1]);
                }
            }
        }
    }
}

/// Committing results changes no edge and adds no node.
pub proof fn lemma_commit_keeps_edges(m: GraphModel, bindings: Seq<Binding>, outputs: Seq<Value>)
    ensures
        commit(m, bindings, outputs).len() == m.len(),
        forall|q: nat| #[trigger] incoming_of(commit(m, bindings, outputs), q) == incoming_of(m, q),
        forall|q: nat| #[trigger] outgoing_of(commit(m, bindings, outputs), q) == outgoing_of(m, q),
    decreases outputs.len(),
{
    if outputs.len() > 0 {
        lemma_commit_keeps_edges(m, bindings, outputs.drop_last());
        let before = commit(m, bindings, outputs.drop_last());
        assert forall|q: nat| #[trigger] incoming_of(commit(m, bindings, outputs), q) == incoming_of(m, q) by {
            assert(incoming_of(before, q) == incoming_of(m, q));
        }
        assert forall|q: nat| #[trigger] outgoing_of(commit(m, bindings, outputs), q) == outgoing_of(m, q) by {
            assert(outgoing_of(before, q) == outgoing_of(m, q));
        }
    }
}

/// Output commit is positional. A node to which no result's position is
/// bound is left as it is. A store to which the position of some result is
/// bound holds, after the commit, the last such result.
pub proof fn lemma_commit_is_positional(m: GraphModel, bindings: Seq<Binding>, outputs: Seq<Value>, q: nat)
    requires
        q < m.len(),
    ensures
        (forall|i: int| 0 <= i < outputs.len() ==> target_for(bindings, i) != Some(q)) ==> commit(
            m,
            bindings,
            outputs,
        )[q as int] == m[q as int],
        forall|i: int|
            0 <= i < outputs.len() && #[trigger] target_for(bindings, i) == Some(q) && (forall|j: int|
                i < j < outputs.len() ==> target_for(bindings, j) != Some(q)) ==> commit(
                m,
                bindings,
                outputs,
            )[q as int].weight == GraphNode::Store(outputs[i]),
    decreases outputs.len(),
{
    if outputs.len() > 0 {
        let rest = outputs.drop_last();
        let last = outputs.len() - 1;
        lemma_commit_is_positional(m, bindings, rest, q);
        lemma_commit_keeps_edges(m, bindings, rest);
        assert forall|i: int|
            0 <= i < outputs.len() && #[trigger] target_for(bindings, i) == Some(q) && (forall|j: int|
                i < j < outputs.len() ==> target_for(bindings, j) != Some(q)) implies commit(
            m,
            bindings,
            outputs,
        )[q as int].weight == GraphNode::Store(outputs[i]) by {
            if i < last {
                assert(target_for(bindings, last) != Some(q));
                assert(rest[i] == outputs[i]);
            }
        }
    }
}

/// Results to whose positions nothing is bound are dropped: the graph
/// stays as it is.
pub proof fn lemma_unbound_results_dropped(m: GraphModel, bindings: Seq<Binding>, outputs: Seq<Value>)
    requires
        forall|i: int| 0 <= i < outputs.len() ==> target_for(bindings, i) is None,
    ensures
        commit(m, bindings, outputs) == m,
    decreases outputs.len(),
{
    if outputs.len() > 0 {
        lemma_unbound_results_dropped(m, bindings, outputs.drop_last());
    }
}

/// A node without outgoing execution-flow edges has no successors.
pub proof fn lemma_no_flow_no_successors(m: GraphModel, p: nat)
    requires
        no_execution_flow(outgoing_of(m, p)),
    ensures
        successors(m, p) == Seq::<nat>::empty(),
{
    lemma_successors_of_none(outgoing_of(m, p));
}

proof fn lemma_successors_of_none(links: Seq<Link>)
    requires
        no_execution_flow(links),
    ensures
        successors_of(links) == Seq::<nat>::empty(),
    decreases links.len(),
{
    if links.len() > 0 {
        lemma_successors_of_none(links.drop_last());
        assert(links.last() == links[links.len() - 1]);
    }
}

proof fn lemma_successors_of_one(links: Seq<Link>, i: int)
    requires
        0 <= i < links.len(),
        links[i].edge is ExecutionFlow,
        forall|k: int| 0 <= k < links.len() && k != i ==> !((#[trigger] links[k]).edge is ExecutionFlow),
    ensures
        successors_of(links) == seq![links[i].target],
    decreases links.len(),
{
    let rest = links.drop_last();
    assert(links.last() == links[links.len() - 1]);
    if i == links.len() - 1 {
        lemma_successors_of_none(rest);
        assert(successors_of(links) =~= seq![links[i].target]);
    } else {
        lemma_successors_of_one(rest, i);
    }
}

/// A node with two outgoing execution-flow edges has their two targets as
/// its successors, in the order of the edges, whatever data edges it has.
pub proof fn lemma_two_flows_two_successors(m: GraphModel, p: nat, i: int, j: int)
    requires
        0 <= i < j < outgoing_of(m, p).len(),
        outgoing_of(m, p)[i].edge is ExecutionFlow,
        outgoing_of(m, p)[j].edge is ExecutionFlow,
        forall|k: int|
            0 <= k < outgoing_of(m, p).len() && k != i && k != j ==> !((#[trigger] outgoing_of(
                m,
                p,
            )[k]).edge is ExecutionFlow),
    ensures
        successors(m, p) == seq![outgoing_of(m, p)[i].target, outgoing_of(m, p)[j].target],
{
    lemma_successors_of_two(outgoing_of(m, p), i, j);
}

proof fn lemma_successors_of_two(links: Seq<Link>, i: int, j: int)
    requires
        0 <= i < j < links.len(),
        links[i].edge is ExecutionFlow,
        links[j].edge is ExecutionFlow,
        forall|k: int| 0 <= k < links.len() && k != i && k != j ==> !((#[trigger] links[k]).edge is ExecutionFlow),
    ensures
        successors_of(links) == seq![links[i].target, links[j].target],
    decreases links.len(),
{
    let rest = links.drop_last();
    assert(links.last() == links[links.len() - 1]);
    if j == links.len() - 1 {
        lemma_successors_of_one(rest, i);
        assert(successors_of(links) =~= seq![links[i].target, links[j].target]);
    } else {
        lemma_successors_of_two(rest, i, j);
    }
}

} // verus!
