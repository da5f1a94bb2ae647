use vstd::prelude::*;

use crate::ordering::{sorted_items, Priority};
use crate::{total_value, total_weight, Item, ItemSet, Knapsack, MAX_ITEM_VALUE};

verus! {

/// Takes the items in the given order, each one that still fits the remaining budget.
pub open spec fn fill(order: Seq<Item>, capacity: nat) -> Seq<Item>
    decreases order.len(),
{
    if order.len() == 0 {
        Seq::empty()
    } else {
        let prev = fill(order.drop_last(), capacity);
        if total_weight(prev) + order.last().weight <= capacity {
            prev.push(order.last())
        } else {
            prev
        }
    }
}

/// What a greedy heuristic selects: the items ordered by `priority`, then filled in.
pub open spec fn greedy(items: Seq<Item>, priority: Priority, capacity: nat) -> Seq<Item> {
    fill(sorted_items(items, priority), capacity)
}

pub proof fn lemma_fill_bounded(order: Seq<Item>, capacity: nat)
    ensures
        total_weight(fill(order, capacity)) <= capacity,
        total_value(fill(order, capacity)) <= fill(order, capacity).len() * MAX_ITEM_VALUE,
        fill(order, capacity).len() <= order.len(),
    decreases order.len(),
{
    if order.len() > 0 {
        let prev = fill(order.drop_last(), capacity);
        lemma_fill_bounded(order.drop_last(), capacity);
        assert(prev.push(order.last()).drop_last() =~= prev);
    }
}

/// Fills a knapsack greedily, taking the items in the order they stand in `sorted`.
fn fill_in_order(sorted: &ItemSet, capacity: usize) -> (k: Knapsack)
    requires
        sorted@.len() * MAX_ITEM_VALUE <= usize::MAX,
    ensures
        k.wf(),
        k@ == fill(sorted@, capacity as nat),
{
    let mut knapsack = Knapsack::new();
    let mut i: usize = 0;
    while i < sorted.items.len()
        invariant
            i <= sorted@.len(),
            sorted@.len() * MAX_ITEM_VALUE <= usize::MAX,
            knapsack.wf(),
            knapsack@ == fill(sorted@.take(i as int), capacity as nat),
        decreases sorted@.len() - i,
    {
        let item = sorted.items[i];
        proof {
            let prefix = sorted@.take(i as int);
            lemma_fill_bounded(prefix, capacity as nat);
            assert(sorted@.take(i + 1).drop_last() =~= prefix);
            assert(knapsack@.push(item).drop_last() =~= knapsack@);
            assert(knapsack@.len() * MAX_ITEM_VALUE <= sorted@.len() * MAX_ITEM_VALUE)
                by (nonlinear_arith)
                requires
                    knapsack@.len() <= sorted@.len(),
            ;
        }
        if item.weight as usize <= capacity - knapsack.weight() {
            knapsack.insert(item);
        }
        i = i + 1;
    }
    assert(sorted@.take(i as int) =~= sorted@);
    knapsack
}

proof fn lemma_sorted_len(items: Seq<Item>, priority: Priority)
    ensures
        sorted_items(items, priority).len() == items.len(),
{
    crate::ordering::lemma_key_order_total();
    crate::ordering::keyed(items, priority).lemma_sort_by_ensures(crate::ordering::key_order());
    vstd::seq_lib::to_multiset_len(crate::ordering::keyed(items, priority));
    vstd::seq_lib::to_multiset_len(
        crate::ordering::keyed(items, priority).sort_by(crate::ordering::key_order()),
    );
}

/// Lightest items first.
pub fn smallest_weight_first(set: &ItemSet, capacity: usize) -> (k: Knapsack)
    requires
        set@.len() * MAX_ITEM_VALUE <= usize::MAX,
    ensures
        k.wf(),
        k@ == greedy(set@, Priority::WeightAscending, capacity as nat),
        total_weight(k@) <= capacity,
{
    let sorted = set.cloned_sort(Priority::WeightAscending);
    proof {
        lemma_sorted_len(set@, Priority::WeightAscending);
        lemma_fill_bounded(sorted@, capacity as nat);
    }
    fill_in_order(&sorted, capacity)
}

/// Most valuable items first.
pub fn largest_value_first(set: &ItemSet, capacity: usize) -> (k: Knapsack)
    requires
        set@.len() * MAX_ITEM_VALUE <= usize::MAX,
    ensures
        k.wf(),
        k@ == greedy(set@, Priority::ValueDescending, capacity as nat),
        total_weight(k@) <= capacity,
{
    let sorted = set.cloned_sort(Priority::ValueDescending);
    proof {
        lemma_sorted_len(set@, Priority::ValueDescending);
        lemma_fill_bounded(sorted@, capacity as nat);
    }
    fill_in_order(&sorted, capacity)
}

/// Items with the highest value per unit of weight first.
pub fn greatest_worth_first(set: &ItemSet, capacity: usize) -> (k: Knapsack)
    requires
        set@.len() * MAX_ITEM_VALUE <= usize::MAX,
    ensures
        k.wf(),
        k@ == greedy(set@, Priority::WorthDescending, capacity as nat),
        total_weight(k@) <= capacity,
{
    let sorted = set.cloned_sort(Priority::WorthDescending);
    proof {
        lemma_sorted_len(set@, Priority::WorthDescending);
        lemma_fill_bounded(sorted@, capacity as nat);
    }
    fill_in_order(&sorted, capacity)
}

} // verus!
