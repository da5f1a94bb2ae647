use vstd::prelude::*;

pub mod brute_force;
pub mod dynamic_programming;
pub mod greedy;
pub mod laws;
pub mod ordering;
pub mod random;

use crate::ordering::{sort_by_priority, sorted_items, Priority};

verus! {

/// The largest value an item can carry.
pub const MAX_ITEM_VALUE: u64 = 65535;

/// A weight/value pair, the unit of selection.
#[derive(Debug, Clone, Copy, PartialEq, Eq, Structural)]
pub struct Item {
    pub weight: u16,
    pub value: u16,
}

/// Sum of the weights of a sequence of items.
pub open spec fn total_weight(s: Seq<Item>) -> nat
    decreases s.len(),
{
    if s.len() == 0 {
        0
    } else {
        (total_weight(s.drop_last()) + s.last().weight) as nat
    }
}

/// Sum of the values of a sequence of items.
pub open spec fn total_value(s: Seq<Item>) -> nat
    decreases s.len(),
{
    if s.len() == 0 {
        0
    } else {
        (total_value(s.drop_last()) + s.last().value) as nat
    }
}

/// Appending an item adds its weight and value to the totals.
pub proof fn lemma_push_totals(s: Seq<Item>, item: Item)
    ensures
        total_weight(s.push(item)) == total_weight(s) + item.weight,
        total_value(s.push(item)) == total_value(s) + item.value,
{
    assert(s.push(item).drop_last() =~= s);
}

/// Every sum of at most `items.len()` item values fits both a table cell (`i64`)
/// and a knapsack total (`usize`).
pub open spec fn values_fit(items: Seq<Item>) -> bool {
    &&& items.len() * MAX_ITEM_VALUE <= i64::MAX
    &&& items.len() * MAX_ITEM_VALUE <= usize::MAX
}

/// The ordered collection of candidate items of a problem instance.
#[derive(Debug)]
pub struct ItemSet {
    pub items: Vec<Item>,
}

/// Bounds for generating a random set.
pub struct SetConfig {
    pub min_weight: u16,
    pub max_weight: u16,
    pub min_value: u16,
    pub max_value: u16,
    pub total: usize,
}

impl View for ItemSet {
    type V = Seq<Item>;

    open spec fn view(&self) -> Seq<Item> {
        self.items@
    }
}

impl ItemSet {
    /// A set holding `items` in their order.
    pub fn new(items: Vec<Item>) -> (s: Self)
        ensures
            s@ == items@,
    {
        ItemSet { items }
    }

    /// A copy of the set ordered by `priority`; items of equal rank keep their order.
    pub fn cloned_sort(&self, priority: Priority) -> (s: Self)
        ensures
            s@ == sorted_items(self@, priority),
    {
        ItemSet::new(sort_by_priority(&self.items, priority))
    }

    /// The number of items.
    pub fn len(&self) -> (n: usize)
        ensures
            n == self@.len(),
    {
        self.items.len()
    }
}

/// A selection of items together with its running totals.
#[derive(Debug)]
pub struct Knapsack {
    items: Vec<Item>,
    weight: usize,
    value: usize,
}

impl View for Knapsack {
    type V = Seq<Item>;

    closed spec fn view(&self) -> Seq<Item> {
        self.items@
    }
}

impl Knapsack {
    /// The running totals agree with the items held.
    pub closed spec fn wf(&self) -> bool {
        &&& self.weight == total_weight(self.items@)
        &&& self.value == total_value(self.items@)
    }

    /// An empty knapsack.
    pub fn new() -> (k: Self)
        ensures
            k.wf(),
            k@ == Seq::<Item>::empty(),
    {
        Knapsack { items: Vec::new(), weight: 0, value: 0 }
    }

    /// Appends `item` and adds its weight and value to the totals.
    pub fn insert(&mut self, item: Item)
        requires
            old(self).wf(),
            total_weight(old(self)@) + item.weight <= usize::MAX,
            total_value(old(self)@) + item.value <= usize::MAX,
        ensures
            final(self).wf(),
            final(self)@ == old(self)@.push(item),
    {
        let ghost before = self.items@;
        self.items.push(item);
        assert(self.items@.drop_last() == before);
        self.weight = self.weight + item.weight as usize;
        self.value = self.value + item.value as usize;
    }

    /// Total weight of the items held.
    pub fn weight(&self) -> (w: usize)
        requires
            self.wf(),
        ensures
            w == total_weight(self@),
    {
        self.weight
    }

    /// Total value of the items held.
    pub fn value(&self) -> (v: usize)
        requires
            self.wf(),
        ensures
            v == total_value(self@),
    {
        self.value
    }

    /// The items held, in the order they were inserted.
    pub fn items(&self) -> (s: &[Item])
        ensures
            s@ == self@,
    {
        self.items.as_slice()
    }
}

} // verus!
