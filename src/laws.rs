use vstd::prelude::*;

use crate::brute_force::{
    first_best, fits, gray, lemma_best_bounds_subsets, lemma_best_reached, mask_items, mask_value,
    positive_weights,
};
use crate::dynamic_programming::{best, chosen};
use crate::greedy::{fill, greedy};
use crate::ordering::{key_order, keyed, lemma_key_order_total, sorted_items, Priority};
use crate::{lemma_push_totals, total_value, total_weight, Item};

verus! {

/// What backtracking recovers fits the budget and is worth exactly the best value.
pub proof fn lemma_chosen_is_best(items: Seq<Item>, i: nat, j: nat)
    ensures
        total_weight(chosen(items, i, j)) <= j,
        total_value(chosen(items, i, j)) == best(items, i, j),
    decreases i,
{
    if i == 0 || j == 0 || i > items.len() {
    } else {
        let k = (i - 1) as nat;
        let item = items[k as int];
        if best(items, i, j) != best(items, k, j) {
            let rest = chosen(items, k, (j - item.weight) as nat);
            lemma_chosen_is_best(items, k, (j - item.weight) as nat);
            lemma_totals_prepend(item, rest);
        } else {
            lemma_chosen_is_best(items, k, j);
        }
    }
}

proof fn lemma_totals_prepend(item: Item, s: Seq<Item>)
    ensures
        total_weight(seq![item] + s) == item.weight + total_weight(s),
        total_value(seq![item] + s) == item.value + total_value(s),
    decreases s.len(),
{
    let joined = seq![item] + s;
    if s.len() > 0 {
        lemma_totals_prepend(item, s.drop_last());
        assert(joined.drop_last() =~= seq![item] + s.drop_last());
        assert(joined.last() == s.last());
        assert(joined.len() == s.len() + 1);
    } else {
        assert(joined.drop_last() =~= Seq::<Item>::empty());
        assert(joined.last() == item);
        assert(joined.len() == 1);
        assert(total_weight(Seq::<Item>::empty()) == 0);
        assert(total_value(Seq::<Item>::empty()) == 0);
        assert(total_weight(joined) == total_weight(joined.drop_last()) + joined.last().weight);
    }
}

/// The exhaustive search and the tables agree: when every item weighs something, the value of
/// the subset that the enumeration settles on is the best value, which is also the value of
/// what backtracking recovers from either table.
pub proof fn lemma_oracle_agreement(items: Seq<Item>, capacity: nat, m: u64, value: nat)
    requires
        positive_weights(items),
        first_best(items, items.len(), capacity, m, value),
    ensures
        value == best(items, items.len(), capacity),
        value == total_value(chosen(items, items.len(), capacity)),
{
    let n = items.len();
    lemma_best_bounds_subsets(items, m, n, capacity);
    let r = lemma_best_reached(items, n, capacity);
    assert(fits(items, n, capacity, r));
    lemma_chosen_is_best(items, n, capacity);
}

/// The exhaustive search is deterministic: one instance has one subset it settles on.
pub proof fn lemma_brute_force_unique(
    items: Seq<Item>,
    n: nat,
    capacity: nat,
    m1: u64,
    v1: nat,
    m2: u64,
    v2: nat,
)
    requires
        first_best(items, n, capacity, m1, v1),
        first_best(items, n, capacity, m2, v2),
    ensures
        m1 == m2,
        v1 == v2,
{
    assert(fits(items, n, capacity, m2));
    assert(fits(items, n, capacity, m1));
    assert(v1 == v2);
    let k1 = choose|k: u64|
        k < (1u64 << n as u64) && gray(k) == m1 && forall|k2: u64|
            k2 < k ==> !fits(items, n, capacity, #[trigger] gray(k2)) || mask_value(
                items,
                n,
                gray(k2),
            ) < v1;
    let k2 = choose|k: u64|
        k < (1u64 << n as u64) && gray(k) == m2 && forall|k3: u64|
            k3 < k ==> !fits(items, n, capacity, #[trigger] gray(k3)) || mask_value(
                items,
                n,
                gray(k3),
            ) < v2;
    if k1 < k2 {
        assert(fits(items, n, capacity, gray(k1)));
    } else if k2 < k1 {
        assert(fits(items, n, capacity, gray(k2)));
    }
}

/// `s` lists items of `items` at the distinct positions `idx`, all below `n`.
pub open spec fn drawn(s: Seq<Item>, items: Seq<Item>, idx: Seq<int>, n: nat) -> bool {
    &&& idx.len() == s.len()
    &&& idx.no_duplicates()
    &&& n <= items.len()
    &&& forall|p: int| 0 <= p < idx.len() ==> 0 <= #[trigger] idx[p] < n && s[p] == items[idx[p]]
}

proof fn lemma_totals_remove(s: Seq<Item>, p: int)
    requires
        0 <= p < s.len(),
    ensures
        total_weight(s) == total_weight(s.remove(p)) + s[p].weight,
        total_value(s) == total_value(s.remove(p)) + s[p].value,
    decreases s.len(),
{
    if p == s.len() - 1 {
        assert(s.remove(p) =~= s.drop_last());
    } else {
        lemma_totals_remove(s.drop_last(), p);
        assert(s.remove(p).drop_last() =~= s.drop_last().remove(p));
        assert(s.remove(p).last() == s.last());
    }
}

/// Any items drawn at distinct positions that fit a budget are worth at most the best value.
pub proof fn lemma_drawn_below_best(s: Seq<Item>, items: Seq<Item>, idx: Seq<int>, n: nat, j: nat)
    requires
        positive_weights(items),
        drawn(s, items, idx, n),
        total_weight(s) <= j,
    ensures
        total_value(s) <= best(items, n, j),
    decreases n,
{
    if n == 0 {
        if s.len() > 0 {
            assert(0 <= idx[0] && idx[0] < n as int);
        }
    } else {
        let k = (n - 1) as int;
        if idx.contains(k) {
            let p = idx.index_of(k);
            let s2 = s.remove(p);
            let idx2 = idx.remove(p);
            lemma_totals_remove(s, p);
            assert(items[k].weight > 0);
            assert forall|q: int| 0 <= q < idx2.len() implies 0 <= #[trigger] idx2[q] < k && s2[q]
                == items[idx2[q]] by {
                if q < p {
                    assert(idx2[q] == idx[q]);
                } else {
                    assert(idx2[q] == idx[q + 1]);
                }
            }
            assert(idx2.no_duplicates());
            if j > 0 {
                lemma_drawn_below_best(s2, items, idx2, k as nat, (j - items[k].weight) as nat);
            }
        } else {
            assert forall|q: int| 0 <= q < idx.len() implies 0 <= #[trigger] idx[q] < k && s[q]
                == items[idx[q]] by {
                assert(idx[q] != k);
            }
            lemma_drawn_below_best(s, items, idx, k as nat, j);
        }
    }
}

/// Filling in a drawn order again yields items drawn at distinct positions.
proof fn lemma_fill_drawn(order: Seq<Item>, items: Seq<Item>, idx: Seq<int>, n: nat, capacity: nat)
    -> (picked: Seq<int>)
    requires
        drawn(order, items, idx, n),
    ensures
        drawn(fill(order, capacity), items, picked, n),
        forall|q: int| 0 <= q < picked.len() ==> idx.contains(#[trigger] picked[q]),
    decreases order.len(),
{
    if order.len() == 0 {
        Seq::empty()
    } else {
        let rest = idx.drop_last();
        assert(drawn(order.drop_last(), items, rest, n));
        let prev = lemma_fill_drawn(order.drop_last(), items, rest, n, capacity);
        let taken = fill(order.drop_last(), capacity);
        if total_weight(taken) + order.last().weight <= capacity {
            let picked = prev.push(idx.last());
            assert forall|q: int| 0 <= q < prev.len() implies #[trigger] prev[q] != idx.last() by {
                let r = rest.index_of(prev[q]);
                assert(rest[r] == idx[r]);
            }
            assert forall|q: int| 0 <= q < picked.len() implies idx.contains(#[trigger] picked[q]) by {
                if q < prev.len() {
                    let r = rest.index_of(prev[q]);
                    assert(idx[r] == picked[q]);
                } else {
                    assert(idx[idx.len() - 1] == picked[q]);
                }
            }
            picked
        } else {
            assert forall|q: int| 0 <= q < prev.len() implies idx.contains(#[trigger] prev[q]) by {
                let r = rest.index_of(prev[q]);
                assert(idx[r] == prev[q]);
            }
            prev
        }
    }
}

/// A priority order lists each item of the set once.
proof fn lemma_sorted_drawn(items: Seq<Item>, priority: Priority) -> (idx: Seq<int>)
    requires
        items.len() <= usize::MAX,
    ensures
        drawn(sorted_items(items, priority), items, idx, items.len()),
{
    broadcast use vstd::seq_lib::group_to_multiset_ensures;

    let ks = keyed(items, priority);
    let sorted = ks.sort_by(key_order());
    lemma_key_order_total();
    ks.lemma_sort_by_ensures(key_order());
    assert(ks.no_duplicates()) by {
        assert forall|a: int, b: int| 0 <= a < ks.len() && 0 <= b < ks.len() && a != b implies ks[a]
            != ks[b] by {
            assert(ks[a].1 == a && ks[b].1 == b);
        }
    }
    ks.lemma_multiset_has_no_duplicates();
    sorted.lemma_multiset_has_no_duplicates_conv();
    let idx = sorted.map_values(|k: (u64, usize)| k.1 as int);
    assert forall|p: int| 0 <= p < sorted.len() implies exists|q: int|
        0 <= q < ks.len() && #[trigger] ks[q] == #[trigger] sorted[p] by {
        assert(sorted.contains(sorted[p]));
    }
    assert forall|a: int, b: int| 0 <= a < idx.len() && 0 <= b < idx.len() && a != b implies idx[a]
        != idx[b] by {
        let qa = choose|q: int| 0 <= q < ks.len() && #[trigger] ks[q] == sorted[a];
        let qb = choose|q: int| 0 <= q < ks.len() && #[trigger] ks[q] == sorted[b];
        assert(ks[qa].1 == qa && ks[qb].1 == qb);
    }
    assert forall|p: int| 0 <= p < idx.len() implies 0 <= #[trigger] idx[p] < items.len()
        && sorted_items(items, priority)[p] == items[idx[p]] by {
        let q = choose|q: int| 0 <= q < ks.len() && #[trigger] ks[q] == sorted[p];
        assert(ks[q].1 == q);
    }
    vstd::seq_lib::to_multiset_len(ks);
    vstd::seq_lib::to_multiset_len(sorted);
    idx
}

/// The tables solve the instance exactly, for any number of items: when every item weighs
/// something, what backtracking recovers fits the budget, and no selection of items at distinct
/// positions that fits the budget is worth more.
pub proof fn lemma_tables_optimal(
    items: Seq<Item>,
    capacity: nat,
    s: Seq<Item>,
    idx: Seq<int>,
)
    requires
        positive_weights(items),
        drawn(s, items, idx, items.len()),
        total_weight(s) <= capacity,
    ensures
        total_weight(chosen(items, items.len(), capacity)) <= capacity,
        total_value(s) <= total_value(chosen(items, items.len(), capacity)),
{
    lemma_drawn_below_best(s, items, idx, items.len(), capacity);
    lemma_chosen_is_best(items, items.len(), capacity);
}

/// When every item weighs something, no greedy heuristic beats the best value.
pub proof fn lemma_greedy_below_best(items: Seq<Item>, priority: Priority, capacity: nat)
    requires
        positive_weights(items),
        items.len() <= usize::MAX,
    ensures
        total_value(greedy(items, priority, capacity)) <= best(items, items.len(), capacity),
{
    let order = sorted_items(items, priority);
    let idx = lemma_sorted_drawn(items, priority);
    let picked = lemma_fill_drawn(order, items, idx, items.len(), capacity);
    crate::greedy::lemma_fill_bounded(order, capacity);
    lemma_drawn_below_best(fill(order, capacity), items, picked, items.len(), capacity);
}

proof fn lemma_fill_nothing_fits(order: Seq<Item>)
    requires
        forall|p: int| 0 <= p < order.len() ==> #[trigger] order[p].weight > 0,
    ensures
        fill(order, 0) == Seq::<Item>::empty(),
    decreases order.len(),
{
    if order.len() > 0 {
        lemma_fill_nothing_fits(order.drop_last());
        assert(order[order.len() - 1].weight > 0);
    }
}

proof fn lemma_light_mask_empty(items: Seq<Item>, m: u64, i: nat)
    requires
        positive_weights(items),
        total_weight(mask_items(items, m, i)) == 0,
    ensures
        mask_items(items, m, i) == Seq::<Item>::empty(),
    decreases i,
{
    if i > 0 && i <= items.len() {
        let prev = mask_items(items, m, (i - 1) as nat);
        lemma_push_totals(prev, items[i - 1]);
        assert(items[i - 1].weight > 0);
        lemma_light_mask_empty(items, m, (i - 1) as nat);
    }
}

/// With no capacity nothing is selected: the tables recover nothing, and when every item
/// weighs something, neither a greedy heuristic nor the exhaustive search takes anything.
pub proof fn lemma_zero_capacity(items: Seq<Item>, priority: Priority, m: u64, value: nat)
    requires
        positive_weights(items),
        items.len() <= usize::MAX,
        first_best(items, items.len(), 0, m, value),
    ensures
        chosen(items, items.len(), 0) == Seq::<Item>::empty(),
        best(items, items.len(), 0) == 0,
        greedy(items, priority, 0) == Seq::<Item>::empty(),
        mask_items(items, m, items.len()) == Seq::<Item>::empty(),
        value == 0,
{
    let idx = lemma_sorted_drawn(items, priority);
    let order = sorted_items(items, priority);
    assert forall|p: int| 0 <= p < order.len() implies #[trigger] order[p].weight > 0 by {
        assert(order[p] == items[idx[p]]);
    }
    lemma_fill_nothing_fits(order);
    lemma_light_mask_empty(items, m, items.len());
}

/// An empty set yields an empty selection from every strategy.
pub proof fn lemma_empty_set(priority: Priority, capacity: nat, m: u64, value: nat)
    requires
        first_best(Seq::<Item>::empty(), 0, capacity, m, value),
    ensures
        chosen(Seq::<Item>::empty(), 0, capacity) == Seq::<Item>::empty(),
        greedy(Seq::<Item>::empty(), priority, capacity) == Seq::<Item>::empty(),
        mask_items(Seq::<Item>::empty(), m, 0) == Seq::<Item>::empty(),
        value == 0,
{
    let idx = lemma_sorted_drawn(Seq::<Item>::empty(), priority);
    let order = sorted_items(Seq::<Item>::empty(), priority);
    assert(drawn(order, Seq::<Item>::empty(), idx, 0));
    if order.len() > 0 {
        assert(idx.len() > 0);
        assert(idx[0] < 0);
    }
    assert(fill(order, capacity) =~= Seq::<Item>::empty());
}

} // verus!
