use vstd::prelude::*;
use vstd::relations::{sorted_by, total_ordering};

use crate::Item;

verus! {

/// The order in which a greedy heuristic considers items.
#[derive(Debug, Clone, Copy, PartialEq, Eq, Structural)]
pub enum Priority {
    /// Lightest first.
    WeightAscending,
    /// Most valuable first.
    ValueDescending,
    /// Highest value per unit of weight first.
    WorthDescending,
}

/// `2^32`: the scale at which value/weight ratios are compared.
pub const RATIO_SCALE: u64 = 4294967296;

/// The largest scaled ratio an item can have (`65535 * 2^32`).
pub const MAX_SCALED_RATIO: u64 = 281470681743360;

/// Rank of an item by worth, smaller first. A zero weight makes the ratio infinite, or
/// undefined when the value is zero too: infinite ranks first, then finite ratios from high
/// to low, and undefined last. Two ratios of 16-bit integers that differ are at least `2^-32`
/// apart, so the floor of the ratio scaled by `2^32` orders them exactly.
pub open spec fn worth_rank(item: Item) -> u64 {
    if item.weight == 0 {
        if item.value == 0 {
            (2 + MAX_SCALED_RATIO) as u64
        } else {
            0
        }
    } else {
        (1 + MAX_SCALED_RATIO - (item.value * RATIO_SCALE) / (item.weight as int)) as u64
    }
}

/// Rank of an item under a priority, smaller first.
pub open spec fn rank(priority: Priority, item: Item) -> u64 {
    match priority {
        Priority::WeightAscending => item.weight as u64,
        Priority::ValueDescending => (65535 - item.value) as u64,
        Priority::WorthDescending => worth_rank(item),
    }
}

/// Each item paired with its rank and its position.
pub open spec fn keyed(items: Seq<Item>, priority: Priority) -> Seq<(u64, usize)> {
    Seq::new(items.len(), |i: int| (rank(priority, items[i]), i as usize))
}

/// Lexicographic order on (rank, position).
pub open spec fn key_leq(a: (u64, usize), b: (u64, usize)) -> bool {
    a.0 < b.0 || (a.0 == b.0 && a.1 <= b.1)
}

/// `key_leq` as a relation.
pub open spec fn key_order() -> spec_fn((u64, usize), (u64, usize)) -> bool {
    |a: (u64, usize), b: (u64, usize)| key_leq(a, b)
}

/// The items ordered by rank; items of equal rank keep their relative order.
pub open spec fn sorted_items(items: Seq<Item>, priority: Priority) -> Seq<Item> {
    keyed(items, priority).sort_by(key_order()).map_values(|k: (u64, usize)| items[k.1 as int])
}

/// The order on (rank, position) is total.
pub proof fn lemma_key_order_total()
    ensures
        total_ordering(key_order()),
{
}

/// Relies on `slice::sort_unstable`: it leaves the same elements in ascending order, and
/// tuples of integers compare lexicographically.
#[verifier::external_body]
fn sort_keys(v: &mut Vec<(u64, usize)>)
    ensures
        final(v)@.to_multiset() == old(v)@.to_multiset(),
        sorted_by(final(v)@, key_order()),
{
    v.sort_unstable();
}

/// Computes the rank of an item under a priority.
pub fn item_rank(priority: Priority, item: Item) -> (r: u64)
    ensures
        r == rank(priority, item),
{
    match priority {
        Priority::WeightAscending => item.weight as u64,
        Priority::ValueDescending => 65535 - item.value as u64,
        Priority::WorthDescending => {
            if item.weight == 0 {
                if item.value == 0 {
                    2 + MAX_SCALED_RATIO
                } else {
                    0
                }
            } else {
                let scaled = item.value as u64 * RATIO_SCALE;
                let ratio = scaled / item.weight as u64;
                assert(ratio <= scaled) by (nonlinear_arith)
                    requires
                        ratio == scaled / item.weight as u64,
                        item.weight >= 1,
                ;
                1 + MAX_SCALED_RATIO - ratio
            }
        },
    }
}

/// The items ordered by rank under `priority`; items of equal rank keep their relative order.
pub fn sort_by_priority(items: &Vec<Item>, priority: Priority) -> (r: Vec<Item>)
    ensures
        r@ == sorted_items(items@, priority),
{
    let mut keys: Vec<(u64, usize)> = Vec::new();
    let mut i: usize = 0;
    while i < items.len()
        invariant
            i <= items@.len(),
            keys@ == keyed(items@, priority).take(i as int),
        decreases items@.len() - i,
    {
        keys.push((item_rank(priority, items[i]), i));
        i = i + 1;
        assert(keys@ =~= keyed(items@, priority).take(i as int));
    }
    assert(keys@ =~= keyed(items@, priority));
    let ghost unsorted = keys@;
    sort_keys(&mut keys);
    proof {
        lemma_key_order_total();
        unsorted.lemma_sort_by_ensures(key_order());
        vstd::seq_lib::lemma_sorted_unique(keys@, unsorted.sort_by(key_order()), key_order());
        assert forall|p: int| 0 <= p < keys@.len() implies #[trigger] keys@[p].1 < items@.len() by {
            broadcast use vstd::seq_lib::group_to_multiset_ensures;

            assert(keys@.contains(keys@[p]));
            assert(unsorted.contains(keys@[p]));
            let q = choose|q: int| 0 <= q < unsorted.len() && unsorted[q] == keys@[p];
            assert(unsorted[q].1 == q);
        }
    }
    let mut out: Vec<Item> = Vec::new();
    let mut p: usize = 0;
    while p < keys.len()
        invariant
            p <= keys@.len(),
            forall|q: int| 0 <= q < keys@.len() ==> #[trigger] keys@[q].1 < items@.len(),
            out@ == keys@.take(p as int).map_values(|k: (u64, usize)| items@[k.1 as int]),
        decreases keys@.len() - p,
    {
        let k = keys[p];
        out.push(items[k.1]);
        p = p + 1;
        assert(out@ =~= keys@.take(p as int).map_values(|k: (u64, usize)| items@[k.1 as int]));
    }
    assert(keys@.take(p as int) =~= keys@);
    out
}

/// The floor of `x / d` lies within one step below `x / d`.
proof fn lemma_floor_bounds(x: int, d: int)
    requires
        x >= 0,
        d > 0,
    ensures
        (x / d) * d <= x < (x / d) * d + d,
        x / d >= 0,
{
    vstd::arithmetic::div_mod::lemma_fundamental_div_mod(x, d);
    vstd::arithmetic::div_mod::lemma_mod_pos_bound(x, d);
    vstd::arithmetic::div_mod::lemma_div_pos_is_pos(x, d);
    assert(d * (x / d) == (x / d) * d) by (nonlinear_arith);
}

/// A ratio that is not higher does not get a larger scaled floor.
proof fn lemma_scaled_monotone(va: int, wa: int, vb: int, wb: int)
    requires
        va >= 0,
        vb >= 0,
        wa > 0,
        wb > 0,
        va * wb <= vb * wa,
    ensures
        (va * RATIO_SCALE) / wa <= (vb * RATIO_SCALE) / wb,
{
    let s = RATIO_SCALE as int;
    let qa = (va * s) / wa;
    let qb = (vb * s) / wb;
    lemma_floor_bounds(va * s, wa);
    lemma_floor_bounds(vb * s, wb);
    if qa > qb {
        assert(qa * wb >= (qb + 1) * wb) by (nonlinear_arith)
            requires
                qa >= qb + 1,
                wb > 0,
        ;
        assert((qb + 1) * wb == qb * wb + wb) by (nonlinear_arith);
        assert(qa * wb * wa > vb * s * wa) by (nonlinear_arith)
            requires
                qa * wb > vb * s,
                wa > 0,
        ;
        assert(vb * s * wa >= va * wb * s) by (nonlinear_arith)
            requires
                va * wb <= vb * wa,
                s > 0,
        ;
        assert(va * wb * s >= qa * wa * wb) by (nonlinear_arith)
            requires
                qa * wa <= va * s,
                wb > 0,
        ;
        assert(qa * wb * wa == qa * wa * wb) by (nonlinear_arith);
    }
}

/// A strictly higher ratio gets a strictly larger scaled floor, since the two ratios differ by
/// at least `1 / (wa * wb)` and `wa * wb` stays below the scale.
proof fn lemma_scaled_strict(va: int, wa: int, vb: int, wb: int)
    requires
        va >= 0,
        vb >= 0,
        0 < wa <= 65535,
        0 < wb <= 65535,
        va * wb > vb * wa,
    ensures
        (vb * RATIO_SCALE) / wb < (va * RATIO_SCALE) / wa,
{
    let s = RATIO_SCALE as int;
    let qa = (va * s) / wa;
    let qb = (vb * s) / wb;
    lemma_floor_bounds(va * s, wa);
    lemma_floor_bounds(vb * s, wb);
    assert(wa * wb <= 65535 * 65535) by (nonlinear_arith)
        requires
            0 < wa <= 65535,
            0 < wb <= 65535,
    ;
    assert((qb + 1) * wb * wa <= (vb * s + wb) * wa) by (nonlinear_arith)
        requires
            qb * wb <= vb * s,
            wa > 0,
    ;
    assert((vb * s + wb) * wa == vb * wa * s + wa * wb) by (nonlinear_arith);
    assert(vb * wa * s <= (va * wb - 1) * s) by (nonlinear_arith)
        requires
            vb * wa <= va * wb - 1,
            s > 0,
    ;
    assert((va * wb - 1) * s == va * wb * s - s) by (nonlinear_arith);
    assert((qb + 1) * wa * wb <= va * s * wb) by (nonlinear_arith)
        requires
            (qb + 1) * wb * wa <= va * wb * s - s + wa * wb,
            wa * wb <= s,
    ;
    assert((qb + 1) * wa <= va * s) by (nonlinear_arith)
        requires
            (qb + 1) * wa * wb <= va * s * wb,
            wb > 0,
    ;
    if qa <= qb {
        assert(qa * wa + wa <= (qb + 1) * wa) by (nonlinear_arith)
            requires
                qa <= qb,
                wa > 0,
        ;
    }
}

/// Ranking by worth orders items by value per unit of weight: of two items that weigh
/// something, one ranks before the other exactly when its ratio is higher, and they rank
/// alike exactly when their ratios are equal.
pub proof fn lemma_worth_rank_orders_ratios(a: Item, b: Item)
    requires
        a.weight > 0,
        b.weight > 0,
    ensures
        worth_rank(a) < worth_rank(b) <==> a.value * b.weight > b.value * a.weight,
        worth_rank(a) == worth_rank(b) <==> a.value * b.weight == b.value * a.weight,
{
    let va = a.value as int;
    let wa = a.weight as int;
    let vb = b.value as int;
    let wb = b.weight as int;
    lemma_floor_bounds(va * RATIO_SCALE, wa);
    lemma_floor_bounds(vb * RATIO_SCALE, wb);
    assert((va * RATIO_SCALE) / wa <= va * RATIO_SCALE) by (nonlinear_arith)
        requires
            ((va * RATIO_SCALE) / wa) * wa <= va * RATIO_SCALE,
            (va * RATIO_SCALE) / wa >= 0,
            wa > 0,
    ;
    assert((vb * RATIO_SCALE) / wb <= vb * RATIO_SCALE) by (nonlinear_arith)
        requires
            ((vb * RATIO_SCALE) / wb) * wb <= vb * RATIO_SCALE,
            (vb * RATIO_SCALE) / wb >= 0,
            wb > 0,
    ;
    if va * wb > vb * wa {
        lemma_scaled_strict(va, wa, vb, wb);
    } else if va * wb < vb * wa {
        lemma_scaled_strict(vb, wb, va, wa);
    } else {
        lemma_scaled_monotone(va, wa, vb, wb);
        lemma_scaled_monotone(vb, wb, va, wa);
    }
}

} // verus!
