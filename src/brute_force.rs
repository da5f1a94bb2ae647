use vstd::prelude::*;
use vstd::std_specs::bits::{axiom_u64_trailing_zeros, u64_trailing_zeros};

use crate::dynamic_programming::best;
use crate::{lemma_push_totals, total_value, total_weight, Item, ItemSet, Knapsack, MAX_ITEM_VALUE};

verus! {

/// Whether bit `k` of `m` is set.
pub open spec fn bit(m: u64, k: nat) -> bool {
    k < 64 && (m >> (k as u64)) & 1u64 == 1u64
}

/// The reflected binary (Gray) code of `x`.
pub open spec fn gray(x: u64) -> u64 {
    x ^ (x >> 1u64)
}

/// The inverse of `gray`: the prefix xor of the bits of `m`, from the top down.
pub open spec fn gray_inverse(m: u64) -> u64 {
    let a = m ^ (m >> 1u64);
    let b = a ^ (a >> 2u64);
    let c = b ^ (b >> 4u64);
    let d = c ^ (c >> 8u64);
    let e = d ^ (d >> 16u64);
    e ^ (e >> 32u64)
}

/// A subset of item positions, one bit per position.
#[derive(Debug, Clone, Copy, PartialEq, Eq, Structural)]
pub struct BitString {
    pub data: u64,
}

impl BitString {
    /// The subset whose members are the set bits of `data`.
    pub fn new(data: u64) -> (b: Self)
        ensures
            b.data == data,
    {
        BitString { data }
    }

    /// Whether position `index` is in the subset.
    pub fn is_bit_set(&self, index: usize) -> (r: bool)
        requires
            index < 64,
        ensures
            r == bit(self.data, index as nat),
    {
        proof {
            lemma_bit_test(self.data, index as u64);
        }
        (self.data & (1u64 << index as u64)) != 0
    }

    /// The lowest position in the subset; 64 for the empty subset.
    pub fn least_significant_bit(&self) -> (r: usize)
        ensures
            r == u64_trailing_zeros(self.data),
    {
        self.data.trailing_zeros() as usize
    }

    /// Adds position `index` to the subset, or removes it.
    pub fn flip_bit(&mut self, index: usize)
        requires
            index < 64,
        ensures
            final(self).data == old(self).data ^ (1u64 << index as u64),
    {
        self.data = self.data ^ (1u64 << index as u64);
    }
}

proof fn lemma_bit_test(m: u64, k: u64)
    requires
        k < 64,
    ensures
        ((m & (1u64 << k)) != 0) == ((m >> k) & 1u64 == 1u64),
{
    assert(k < 64 ==> (((m & (1u64 << k)) != 0) == ((m >> k) & 1u64 == 1u64))) by (bit_vector);
}

/// Consecutive Gray codes differ in the lowest set bit of the later index.
proof fn lemma_gray_step(x: u64)
    requires
        x >= 1,
    ensures
        u64_trailing_zeros(x) < 64,
        gray(x) == gray((x - 1) as u64) ^ (1u64 << u64_trailing_zeros(x) as u64),
{
    axiom_u64_trailing_zeros(x);
    let t = u64_trailing_zeros(x) as u64;
    let s = (64 - t) as u64;
    let y = (x - 1) as u64;
    assert(t < 64 && s == 64 - t && y == x - 1 && (x >> t) & 1u64 == 1u64 && x << s == 0 ==> (x
        ^ (x >> 1u64)) == (y ^ (y >> 1u64)) ^ (1u64 << t)) by (bit_vector);
}

/// Below `2^n`, the lowest set bit of a nonzero number is below `n`.
proof fn lemma_lowest_bit_below(x: u64, n: u64)
    requires
        1 <= x < (1u64 << n),
        n < 64,
    ensures
        u64_trailing_zeros(x) < n,
{
    axiom_u64_trailing_zeros(x);
    let t = u64_trailing_zeros(x) as u64;
    assert(t < 64 && (x >> t) & 1u64 == 1u64 && x < (1u64 << n) && n < 64 ==> t < n) by (bit_vector);
}

/// The Gray code maps `[0, 2^n)` onto itself, with `gray_inverse` as inverse.
proof fn lemma_gray_onto(m: u64, n: u64)
    requires
        m < (1u64 << n),
        n < 64,
    ensures
        gray_inverse(m) < (1u64 << n),
        gray(gray_inverse(m)) == m,
        gray(m) < (1u64 << n),
{
    assert(gray(gray_inverse(m)) == m) by (bit_vector);
    assert(m < (1u64 << n) && n < 64 ==> gray_inverse(m) < (1u64 << n)) by (bit_vector);
    assert(m < (1u64 << n) && n < 64 ==> gray(m) < (1u64 << n)) by (bit_vector);
}

/// Flipping bit `t` changes that bit and no other.
proof fn lemma_flip(m: u64, t: u64, k: nat)
    requires
        t < 64,
    ensures
        bit(m ^ (1u64 << t), k) == if k == t {
            !bit(m, k)
        } else {
            bit(m, k)
        },
{
    if k < 64 {
        let kk = k as u64;
        assert(t < 64 && kk < 64 ==> (((m ^ (1u64 << t)) >> kk) & 1u64 == 1u64) == if kk == t {
            !((m >> kk) & 1u64 == 1u64)
        } else {
            (m >> kk) & 1u64 == 1u64
        }) by (bit_vector);
    }
}

/// The items among the first `i` whose bit is set in `m`, in index order.
pub open spec fn mask_items(items: Seq<Item>, m: u64, i: nat) -> Seq<Item>
    decreases i,
{
    if i == 0 || i > items.len() {
        Seq::empty()
    } else {
        let prev = mask_items(items, m, (i - 1) as nat);
        if bit(m, (i - 1) as nat) {
            prev.push(items[i - 1])
        } else {
            prev
        }
    }
}

/// Every item weighs something.
pub open spec fn positive_weights(items: Seq<Item>) -> bool {
    forall|k: int| 0 <= k < items.len() ==> #[trigger] items[k].weight > 0
}

/// The subset `m` of the first `n` items fits the budget.
pub open spec fn fits(items: Seq<Item>, n: nat, capacity: nat, m: u64) -> bool {
    total_weight(mask_items(items, m, n)) <= capacity
}

/// The value of the subset `m` of the first `n` items.
pub open spec fn mask_value(items: Seq<Item>, n: nat, m: u64) -> nat {
    total_value(mask_items(items, m, n))
}

/// `m` is the subset that the Gray-code enumeration of the first `n` items settles on: it fits,
/// no fitting subset is worth more than `value`, and it is the first fitting subset worth
/// `value` in enumeration order (the empty subset, at position 0, when none is worth more).
pub open spec fn first_best(items: Seq<Item>, n: nat, capacity: nat, m: u64, value: nat) -> bool {
    &&& n < 64
    &&& m < (1u64 << n as u64)
    &&& fits(items, n, capacity, m)
    &&& mask_value(items, n, m) == value
    &&& forall|x: u64|
        x < (1u64 << n as u64) && #[trigger] fits(items, n, capacity, x) ==> mask_value(
            items,
            n,
            x,
        ) <= value
    &&& exists|k: u64|
        k < (1u64 << n as u64) && gray(k) == m && forall|k2: u64|
            k2 < k ==> !fits(items, n, capacity, #[trigger] gray(k2)) || mask_value(
                items,
                n,
                gray(k2),
            ) < value
}

proof fn lemma_mask_ext(items: Seq<Item>, m1: u64, m2: u64, i: nat)
    requires
        forall|k: nat| k < i ==> bit(m1, k) == bit(m2, k),
    ensures
        mask_items(items, m1, i) == mask_items(items, m2, i),
    decreases i,
{
    if i > 0 {
        lemma_mask_ext(items, m1, m2, (i - 1) as nat);
    }
}

proof fn lemma_mask_bounded(items: Seq<Item>, m: u64, i: nat)
    ensures
        total_weight(mask_items(items, m, i)) <= i * MAX_ITEM_VALUE,
        total_value(mask_items(items, m, i)) <= i * MAX_ITEM_VALUE,
    decreases i,
{
    if i > 0 && i <= items.len() {
        lemma_mask_bounded(items, m, (i - 1) as nat);
        lemma_push_totals(mask_items(items, m, (i - 1) as nat), items[i - 1]);
    }
}

proof fn lemma_mask_flip(items: Seq<Item>, m: u64, t: u64, i: nat)
    requires
        t < i <= items.len(),
        i < 64,
    ensures
        bit(m, t as nat) ==> {
            &&& total_weight(mask_items(items, m, i)) == total_weight(
                mask_items(items, m ^ (1u64 << t), i),
            ) + items[t as int].weight
            &&& total_value(mask_items(items, m, i)) == total_value(
                mask_items(items, m ^ (1u64 << t), i),
            ) + items[t as int].value
        },
        !bit(m, t as nat) ==> {
            &&& total_weight(mask_items(items, m ^ (1u64 << t), i)) == total_weight(
                mask_items(items, m, i),
            ) + items[t as int].weight
            &&& total_value(mask_items(items, m ^ (1u64 << t), i)) == total_value(
                mask_items(items, m, i),
            ) + items[t as int].value
        },
    decreases i,
{
    let f = m ^ (1u64 << t);
    let k = (i - 1) as nat;
    lemma_flip(m, t, k);
    if k > t {
        lemma_mask_flip(items, m, t, k);
        lemma_push_totals(mask_items(items, m, k), items[k as int]);
        lemma_push_totals(mask_items(items, f, k), items[k as int]);
    } else {
        assert forall|kk: nat| kk < k implies bit(m, kk) == bit(f, kk) by {
            lemma_flip(m, t, kk);
        }
        lemma_mask_ext(items, m, f, k);
        lemma_push_totals(mask_items(items, m, k), items[k as int]);
    }
}

/// No subset that fits a budget is worth more than the best value for that budget.
pub proof fn lemma_best_bounds_subsets(items: Seq<Item>, m: u64, i: nat, j: nat)
    requires
        positive_weights(items),
        i <= items.len(),
        total_weight(mask_items(items, m, i)) <= j,
    ensures
        total_value(mask_items(items, m, i)) <= best(items, i, j),
    decreases i,
{
    if i > 0 {
        let k = (i - 1) as nat;
        let prev = mask_items(items, m, k);
        lemma_push_totals(prev, items[k as int]);
        if bit(m, k) {
            assert(items[k as int].weight > 0);
            lemma_best_bounds_subsets(items, m, k, (j - items[k as int].weight) as nat);
        } else {
            lemma_best_bounds_subsets(items, m, k, j);
        }
    }
}

proof fn lemma_empty_mask(items: Seq<Item>, i: nat)
    ensures
        mask_items(items, 0u64, i) == Seq::<Item>::empty(),
    decreases i,
{
    if i > 0 {
        lemma_empty_mask(items, (i - 1) as nat);
        let k = (i - 1) as nat;
        if k < 64 {
            let kk = k as u64;
            assert((0u64 >> kk) & 1u64 == 0u64) by (bit_vector);
        }
    }
}

/// Some subset that fits the budget reaches the best value.
pub proof fn lemma_best_reached(items: Seq<Item>, i: nat, j: nat) -> (m: u64)
    requires
        i <= items.len(),
        i < 64,
    ensures
        m < (1u64 << i as u64),
        total_weight(mask_items(items, m, i)) <= j,
        total_value(mask_items(items, m, i)) == best(items, i, j),
    decreases i,
{
    if i == 0 || j == 0 {
        lemma_empty_mask(items, i);
        let ii = i as u64;
        assert(ii < 64 ==> 0u64 < (1u64 << ii)) by (bit_vector);
        0u64
    } else {
        let k = (i - 1) as nat;
        let kk = k as u64;
        let item = items[k as int];
        let ii = i as u64;
        assert(ii == kk + 1 && kk < 63 ==> (1u64 << kk) < (1u64 << ii)) by (bit_vector);
        if best(items, i, j) == best(items, k, j) {
            let m0 = lemma_best_reached(items, k, j);
            assert(m0 < (1u64 << kk) && kk < 63 ==> (m0 >> kk) & 1u64 == 0u64) by (bit_vector);
            assert(mask_items(items, m0, i) == mask_items(items, m0, k));
            m0
        } else {
            let m0 = lemma_best_reached(items, k, (j - item.weight) as nat);
            let m = m0 | (1u64 << kk);
            assert(m == m0 | (1u64 << kk) && ii == kk + 1 && m0 < (1u64 << kk) && kk < 63 ==> m < (1u64
                << ii)) by (bit_vector);
            assert(m == m0 | (1u64 << kk) && kk < 63 ==> (m >> kk) & 1u64 == 1u64) by (bit_vector);
            assert forall|x: nat| x < k implies bit(m, x) == bit(m0, x) by {
                let xx = x as u64;
                assert(m == m0 | (1u64 << kk) && xx < kk && kk < 63 ==> ((m >> xx) & 1u64 == 1u64) == ((m0 >> xx) & 1u64
                    == 1u64)) by (bit_vector);
            }
            lemma_mask_ext(items, m, m0, k);
            lemma_push_totals(mask_items(items, m0, k), item);
            m
        }
    }
}

/// An instance for exhaustive search: parallel weights and values, and a weight limit.
pub struct BruteForceKnapsack {
    pub weights: Vec<u16>,
    pub values: Vec<u16>,
    pub max_weight: u64,
    pub total_items: usize,
}

impl BruteForceKnapsack {
    /// The instance is consistent and small enough to enumerate with a 64-bit counter.
    pub open spec fn wf(&self) -> bool {
        &&& self.total_items < 64
        &&& self.weights@.len() == self.total_items
        &&& self.values@.len() == self.total_items
    }

    /// The items of the instance.
    pub open spec fn items(&self) -> Seq<Item> {
        Seq::new(
            self.total_items as nat,
            |i: int| Item { weight: self.weights@[i], value: self.values@[i] },
        )
    }

    /// An instance of `total_items` items that all weigh and are worth nothing.
    pub fn new(max_weight: u64, total_items: usize) -> (k: Self)
        requires
            total_items < 64,
        ensures
            k.wf(),
            k.max_weight == max_weight,
            k.total_items == total_items,
            forall|i: int| 0 <= i < total_items ==> k.weights@[i] == 0 && k.values@[i] == 0,
    {
        BruteForceKnapsack {
            weights: vec![0u16; total_items],
            values: vec![0u16; total_items],
            max_weight,
            total_items,
        }
    }

    /// Enumerates every subset in Gray-code order, updating the running totals by the one bit
    /// that changes, and keeps the first subset that fits and is worth the most.
    pub fn solve(&self) -> (r: (BitString, u64))
        requires
            self.wf(),
        ensures
            first_best(self.items(), self.total_items as nat, self.max_weight as nat, r.0.data, r.1 as nat),
    {
        let ghost items = self.items();
        let ghost n = self.total_items as nat;
        let ghost cap = self.max_weight as nat;
        let mut bit_str = BitString::new(0);
        let mut max_value: u64 = 0;
        let mut best_subset = BitString::new(0);
        let mut current_weight: u64 = 0;
        let mut current_value: u64 = 0;
        let count: u64 = 1u64 << self.total_items as u64;
        proof {
            lemma_empty_mask(items, n);
            let nn = n as u64;
            assert(nn < 64 ==> 0u64 < (1u64 << nn)) by (bit_vector);
            assert(gray(0u64) == 0u64) by (bit_vector);
        }
        let mut i: u64 = 1;
        while i < count
            invariant
                self.wf(),
                items == self.items(),
                n == self.total_items,
                cap == self.max_weight,
                count == (1u64 << n as u64),
                1 <= i <= count,
                bit_str.data == gray((i - 1) as u64),
                bit_str.data < count,
                current_weight == total_weight(mask_items(items, bit_str.data, n)),
                current_value == total_value(mask_items(items, bit_str.data, n)),
                best_subset.data < count,
                fits(items, n, cap, best_subset.data),
                mask_value(items, n, best_subset.data) == max_value,
                forall|k: u64|
                    1 <= k < i && fits(items, n, cap, #[trigger] gray(k)) ==> mask_value(
                        items,
                        n,
                        gray(k),
                    ) <= max_value,
                exists|kb: u64|
                    kb < i && gray(kb) == best_subset.data && forall|k2: u64|
                        k2 < kb ==> !fits(items, n, cap, #[trigger] gray(k2)) || mask_value(
                            items,
                            n,
                            gray(k2),
                        ) < max_value,
            decreases count - i,
        {
            let ghost before = bit_str.data;
            let lsb = BitString::new(i).least_significant_bit();
            proof {
                lemma_gray_step(i);
                lemma_lowest_bit_below(i, n as u64);
                lemma_gray_onto(i, n as u64);
                lemma_mask_flip(items, before, lsb as u64, n);
                lemma_mask_bounded(items, before, n);
                lemma_mask_bounded(items, before ^ (1u64 << lsb as u64), n);
                assert(n * MAX_ITEM_VALUE <= 63 * MAX_ITEM_VALUE);
            }
            bit_str.flip_bit(lsb);
            if bit_str.is_bit_set(lsb) {
                proof {
                    lemma_flip(before, lsb as u64, lsb as nat);
                }
                current_weight = current_weight + self.weights[lsb] as u64;
                current_value = current_value + self.values[lsb] as u64;
            } else {
                proof {
                    lemma_flip(before, lsb as u64, lsb as nat);
                }
                current_weight = current_weight - self.weights[lsb] as u64;
                current_value = current_value - self.values[lsb] as u64;
            }
            if current_weight <= self.max_weight {
                if max_value < current_value {
                    max_value = current_value;
                    best_subset = bit_str;
                    proof {
                        assert forall|k2: u64| k2 < i implies !fits(items, n, cap, #[trigger] gray(k2))
                            || mask_value(items, n, gray(k2)) < max_value by {
                            if k2 == 0 {
                                assert(gray(0u64) == 0u64) by (bit_vector);
                                lemma_empty_mask(items, n);
                            }
                        }
                    }
                }
            }
            i = i + 1;
        }
        proof {
            assert forall|x: u64| x < (1u64 << n as u64) && #[trigger] fits(items, n, cap, x)
                implies mask_value(items, n, x) <= max_value by {
                lemma_gray_onto(x, n as u64);
                let k = gray_inverse(x);
                if k == 0 {
                    assert(gray(0u64) == 0u64) by (bit_vector);
                    lemma_empty_mask(items, n);
                } else {
                    assert(fits(items, n, cap, gray(k)));
                }
            }
        }
        (best_subset, max_value)
    }
}

/// Finds a best selection by trying every subset of the items.
pub fn brute_force(set: &ItemSet, capacity: usize) -> (k: Knapsack)
    requires
        set@.len() < 64,
    ensures
        k.wf(),
        total_weight(k@) <= capacity,
        exists|m: u64|
            #![trigger mask_items(set@, m, set@.len())]
            first_best(set@, set@.len(), capacity as nat, m, total_value(k@)) && k@ == mask_items(
                set@,
                m,
                set@.len(),
            ),
{
    let n = set.len();
    let mut instance = BruteForceKnapsack::new(capacity as u64, n);
    let mut i: usize = 0;
    while i < n
        invariant
            n == set@.len(),
            i <= n,
            instance.wf(),
            instance.total_items == n,
            instance.max_weight == capacity,
            forall|k: int|
                0 <= k < i ==> #[trigger] instance.weights@[k] == set@[k].weight
                    && instance.values@[k] == set@[k].value,
        decreases n - i,
    {
        instance.weights.set(i, set.items[i].weight);
        instance.values.set(i, set.items[i].value);
        i = i + 1;
    }
    assert(instance.items() =~= set@);
    let (subset, _value) = instance.solve();
    let mut knapsack = Knapsack::new();
    let mut j: usize = 0;
    while j < n
        invariant
            n == set@.len(),
            n < 64,
            j <= n,
            knapsack.wf(),
            knapsack@ == mask_items(set@, subset.data, j as nat),
        decreases n - j,
    {
        proof {
            lemma_mask_bounded(set@, subset.data, j as nat);
            lemma_push_totals(knapsack@, set@[j as int]);
            assert(j * MAX_ITEM_VALUE + MAX_ITEM_VALUE <= 64 * MAX_ITEM_VALUE);
        }
        if subset.is_bit_set(j) {
            knapsack.insert(set.items[j]);
        }
        j = j + 1;
    }
    knapsack
}

} // verus!
