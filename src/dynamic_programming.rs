use vstd::prelude::*;

use crate::{
    lemma_push_totals, total_value, total_weight, values_fit, Item, ItemSet, Knapsack,
    MAX_ITEM_VALUE,
};

verus! {

/// The best total value reachable with the first `i` items under the weight budget `j`.
pub open spec fn best(items: Seq<Item>, i: nat, j: nat) -> nat
    decreases i,
{
    if i == 0 || j == 0 || i > items.len() {
        0
    } else {
        let item = items[i - 1];
        let skip = best(items, (i - 1) as nat, j);
        if j < item.weight {
            skip
        } else {
            let take = item.value + best(items, (i - 1) as nat, (j - item.weight) as nat);
            if take > skip {
                take as nat
            } else {
                skip
            }
        }
    }
}

/// The items that backtracking recovers from cell `(i, j)`, highest index first.
/// An item is taken exactly when it changes the best value (equal values leave it out).
pub open spec fn chosen(items: Seq<Item>, i: nat, j: nat) -> Seq<Item>
    decreases i,
{
    if i == 0 || j == 0 || i > items.len() {
        Seq::empty()
    } else if best(items, i, j) != best(items, (i - 1) as nat, j) {
        seq![items[i - 1]] + chosen(items, (i - 1) as nat, (j - items[i - 1].weight) as nat)
    } else {
        chosen(items, (i - 1) as nat, j)
    }
}

/// `v` has `n + 1` rows of `capacity + 1` cells each.
pub open spec fn table_shape(v: Seq<Vec<i64>>, n: nat, capacity: nat) -> bool {
    &&& v.len() == n + 1
    &&& forall|i: int| 0 <= i <= n ==> (#[trigger] v[i])@.len() == capacity + 1
}

/// Cell `(i, j)` of `v` holds the best value for the first `i` items under budget `j`.
pub open spec fn solved(items: Seq<Item>, v: Seq<Vec<i64>>, i: nat, j: nat) -> bool {
    v[i as int]@[j as int] == best(items, i, j)
}

/// A table that backtracking can read: the corner cell is solved, and every solved cell
/// inside the borders has solved cells at both places the recurrence reads.
pub open spec fn backtrackable(items: Seq<Item>, v: Seq<Vec<i64>>, capacity: nat) -> bool {
    &&& table_shape(v, items.len(), capacity)
    &&& solved(items, v, items.len(), capacity)
    &&& forall|i: nat, j: nat|
        1 <= i <= items.len() && 1 <= j <= capacity && #[trigger] solved(items, v, i, j) ==> {
            &&& solved(items, v, (i - 1) as nat, j)
            &&& (items[i - 1].weight <= j ==> solved(
                items,
                v,
                (i - 1) as nat,
                (j - items[i - 1].weight) as nat,
            ))
        }
}

/// No best value exceeds what `i` items can carry at most.
pub proof fn lemma_best_bounded(items: Seq<Item>, i: nat, j: nat)
    ensures
        best(items, i, j) <= i * MAX_ITEM_VALUE,
    decreases i,
{
    if i == 0 || j == 0 || i > items.len() {
    } else {
        lemma_best_bounded(items, (i - 1) as nat, j);
        if j >= items[i - 1].weight {
            lemma_best_bounded(items, (i - 1) as nat, (j - items[i - 1].weight) as nat);
        }
    }
}

/// Fills the table row by row: cell `(i, j)` is the best value for the first `i` items
/// under budget `j`.
pub fn create_bottom_up_table(set: &ItemSet, capacity: usize) -> (v: Vec<Vec<i64>>)
    requires
        values_fit(set@),
        capacity < usize::MAX,
    ensures
        table_shape(v@, set@.len(), capacity as nat),
        forall|i: nat, j: nat|
            i <= set@.len() && j <= capacity ==> #[trigger] solved(set@, v@, i, j),
{
    let n = set.len();
    let mut v: Vec<Vec<i64>> = Vec::new();
    v.push(vec![0i64; capacity + 1]);
    let mut i: usize = 1;
    while i <= n
        invariant
            1 <= i <= n + 1,
            n == set@.len(),
            values_fit(set@),
            capacity < usize::MAX,
            table_shape(v@, (i - 1) as nat, capacity as nat),
            forall|ii: nat, j: nat|
                ii < i && j <= capacity ==> #[trigger] solved(set@, v@, ii, j),
        decreases n + 1 - i,
    {
        let item = set.items[i - 1];
        let mut row: Vec<i64> = Vec::with_capacity(capacity + 1);
        let mut j: usize = 0;
        while j <= capacity
            invariant
                1 <= i <= n,
                n == set@.len(),
                item == set@[i - 1],
                values_fit(set@),
                capacity < usize::MAX,
                j <= capacity + 1,
                row@.len() == j,
                table_shape(v@, (i - 1) as nat, capacity as nat),
                forall|ii: nat, jj: nat|
                    ii < i && jj <= capacity ==> #[trigger] solved(set@, v@, ii, jj),
                forall|jj: int| 0 <= jj < j ==> row@[jj] == best(set@, i as nat, jj as nat),
            decreases capacity + 1 - j,
        {
            assert(solved(set@, v@, (i - 1) as nat, j as nat));
            let cell = if j == 0 {
                0
            } else if j < item.weight as usize {
                v[i - 1][j]
            } else {
                let w = item.weight as usize;
                assert(solved(set@, v@, (i - 1) as nat, (j - w) as nat));
                proof {
                    lemma_best_bounded(set@, (i - 1) as nat, (j - w) as nat);
                    assert((i - 1) * MAX_ITEM_VALUE + MAX_ITEM_VALUE == i * MAX_ITEM_VALUE);
                    assert(i * MAX_ITEM_VALUE <= n * MAX_ITEM_VALUE) by (nonlinear_arith)
                        requires
                            i <= n,
                    ;
                }
                let skip = v[i - 1][j];
                let take = item.value as i64 + v[i - 1][j - w];
                if take > skip {
                    take
                } else {
                    skip
                }
            };
            row.push(cell);
            j = j + 1;
        }
        let ghost prev = v@;
        v.push(row);
        proof {
            assert forall|ii: nat, jj: nat| ii < i + 1 && jj <= capacity implies #[trigger] solved(
                set@,
                v@,
                ii,
                jj,
            ) by {
                if ii < i {
                    assert(solved(set@, prev, ii, jj));
                    assert(v@[ii as int] == prev[ii as int]);
                }
            }
        }
        i = i + 1;
    }
    v
}

/// Walks a table from its corner and collects the items that change the best value.
pub fn backtrack(set: &ItemSet, capacity: usize, v: Vec<Vec<i64>>) -> (k: Knapsack)
    requires
        values_fit(set@),
        backtrackable(set@, v@, capacity as nat),
    ensures
        k.wf(),
        k@ == chosen(set@, set@.len(), capacity as nat),
        total_weight(k@) <= capacity,
        total_value(k@) == best(set@, set@.len(), capacity as nat),
{
    let mut knapsack = Knapsack::new();
    let mut i = set.len();
    let mut j = capacity;
    let ghost n = set@.len();
    proof {
        lemma_best_bounded(set@, n, capacity as nat);
        assert(n * MAX_ITEM_VALUE <= usize::MAX);
    }
    while i > 0 && j > 0
        invariant
            i <= n,
            j <= capacity,
            n == set@.len(),
            values_fit(set@),
            backtrackable(set@, v@, capacity as nat),
            knapsack.wf(),
            solved(set@, v@, i as nat, j as nat),
            knapsack@ + chosen(set@, i as nat, j as nat) == chosen(set@, n, capacity as nat),
            total_weight(knapsack@) + j == capacity,
            total_value(knapsack@) + best(set@, i as nat, j as nat) == best(
                set@,
                n,
                capacity as nat,
            ),
            best(set@, n, capacity as nat) <= n * MAX_ITEM_VALUE,
        decreases i,
    {
        let item = set.items[i - 1];
        assert(solved(set@, v@, (i - 1) as nat, j as nat));
        if v[i][j] != v[i - 1][j] {
            proof {
                lemma_push_totals(knapsack@, item);
                let rest = chosen(set@, (i - 1) as nat, (j - item.weight) as nat);
                assert(knapsack@.push(item) + rest =~= knapsack@ + (seq![item] + rest));
            }
            knapsack.insert(item);
            j = j - item.weight as usize;
        }
        i = i - 1;
    }
    assert(knapsack@ + Seq::<Item>::empty() =~= knapsack@);
    knapsack
}

/// Solves the instance exactly with the bottom-up table.
pub fn bottom_up(set: &ItemSet, capacity: usize) -> (k: Knapsack)
    requires
        values_fit(set@),
        capacity < usize::MAX,
    ensures
        k.wf(),
        k@ == chosen(set@, set@.len(), capacity as nat),
        total_weight(k@) <= capacity,
        total_value(k@) == best(set@, set@.len(), capacity as nat),
{
    let v = create_bottom_up_table(set, capacity);
    assert(solved(set@, v@, set@.len(), capacity as nat));
    backtrack(set, capacity, v)
}

} // verus!

verus! {

/// Counters of the memoized builder; they do not affect the table.
#[derive(Debug, Default)]
pub struct TopDownTableMetrics {
    pub cache_miss: usize,
    pub cache_hit: usize,
}

/// The marker of a cell that the memoized builder has not computed.
pub const UNCOMPUTED: i64 = -1;

/// How many of the columns `1..=j` of row `r` hold a computed value.
pub open spec fn row_filled(r: Seq<i64>, j: nat) -> nat
    decreases j,
{
    if j == 0 {
        0
    } else {
        row_filled(r, (j - 1) as nat) + if r[j as int] >= 0 {
            1nat
        } else {
            0nat
        }
    }
}

/// How many cells inside the borders (rows `1..=i`, columns `1..=capacity`) are computed.
pub open spec fn filled(v: Seq<Vec<i64>>, i: nat, capacity: nat) -> nat
    decreases i,
{
    if i == 0 {
        0
    } else {
        filled(v, (i - 1) as nat, capacity) + row_filled(v[i as int]@, capacity)
    }
}

/// A table of the memoized builder: borders hold zero, every cell is either uncomputed or
/// solved, and each solved cell inside the borders has solved cells where the recurrence reads.
pub open spec fn memo_table(items: Seq<Item>, v: Seq<Vec<i64>>, capacity: nat) -> bool {
    &&& table_shape(v, items.len(), capacity)
    &&& forall|i: nat, j: nat|
        i <= items.len() && j <= capacity ==> {
            &&& (i == 0 || j == 0 ==> solved(items, v, i, j))
            &&& (#[trigger] v[i as int]@[j as int] == UNCOMPUTED || solved(items, v, i, j))
        }
    &&& forall|i: nat, j: nat|
        1 <= i <= items.len() && 1 <= j <= capacity && #[trigger] solved(items, v, i, j) ==> {
            &&& solved(items, v, (i - 1) as nat, j)
            &&& (items[i - 1].weight <= j ==> solved(
                items,
                v,
                (i - 1) as nat,
                (j - items[i - 1].weight) as nat,
            ))
        }
}

/// A table of `n + 1` rows of `capacity + 1` eight-byte cells is addressable.
pub open spec fn table_fits(n: nat, capacity: nat) -> bool {
    (n + 1) * (capacity + 1) * 8 <= usize::MAX
}

proof fn lemma_row_filled_ext(r1: Seq<i64>, r2: Seq<i64>, j: nat)
    requires
        forall|jj: int| 1 <= jj <= j ==> r1[jj] == r2[jj],
    ensures
        row_filled(r1, j) == row_filled(r2, j),
    decreases j,
{
    if j > 0 {
        lemma_row_filled_ext(r1, r2, (j - 1) as nat);
    }
}

proof fn lemma_row_filled_update(r: Seq<i64>, j: nat, k: int, x: i64)
    requires
        1 <= k <= j < r.len(),
        r[k] < 0,
        x >= 0,
    ensures
        row_filled(r.update(k, x), j) == row_filled(r, j) + 1,
    decreases j,
{
    if j > k {
        lemma_row_filled_update(r, (j - 1) as nat, k, x);
    } else {
        lemma_row_filled_ext(r.update(k, x), r, (j - 1) as nat);
    }
}

proof fn lemma_row_filled_bounded(r: Seq<i64>, j: nat)
    ensures
        row_filled(r, j) <= j,
    decreases j,
{
    if j > 0 {
        lemma_row_filled_bounded(r, (j - 1) as nat);
    }
}

proof fn lemma_row_filled_none(r: Seq<i64>, j: nat)
    requires
        forall|jj: int| 1 <= jj <= j ==> r[jj] < 0,
    ensures
        row_filled(r, j) == 0,
    decreases j,
{
    if j > 0 {
        lemma_row_filled_none(r, (j - 1) as nat);
    }
}

proof fn lemma_filled_ext(v1: Seq<Vec<i64>>, v2: Seq<Vec<i64>>, i: nat, capacity: nat)
    requires
        forall|ii: int| 1 <= ii <= i ==> v1[ii]@ == v2[ii]@,
    ensures
        filled(v1, i, capacity) == filled(v2, i, capacity),
    decreases i,
{
    if i > 0 {
        lemma_filled_ext(v1, v2, (i - 1) as nat, capacity);
    }
}

proof fn lemma_filled_update(
    v1: Seq<Vec<i64>>,
    v2: Seq<Vec<i64>>,
    i: nat,
    capacity: nat,
    a: int,
    b: int,
    x: i64,
)
    requires
        1 <= a <= i < v1.len(),
        v1.len() == v2.len(),
        1 <= b <= capacity < v1[a]@.len(),
        v1[a]@[b] < 0,
        x >= 0,
        v2[a]@ == v1[a]@.update(b, x),
        forall|ii: int| 0 <= ii < v1.len() && ii != a ==> v1[ii]@ == v2[ii]@,
    ensures
        filled(v2, i, capacity) == filled(v1, i, capacity) + 1,
    decreases i,
{
    if i > a {
        lemma_filled_update(v1, v2, (i - 1) as nat, capacity, a, b, x);
    } else {
        lemma_filled_ext(v1, v2, (i - 1) as nat, capacity);
        lemma_row_filled_update(v1[a]@, capacity, b, x);
    }
}

proof fn lemma_filled_bounded(v: Seq<Vec<i64>>, i: nat, capacity: nat)
    ensures
        filled(v, i, capacity) <= i * capacity,
    decreases i,
{
    if i > 0 {
        lemma_filled_bounded(v, (i - 1) as nat, capacity);
        lemma_row_filled_bounded(v[i as int]@, capacity);
        assert((i - 1) * capacity + capacity == i * capacity) by (nonlinear_arith);
    }
}

proof fn lemma_filled_none(v: Seq<Vec<i64>>, i: nat, capacity: nat)
    requires
        forall|ii: int, jj: int| 1 <= ii <= i && 1 <= jj <= capacity ==> #[trigger] v[ii]@[jj] < 0,
    ensures
        filled(v, i, capacity) == 0,
    decreases i,
{
    if i > 0 {
        lemma_filled_none(v, (i - 1) as nat, capacity);
        assert forall|jj: int| 1 <= jj <= capacity implies v[i as int]@[jj] < 0 by {
            assert(v[i as int]@[jj] < 0);
        }
        lemma_row_filled_none(v[i as int]@, capacity);
    }
}

proof fn lemma_row_filled_full(r: Seq<i64>, j: nat)
    requires
        forall|jj: int| 1 <= jj <= j ==> r[jj] >= 0,
    ensures
        row_filled(r, j) == j,
    decreases j,
{
    if j > 0 {
        lemma_row_filled_full(r, (j - 1) as nat);
    }
}

proof fn lemma_filled_full(v: Seq<Vec<i64>>, i: nat, capacity: nat)
    requires
        forall|ii: int, jj: int| 1 <= ii <= i && 1 <= jj <= capacity ==> #[trigger] v[ii]@[jj] >= 0,
    ensures
        filled(v, i, capacity) == i * capacity,
    decreases i,
{
    if i > 0 {
        lemma_filled_full(v, (i - 1) as nat, capacity);
        assert forall|jj: int| 1 <= jj <= capacity implies v[i as int]@[jj] >= 0 by {
            assert(v[i as int]@[jj] >= 0);
        }
        lemma_row_filled_full(v[i as int]@, capacity);
        let prev = filled(v, (i - 1) as nat, capacity);
        assert(filled(v, i, capacity) == prev + capacity);
        assert(prev + capacity == i * capacity) by (nonlinear_arith)
            requires
                prev == (i - 1) * capacity,
                i > 0,
        ;
    } else {
        assert(i * capacity == 0) by (nonlinear_arith)
            requires
                i == 0,
        ;
    }
}

proof fn lemma_table_fits(n: nat, capacity: nat)
    requires
        table_fits(n, capacity),
    ensures
        2 * (n * capacity) + n + 2 <= usize::MAX,
        capacity < usize::MAX,
        n < usize::MAX,
{
    assert((n + 1) * (capacity + 1) == n * capacity + n + capacity + 1) by (nonlinear_arith);
}

/// Returns the best value of cell `(i, j)`, computing it through the recurrence unless the memo
/// holds it already. `pending` counts the calls above this one that are still computing a
/// cell, and `slack` the hits that earlier top-level calls left over the misses; together they
/// bound the hit counter.
fn mf_knapsack(
    set: &ItemSet,
    v: &mut Vec<Vec<i64>>,
    metrics: &mut TopDownTableMetrics,
    i: usize,
    j: usize,
    Ghost(capacity): Ghost<nat>,
    Ghost(pending): Ghost<nat>,
    Ghost(slack): Ghost<nat>,
) -> (r: i64)
    requires
        values_fit(set@),
        table_fits(set@.len(), capacity),
        i <= set@.len(),
        j <= capacity,
        pending + i <= set@.len(),
        memo_table(set@, old(v)@, capacity),
        old(metrics).cache_miss == filled(old(v)@, set@.len(), capacity),
        slack <= set@.len() * capacity,
        old(metrics).cache_hit <= old(metrics).cache_miss + pending + slack + 1,
    ensures
        r == best(set@, i as nat, j as nat),
        memo_table(set@, final(v)@, capacity),
        solved(set@, final(v)@, i as nat, j as nat),
        forall|ii: nat, jj: nat| #[trigger]
            solved(set@, old(v)@, ii, jj) && ii <= set@.len() && jj <= capacity ==> solved(
                set@,
                final(v)@,
                ii,
                jj,
            ),
        forall|ii: int| i < ii <= set@.len() ==> #[trigger] final(v)@[ii] == old(v)@[ii],
        final(metrics).cache_miss == filled(final(v)@, set@.len(), capacity),
        final(metrics).cache_hit - final(metrics).cache_miss <= old(metrics).cache_hit
            - old(metrics).cache_miss + 1,
    decreases i,
{
    let ghost n = set@.len();
    proof {
        lemma_table_fits(n, capacity);
        lemma_filled_bounded(v@, n, capacity);
    }
    let current = v[i][j];
    if current >= 0 {
        metrics.cache_hit = metrics.cache_hit + 1;
        return current;
    }
    assert(i > 0 && j > 0);
    let item = set.items[i - 1];
    let skip = mf_knapsack(
        set,
        v,
        metrics,
        i - 1,
        j,
        Ghost(capacity),
        Ghost(pending + 1),
        Ghost(slack),
    );
    let value = if j < item.weight as usize {
        skip
    } else {
        let rest = mf_knapsack(
            set,
            v,
            metrics,
            i - 1,
            j - item.weight as usize,
            Ghost(capacity),
            Ghost(pending + 1),
            Ghost(slack),
        );
        proof {
            lemma_best_bounded(set@, (i - 1) as nat, (j - item.weight) as nat);
            assert((i - 1) * MAX_ITEM_VALUE + MAX_ITEM_VALUE == i * MAX_ITEM_VALUE);
            assert(i * MAX_ITEM_VALUE <= n * MAX_ITEM_VALUE) by (nonlinear_arith)
                requires
                    i <= n,
            ;
        }
        let take = item.value as i64 + rest;
        if take > skip {
            take
        } else {
            skip
        }
    };
    let ghost before = v@;
    assert(before[i as int]@[j as int] < 0);
    v[i][j] = value;
    proof {
        lemma_filled_update(before, v@, n, capacity, i as int, j as int, value);
        lemma_filled_bounded(v@, n, capacity);
        assert forall|ii: nat, jj: nat| ii <= n && jj <= capacity implies {
            &&& (ii == 0 || jj == 0 ==> solved(set@, v@, ii, jj))
            &&& (#[trigger] v@[ii as int]@[jj as int] == UNCOMPUTED || solved(set@, v@, ii, jj))
        } by {
            assert(before[ii as int]@[jj as int] == UNCOMPUTED || solved(set@, before, ii, jj));
        }
        assert forall|ii: nat, jj: nat|
            1 <= ii <= n && 1 <= jj <= capacity && #[trigger] solved(set@, v@, ii, jj) implies {
            &&& solved(set@, v@, (ii - 1) as nat, jj)
            &&& (set@[ii - 1].weight <= jj ==> solved(
                set@,
                v@,
                (ii - 1) as nat,
                (jj - set@[ii - 1].weight) as nat,
            ))
        } by {
            if ii != i || jj != j {
                assert(solved(set@, before, ii, jj));
                assert(solved(set@, before, (ii - 1) as nat, jj));
                if set@[ii - 1].weight <= jj {
                    assert(solved(
                        set@,
                        before,
                        (ii - 1) as nat,
                        (jj - set@[ii - 1].weight) as nat,
                    ));
                }
            } else {
                assert(solved(set@, before, (i - 1) as nat, j as nat));
                if item.weight <= j {
                    assert(solved(set@, before, (i - 1) as nat, (j - item.weight) as nat));
                }
            }
        }
        assert forall|ii: nat, jj: nat| #[trigger]
            solved(set@, old(v)@, ii, jj) && ii <= n && jj <= capacity implies solved(
            set@,
            v@,
            ii,
            jj,
        ) by {
            assert(solved(set@, before, ii, jj));
        }
    }
    metrics.cache_miss = metrics.cache_miss + 1;
    value
}

/// Fills the table by memoized recursion: the borders are seeded with zero, then every cell
/// inside them is solved, from the corner cell down, each through the memo. The table equals
/// the bottom-up one. Every cell inside the borders is computed exactly once, so the misses
/// count them; each top-level solve adds at most one hit more than it adds misses.
pub fn create_top_down_memoized_table(set: &ItemSet, capacity: usize) -> (res: (
    Vec<Vec<i64>>,
    TopDownTableMetrics,
))
    requires
        values_fit(set@),
        table_fits(set@.len(), capacity as nat),
    ensures
        table_shape(res.0@, set@.len(), capacity as nat),
        forall|i: nat, j: nat|
            i <= set@.len() && j <= capacity ==> #[trigger] solved(set@, res.0@, i, j),
        res.1.cache_miss == set@.len() * capacity,
        res.1.cache_hit <= 2 * res.1.cache_miss,
{
    let n = set.len();
    proof {
        lemma_table_fits(n as nat, capacity as nat);
    }
    let mut v: Vec<Vec<i64>> = Vec::new();
    let mut i: usize = 0;
    while i <= n
        invariant
            i <= n + 1,
            n == set@.len(),
            n < usize::MAX,
            capacity < usize::MAX,
            v@.len() == i,
            forall|ii: int| 0 <= ii < i ==> (#[trigger] v@[ii])@.len() == capacity + 1,
            forall|ii: int, jj: int|
                0 <= ii < i && 0 <= jj <= capacity ==> #[trigger] v@[ii]@[jj] == if ii == 0 || jj
                    == 0 {
                    0
                } else {
                    UNCOMPUTED
                },
        decreases n + 1 - i,
    {
        let mut row: Vec<i64> = Vec::with_capacity(capacity + 1);
        let mut j: usize = 0;
        while j <= capacity
            invariant
                i <= n,
                capacity < usize::MAX,
                j <= capacity + 1,
                row@.len() == j,
                forall|jj: int|
                    0 <= jj < j ==> #[trigger] row@[jj] == if i == 0 || jj == 0 {
                        0
                    } else {
                        UNCOMPUTED
                    },
            decreases capacity + 1 - j,
        {
            if i == 0 || j == 0 {
                row.push(0);
            } else {
                row.push(UNCOMPUTED);
            }
            j = j + 1;
        }
        let ghost prev = v@;
        v.push(row);
        proof {
            assert forall|ii: int, jj: int| 0 <= ii < i + 1 && 0 <= jj <= capacity implies #[trigger] v@[ii]@[jj]
                == if ii == 0 || jj == 0 {
                0
            } else {
                UNCOMPUTED
            } by {
                if ii < i {
                    assert(v@[ii] == prev[ii]);
                }
            }
        }
        i = i + 1;
    }
    proof {
        assert forall|ii: nat, jj: nat| ii <= n && jj <= capacity implies {
            &&& (ii == 0 || jj == 0 ==> solved(set@, v@, ii, jj))
            &&& (#[trigger] v@[ii as int]@[jj as int] == UNCOMPUTED || solved(set@, v@, ii, jj))
        } by {
            assert(v@[ii as int]@[jj as int] == if ii == 0 || jj == 0 {
                0
            } else {
                UNCOMPUTED
            });
        }
        assert forall|ii: int, jj: int| 1 <= ii <= n && 1 <= jj <= capacity implies #[trigger] v@[ii]@[jj] < 0 by {
            assert(v@[ii]@[jj] == UNCOMPUTED);
        }
        lemma_filled_none(v@, n as nat, capacity as nat);
    }
    let mut metrics = TopDownTableMetrics { cache_miss: 0, cache_hit: 0 };
    let ghost cap = capacity as nat;
    let ghost mut calls: nat = 0;
    let mut i: usize = n;
    while i > 0
        invariant
            n == set@.len(),
            i <= n,
            values_fit(set@),
            table_fits(n as nat, cap),
            cap == capacity,
            memo_table(set@, v@, cap),
            metrics.cache_miss == filled(v@, n as nat, cap),
            metrics.cache_hit <= metrics.cache_miss + calls,
            calls == (n - i) * cap,
            forall|a: nat, b: nat| i < a <= n && b <= cap ==> #[trigger] solved(set@, v@, a, b),
        decreases i,
    {
        let mut j: usize = capacity;
        while j > 0
            invariant
                n == set@.len(),
                1 <= i <= n,
                j <= capacity,
                values_fit(set@),
                table_fits(n as nat, cap),
                cap == capacity,
                memo_table(set@, v@, cap),
                metrics.cache_miss == filled(v@, n as nat, cap),
                metrics.cache_hit <= metrics.cache_miss + calls,
                calls == (n - i) * cap + (cap - j),
                forall|a: nat, b: nat|
                    ((i < a <= n && b <= cap) || (a == i && j < b <= cap)) ==> #[trigger] solved(
                        set@,
                        v@,
                        a,
                        b,
                    ),
            decreases j,
        {
            proof {
                assert((n - i) * cap + cap <= n * cap) by (nonlinear_arith)
                    requires
                        1 <= i <= n,
                ;
            }
            let ghost before = v@;
            mf_knapsack(
                set,
                &mut v,
                &mut metrics,
                i,
                j,
                Ghost(cap),
                Ghost(0),
                Ghost(calls),
            );
            proof {
                calls = calls + 1;
                assert forall|a: nat, b: nat|
                    ((i < a <= n && b <= cap) || (a == i && j - 1 < b <= cap)) implies #[trigger] solved(
                    set@,
                    v@,
                    a,
                    b,
                ) by {
                    if a != i || b != j {
                        assert(solved(set@, before, a, b));
                    }
                }
            }
            j = j - 1;
        }
        proof {
            assert((n - i) * cap + cap == (n - (i - 1)) * cap) by (nonlinear_arith)
                requires
                    1 <= i <= n,
            ;
        }
        i = i - 1;
    }
    proof {
        assert forall|a: int, b: int| 1 <= a <= n && 1 <= b <= capacity implies #[trigger] v@[a]@[b]
            >= 0 by {
            assert(solved(set@, v@, a as nat, b as nat));
        }
        lemma_filled_full(v@, n as nat, cap);
        assert forall|a: nat, b: nat| a <= n && b <= capacity implies #[trigger] solved(
            set@,
            v@,
            a,
            b,
        ) by {
            if a == 0 || b == 0 {
                assert(v@[a as int]@[b as int] == UNCOMPUTED || solved(set@, v@, a, b));
            }
        }
    }
    (v, metrics)
}

/// Solves the instance exactly with the memoized table.
pub fn top_down_memoized(set: &ItemSet, capacity: usize) -> (k: Knapsack)
    requires
        values_fit(set@),
        table_fits(set@.len(), capacity as nat),
    ensures
        k.wf(),
        k@ == chosen(set@, set@.len(), capacity as nat),
        total_weight(k@) <= capacity,
        total_value(k@) == best(set@, set@.len(), capacity as nat),
{
    let (v, _metrics) = create_top_down_memoized_table(set, capacity);
    assert(solved(set@, v@, set@.len(), capacity as nat));
    backtrack(set, capacity, v)
}

} // verus!
