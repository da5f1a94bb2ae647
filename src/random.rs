use vstd::prelude::*;

use rand::rngs::StdRng;
use rand::Rng;

use crate::brute_force::BruteForceKnapsack;
use crate::{Item, ItemSet, SetConfig};

verus! {

#[verifier::external_type_specification]
#[verifier::external_body]
pub struct ExStdRng(StdRng);

/// Relies on rand's `Rng::gen_range` with an inclusive range: the result lies inside the range;
/// it panics only when the range is empty.
#[verifier::external_body]
fn draw(rng: &mut StdRng, low: u16, high: u16) -> (r: u16)
    requires
        low <= high,
    ensures
        low <= r <= high,
{
    rng.gen_range(low..=high)
}

/// Lightest weight that `initialize_values` draws.
pub const MIN_DRAWN_WEIGHT: u16 = 50;

/// Heaviest weight that `initialize_values` draws.
pub const MAX_DRAWN_WEIGHT: u16 = 100;

/// Smallest value that `initialize_values` draws.
pub const MIN_DRAWN_VALUE: u16 = 100;

/// Largest value that `initialize_values` draws.
pub const MAX_DRAWN_VALUE: u16 = 500;

/// Every item of `items` lies within the bounds of `config`.
pub open spec fn within(items: Seq<Item>, config: SetConfig) -> bool {
    forall|i: int|
        0 <= i < items.len() ==> config.min_weight <= #[trigger] items[i].weight
            <= config.max_weight && config.min_value <= items[i].value <= config.max_value
}

impl ItemSet {
    /// `config.total` items with weights and values drawn uniformly within the bounds.
    pub fn new_random(config: SetConfig, rng: StdRng) -> (s: Self)
        requires
            config.min_weight <= config.max_weight,
            config.min_value <= config.max_value,
        ensures
            s@.len() == config.total,
            within(s@, config),
    {
        let mut rng = rng;
        let mut items: Vec<Item> = Vec::new();
        let mut i: usize = 0;
        while i < config.total
            invariant
                i <= config.total,
                config.min_weight <= config.max_weight,
                config.min_value <= config.max_value,
                items@.len() == i,
                within(items@, config),
            decreases config.total - i,
        {
            let weight = draw(&mut rng, config.min_weight, config.max_weight);
            let value = draw(&mut rng, config.min_value, config.max_value);
            items.push(Item { weight, value });
            i = i + 1;
        }
        ItemSet::new(items)
    }
}

impl BruteForceKnapsack {
    /// Draws a fresh weight and value for every item.
    pub fn initialize_values(&mut self, rng: &mut StdRng)
        requires
            old(self).wf(),
        ensures
            final(self).wf(),
            final(self).max_weight == old(self).max_weight,
            final(self).total_items == old(self).total_items,
            forall|i: int|
                0 <= i < final(self).total_items ==> MIN_DRAWN_WEIGHT <= #[trigger] final(self).weights@[i]
                    <= MAX_DRAWN_WEIGHT && MIN_DRAWN_VALUE <= final(self).values@[i]
                    <= MAX_DRAWN_VALUE,
    {
        let mut i: usize = 0;
        while i < self.total_items
            invariant
                self.wf(),
                self.max_weight == old(self).max_weight,
                self.total_items == old(self).total_items,
                i <= self.total_items,
                forall|k: int|
                    0 <= k < i ==> MIN_DRAWN_WEIGHT <= #[trigger] self.weights@[k]
                        <= MAX_DRAWN_WEIGHT && MIN_DRAWN_VALUE <= self.values@[k]
                        <= MAX_DRAWN_VALUE,
            decreases self.total_items - i,
        {
            let weight = draw(rng, MIN_DRAWN_WEIGHT, MAX_DRAWN_WEIGHT);
            let value = draw(rng, MIN_DRAWN_VALUE, MAX_DRAWN_VALUE);
            self.weights.set(i, weight);
            self.values.set(i, value);
            i = i + 1;
        }
    }
}

} // verus!
