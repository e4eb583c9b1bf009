//! Which pools are enriched and published: a superset of those traded on.

use crate::pubkey::Pubkey;
use vstd::prelude::*;

verus! {

/// A pool is a member if its mint is known, if it is a bonding curve of high priority, or if
/// it is pinned as hot.
pub fn pool_is_enrichment_member(
    pool_mint_map: bool,
    high_priority_bonding_curve: bool,
    is_hot_pool: bool,
) -> (r: bool)
    ensures
        r == (pool_mint_map || high_priority_bonding_curve || is_hot_pool),
{
    pool_mint_map || high_priority_bonding_curve || is_hot_pool
}

/// Where the facts about a pool come from.
pub trait EnrichmentMembershipInputs {
    fn enrichment_pool_mint_map_contains(&self, pool: &Pubkey) -> bool;

    fn enrichment_high_priority_bonding_curve_contains(&self, pool: &Pubkey) -> bool;

    fn enrichment_is_hot_pool(&self, pool: &Pubkey) -> bool;
}

/// Asks for each of the facts; the pool is a member if one of the answers is yes.
pub fn is_enrichment_member_from_inputs<I: EnrichmentMembershipInputs>(
    inputs: &I,
    pool: &Pubkey,
) -> (r: bool)
    ensures
        exists|mapped: bool, curve: bool, hot: bool|
            {
                &&& #[trigger] call_ensures(
                    I::enrichment_pool_mint_map_contains,
                    (inputs, pool),
                    mapped,
                )
                &&& #[trigger] call_ensures(
                    I::enrichment_high_priority_bonding_curve_contains,
                    (inputs, pool),
                    curve,
                )
                &&& #[trigger] call_ensures(I::enrichment_is_hot_pool, (inputs, pool), hot)
                &&& r == (mapped || curve || hot)
            },
{
    let mapped = inputs.enrichment_pool_mint_map_contains(pool);
    let curve = inputs.enrichment_high_priority_bonding_curve_contains(pool);
    let hot = inputs.enrichment_is_hot_pool(pool);
    pool_is_enrichment_member(mapped, curve, hot)
}

} // verus!
