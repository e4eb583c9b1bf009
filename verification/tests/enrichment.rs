use track::enrichment::{
    EnrichmentMembershipInputs, is_enrichment_member_from_inputs, pool_is_enrichment_member,
};
use track::pubkey::Pubkey;

fn unique() -> Pubkey {
    Pubkey::new_from_array(solana_sdk::pubkey::Pubkey::new_unique().to_bytes())
}

struct TestInputs {
    mint_map: bool,
    bonding: bool,
    hot: bool,
}

impl EnrichmentMembershipInputs for TestInputs {
    fn enrichment_pool_mint_map_contains(&self, _pool: &Pubkey) -> bool {
        self.mint_map
    }

    fn enrichment_high_priority_bonding_curve_contains(&self, _pool: &Pubkey) -> bool {
        self.bonding
    }

    fn enrichment_is_hot_pool(&self, _pool: &Pubkey) -> bool {
        self.hot
    }
}

#[test]
fn pool_is_enrichment_member_union() {
    let pool = unique();
    assert!(!pool_is_enrichment_member(false, false, false));
    assert!(pool_is_enrichment_member(true, false, false));
    assert!(pool_is_enrichment_member(false, true, false));
    assert!(pool_is_enrichment_member(false, false, true));
    let inputs = TestInputs {
        mint_map: false,
        bonding: false,
        hot: true,
    };
    assert!(is_enrichment_member_from_inputs(&inputs, &pool));
}
