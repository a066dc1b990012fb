use subtensor_core::coinbase::SoleBeneficiary;
use subtensor_core::state::Pallet;

const PRICE_ONE: u128 = 1u128 << 64;
const TAO: u64 = 1_000_000_000;

// The four-step block transition on one subnet with tempo one: emission
// banks for a block, the epoch drains it to the hotkey, and the drain
// schedule settles it into stake.
#[test]
fn test_coinbase_basic() {
    let mut s = Pallet::new();
    let netuid: u16 = 1;
    let hotkey: u64 = 0;
    let coldkey: u64 = 3;

    // A network with tempo one, a staked hotkey, and an emission value of
    // one unit per block.
    assert!(s.add_network(netuid, 1));
    assert!(s.add_hotkey(hotkey, 0));
    s.add_stake(coldkey, hotkey, 1000, 0);
    assert!(s.set_emission_value(netuid, 1));
    assert_eq!(s.get_subnet_emission_value(netuid), 1);
    // Hotkeys drain every block to begin with.
    s.set_hotkey_emission_tempo(1);

    let mut dist = SoleBeneficiary { beneficiaries: vec![(netuid, hotkey)] };

    // Nothing is pending anywhere yet.
    assert_eq!(s.get_pending_hotkey_emission(hotkey), 0);
    assert_eq!(s.get_total_stake_for_hotkey(hotkey), 1000 + 0);
    assert_eq!(s.get_pending_emission(netuid), 0);

    // A block on which the epoch does not fire: the subnet banks one unit.
    s.run_coinbase(2, 0, PRICE_ONE, &mut dist);
    assert_eq!(s.get_pending_hotkey_emission(hotkey), 0);
    assert_eq!(s.get_total_stake_for_hotkey(hotkey), 1000 + 0);
    assert_eq!(s.get_pending_emission(netuid), 1);

    // The next block fires the epoch and the drain in one go.
    s.run_coinbase(3, 0, PRICE_ONE, &mut dist);
    assert_eq!(s.get_pending_emission(netuid), 0);
    assert_eq!(s.get_pending_hotkey_emission(hotkey), 0);
    assert_eq!(s.get_total_stake_for_hotkey(hotkey), 1000 + 2);
    assert_eq!(s.get_total_issuance(), 2);

    // With a drain period of two the payout trails the epoch by a block.
    s.set_hotkey_emission_tempo(2);

    s.run_coinbase(4, 0, PRICE_ONE, &mut dist);
    assert_eq!(s.get_pending_emission(netuid), 1);
    assert_eq!(s.get_pending_hotkey_emission(hotkey), 0);
    assert_eq!(s.get_total_stake_for_hotkey(hotkey), 1000 + 2);

    s.run_coinbase(5, 0, PRICE_ONE, &mut dist);
    assert_eq!(s.get_pending_emission(netuid), 0);
    assert_eq!(s.get_pending_hotkey_emission(hotkey), 2);
    assert_eq!(s.get_total_stake_for_hotkey(hotkey), 1000 + 2);

    s.run_coinbase(6, 0, PRICE_ONE, &mut dist);
    assert_eq!(s.get_pending_emission(netuid), 1);
    assert_eq!(s.get_pending_hotkey_emission(hotkey), 0);
    assert_eq!(s.get_total_stake_for_hotkey(hotkey), 1000 + 4);
    assert_eq!(s.get_total_issuance(), 4);
}

// With the price sum at or above the threshold the block emission is
// injected in Alpha, the whole amount per dynamic subnet.
#[test]
fn test_alpha_denominated_injection() {
    let mut s = Pallet::new();
    assert!(s.register_network(1, 0, 1, 1, 100 * TAO, 1));
    assert!(s.register_network(2, 0, 2, 2, 100 * TAO, 1));
    let mut dist = SoleBeneficiary { beneficiaries: vec![] };

    // Two pools at a price of one sum to two, at or above a threshold of
    // one: Alpha mode.
    s.run_coinbase(2, TAO, PRICE_ONE, &mut dist);
    for netuid in [1u16, 2] {
        assert_eq!(s.get_tao_reserve(netuid), 100 * TAO);
        assert_eq!(s.get_alpha_reserve(netuid), 101 * TAO);
        assert_eq!(s.get_subnet_emission_value(netuid), TAO);
        // Tempo zero never fires: the allocation stays banked.
        assert_eq!(s.get_pending_emission(netuid), TAO);
        assert_eq!(
            s.get_pool_k(netuid),
            (100 * TAO as u128) * (101 * TAO as u128)
        );
    }
}

// With the price sum below the threshold the block emission is injected in
// TAO, split across the dynamic subnets in proportion to their TAO.
#[test]
fn test_tao_denominated_injection_is_proportional() {
    let mut s = Pallet::new();
    assert!(s.register_network(1, 0, 1, 1, 100 * TAO, 1));
    assert!(s.register_network(2, 0, 2, 2, 300 * TAO, 1));
    let mut dist = SoleBeneficiary { beneficiaries: vec![] };

    // The price sum is two; a threshold of three puts the allocator in TAO
    // mode. Subnet 1 holds a quarter of the dynamic TAO, subnet 2 three
    // quarters.
    s.run_coinbase(2, 4 * TAO, 3 * PRICE_ONE, &mut dist);
    assert_eq!(s.get_subnet_emission_value(1), TAO);
    assert_eq!(s.get_subnet_emission_value(2), 3 * TAO);
    assert_eq!(s.get_tao_reserve(1), 101 * TAO);
    assert_eq!(s.get_tao_reserve(2), 303 * TAO);
    assert_eq!(s.get_alpha_reserve(1), 100 * TAO);
    assert_eq!(s.get_alpha_reserve(2), 300 * TAO);
    assert_eq!(s.get_pending_emission(1), TAO);
    assert_eq!(s.get_pending_emission(2), 3 * TAO);
}

// A dynamic pool drained of Alpha has no price: the allocator skips the
// block, everything else proceeds.
#[test]
fn test_root_failure_skips_allocation() {
    let mut s = Pallet::new();
    assert!(s.register_network(1, 0, 1, 1, 1, 1));
    // Push the pool so hard the Alpha side rounds to nothing.
    let alpha_out = s.stake_into_subnet(1, 2);
    assert_eq!(alpha_out, 1);
    assert_eq!(s.get_alpha_reserve(1), 0);
    let mut dist = SoleBeneficiary { beneficiaries: vec![] };
    s.run_coinbase(2, 5 * TAO, PRICE_ONE, &mut dist);
    // No allocation was recorded and nothing was banked.
    assert_eq!(s.get_subnet_emission_value(1), 0);
    assert_eq!(s.get_pending_emission(1), 0);
    assert_eq!(s.get_tao_reserve(1), 3);
}

// The drain index is the hotkey's insertion position: with a period of two
// only the matching parity pays out.
#[test]
fn test_drain_index_schedule() {
    let mut s = Pallet::new();
    assert!(s.add_network(1, 1));
    assert!(s.add_hotkey(100, 0));
    assert!(s.add_hotkey(200, 0));
    s.add_stake(10, 100, 50, 0);
    s.add_stake(10, 200, 50, 0);
    assert!(s.set_emission_value(1, 10));
    s.set_hotkey_emission_tempo(2);
    let mut dist = SoleBeneficiary { beneficiaries: vec![(1, 200)] };

    // Block 3 fires the epoch for subnet 1 and hands the banked 20 units
    // to hotkey 200; its index 1 matches an odd block under a period of
    // two, so it drains in the same transition. Hotkey 100 at index 0
    // neither earns nor drains.
    s.run_coinbase(2, 0, PRICE_ONE, &mut dist);
    s.run_coinbase(3, 0, PRICE_ONE, &mut dist);
    assert_eq!(s.get_pending_hotkey_emission(200), 0);
    assert_eq!(s.get_total_stake_for_hotkey(200), 50 + 20);
    assert_eq!(s.get_total_stake_for_hotkey(100), 50);
}
