use subtensor_core::state::Pallet;

// A parent with the full proportion of the hotkey's only stake receives
// the whole reward net of the take; with a zero take that is everything.
#[test]
fn test_accumulate_full_proportion_parent() {
    let mut s = Pallet::new();
    assert!(s.register_network(2, 10, 2, 20, 0, 1));
    assert!(s.add_hotkey(1, 0));
    s.add_stake(20, 2, 1000, 0);
    // Hotkey 2 declares hotkey 1 as its child with the full proportion, so
    // hotkey 1's parent list on subnet 2 holds hotkey 2.
    assert_eq!(s.do_set_children(20, 2, 2, &vec![(u64::MAX, 1)], 5), Ok(()));
    assert_eq!(s.get_parents(1, 2), vec![(u64::MAX, 2)]);

    s.accumulate_hotkey_emission(1, 2, 100);
    assert_eq!(s.get_pending_hotkey_emission(2), 100);
    assert_eq!(s.get_pending_hotkey_emission(1), 0);
}

// With a half proportion the parent receives the floor of its exact
// fractional slice and the hotkey keeps the take, the rest, and the dust.
#[test]
fn test_accumulate_half_proportion_conserves() {
    let mut s = Pallet::new();
    assert!(s.register_network(2, 10, 2, 20, 0, 1));
    assert!(s.add_hotkey(1, 0));
    s.add_stake(20, 2, 1000, 0);
    let prop: u64 = u64::MAX / 2;
    assert_eq!(s.do_set_children(20, 2, 2, &vec![(prop, 1)], 5), Ok(()));

    let emission: u64 = 100;
    // The exact 96.32 fixed-point formulas the distribution follows.
    let ratio_bits: u128 = ((prop as u128) << 32) / (u64::MAX as u128);
    let total: u64 = ((1000u128 * (prop as u128)) / (u64::MAX as u128)) as u64;
    let share_bits: u128 = (1000u128 * ratio_bits) / (total as u128);
    let parent_take: u64 = ((share_bits * (emission as u128)) >> 32) as u64;

    s.accumulate_hotkey_emission(1, 2, emission);
    assert_eq!(s.get_pending_hotkey_emission(2), parent_take);
    assert_eq!(s.get_pending_hotkey_emission(1), emission - parent_take);
    // Conservation: parent slice plus hotkey leftover is the emission.
    assert_eq!(
        s.get_pending_hotkey_emission(1) + s.get_pending_hotkey_emission(2),
        emission
    );
}

// A hotkey with no aggregate stake keeps the whole reward.
#[test]
fn test_accumulate_zero_stake_short_circuits() {
    let mut s = Pallet::new();
    assert!(s.register_network(2, 10, 2, 20, 0, 1));
    assert!(s.add_hotkey(1, 0));
    // Hotkey 2 is hotkey 1's parent, but neither has any stake.
    assert_eq!(s.do_set_children(20, 2, 2, &vec![(u64::MAX, 1)], 5), Ok(()));
    s.accumulate_hotkey_emission(1, 2, 77);
    assert_eq!(s.get_pending_hotkey_emission(1), 77);
    assert_eq!(s.get_pending_hotkey_emission(2), 0);
}

// A drain splits the reward by stake, exactly, and the truncation dust
// lands on the hotkey's own position.
#[test]
fn test_drain_splits_by_stake_with_dust() {
    let mut s = Pallet::new();
    assert!(s.add_hotkey(1, 0));
    s.add_stake(10, 1, 600, 0);
    s.add_stake(11, 1, 400, 0);

    s.drain_hotkey_emission(1, 101, 50);
    // 101 * 600 / 1000 = 60; 101 * 400 / 1000 = 40; the unit of dust goes
    // to the hotkey's own position (it owns itself here).
    assert_eq!(s.get_stake(10, 1), 660);
    assert_eq!(s.get_stake(11, 1), 440);
    assert_eq!(s.get_stake(1, 1), 1);
    assert_eq!(s.get_pending_hotkey_emission(1), 0);
    // Exactly the emission arrived in stake.
    assert_eq!(s.get_total_stake_for_hotkey(1), 1000 + 101);
}

// A nominator that manually added stake since the previous drain receives
// nothing that cycle.
#[test]
fn test_drain_withholds_after_manual_add() {
    let mut s = Pallet::new();
    assert!(s.add_hotkey(1, 0));
    s.add_stake(10, 1, 500, 0);
    // A first drain stamps the drain block.
    s.drain_hotkey_emission(1, 0, 50);
    // A manual addition after it freezes this nominator for one cycle.
    s.add_stake(11, 1, 500, 100);
    s.drain_hotkey_emission(1, 100, 200);
    // 100 * 500 / 1000 = 50 for the untouched nominator; the frozen one
    // gets nothing; the rest stays with the hotkey.
    assert_eq!(s.get_stake(10, 1), 550);
    assert_eq!(s.get_stake(11, 1), 500);
    assert_eq!(s.get_stake(1, 1), 50);
    assert_eq!(s.get_total_stake_for_hotkey(1), 1000 + 100);
}

// The hotkey's take comes off the top at its 16-bit fraction, computed in
// 64.64 fixed point.
#[test]
fn test_drain_respects_delegate_take() {
    let mut s = Pallet::new();
    let take_rate: u16 = u16::MAX / 2;
    assert!(s.add_hotkey(1, take_rate));
    s.add_stake(10, 1, 1000, 0);

    let emission: u64 = 1000;
    let ratio_bits: u128 = ((take_rate as u128) << 64) / (u16::MAX as u128);
    let take: u64 = ((ratio_bits * (emission as u128)) >> 64) as u64;

    s.drain_hotkey_emission(1, emission, 5);
    assert_eq!(s.get_stake(10, 1), 1000 + (emission - take));
    assert_eq!(s.get_stake(1, 1), take);
    assert_eq!(s.get_total_stake_for_hotkey(1), 1000 + emission);
}

// The owner's position, not the hotkey account, receives the hotkey's own
// credit when an owner is recorded.
#[test]
fn test_drain_credits_owner_position() {
    let mut s = Pallet::new();
    assert!(s.register_network(1, 10, 1, 77, 0, 1));
    s.drain_hotkey_emission(1, 40, 5);
    // With no stake at all, everything lands on the owner's position.
    assert_eq!(s.get_stake(77, 1), 40);
}
