use subtensor_core::state::Pallet;

const TAO: u64 = 1_000_000_000;
const PRICE_ONE: u128 = 1u128 << 64;

// Registering seeds both reserves with the lock at a price of one; a stake
// of 100 TAO into a 100/100 pool moves the reserves to 200/50 and the
// price to four.
#[test]
fn test_stake_unstake() {
    let mut s = Pallet::new();
    assert!(s.register_network(1, 1, 0, 1, 100_000_000_000, 1));
    assert_eq!(s.get_tao_reserve(1), 100_000_000_000);
    assert_eq!(s.get_alpha_reserve(1), 100_000_000_000);
    assert_eq!(s.get_tao_per_alpha_price_bits(1), PRICE_ONE);

    let alpha_out = s.stake_into_subnet(1, 100_000_000_000);
    assert_eq!(s.get_tao_reserve(1), 200_000_000_000);
    assert_eq!(s.get_alpha_reserve(1), 50_000_000_000);
    assert_eq!(alpha_out, 50_000_000_000);
    // Price is increased from the stake operation.
    assert_eq!(s.get_tao_per_alpha_price_bits(1), 4 * PRICE_ONE);
}

// A fresh pool seeded with equal reserves prices Alpha at exactly one TAO.
#[test]
fn test_price_tao_1_alpha_1() {
    let mut s = Pallet::new();
    let lock_amount = 100_000_000_000;
    assert!(s.register_network(1, 1, 1, 1, lock_amount, 1));
    // The creator's lock became its stake on its own hotkey.
    assert_eq!(s.get_stake(1, 1), lock_amount);
    assert_eq!(s.get_tao_per_alpha_price_bits(1), PRICE_ONE);
}

// Unstaking any amount leaves the price at exactly the ratio of the
// resulting reserves.
#[test]
fn test_price_tao_alpha_unstake() {
    for &unstake_alpha_amount in
        [1u64, 2, 3, 4, 5, 100, 200, 1234, 1_000_000_000, 100_000_000_000].iter()
    {
        let mut s = Pallet::new();
        let lock_amount: u64 = 100_000_000_000;
        assert!(s.register_network(1, 1, 1, 1, lock_amount, 1));

        let k = (lock_amount as u128) * (lock_amount as u128);
        let alpha_reserve = lock_amount + unstake_alpha_amount;
        let expected_tao_reserve = (k / (alpha_reserve as u128)) as u64;
        let expected_unstaked = lock_amount - expected_tao_reserve;

        let unstaked_tao = s.unstake_from_subnet(1, unstake_alpha_amount);
        assert_eq!(unstaked_tao, expected_unstaked);
        assert_eq!(s.get_tao_reserve(1), expected_tao_reserve);
        assert_eq!(s.get_alpha_reserve(1), alpha_reserve);

        let expected_price =
            ((expected_tao_reserve as u128) << 64) / (alpha_reserve as u128);
        assert_eq!(s.get_tao_per_alpha_price_bits(1), expected_price);
    }
}

// Staking any amount leaves the price at exactly the ratio of the
// resulting reserves.
#[test]
fn test_price_tao_alpha_stake() {
    for &stake_tao_amount in [
        1u64,
        2,
        3,
        100,
        1000,
        1_000_000_000,
        10_000_000_000,
        100_000_000_000,
    ]
    .iter()
    {
        let mut s = Pallet::new();
        let lock_amount: u64 = 100_000_000_000;
        assert!(s.register_network(1, 1, 1, 1, lock_amount, 1));

        let k = (lock_amount as u128) * (lock_amount as u128);
        let new_tao_reserve = lock_amount + stake_tao_amount;
        let new_alpha_reserve = (k / (new_tao_reserve as u128)) as u64;

        let alpha_out = s.stake_into_subnet(1, stake_tao_amount);
        assert_eq!(alpha_out, lock_amount - new_alpha_reserve);
        assert_eq!(s.get_tao_reserve(1), new_tao_reserve);
        assert_eq!(s.get_alpha_reserve(1), new_alpha_reserve);

        let expected_price = ((new_tao_reserve as u128) << 64) / (new_alpha_reserve as u128);
        assert_eq!(s.get_tao_per_alpha_price_bits(1), expected_price);
    }
}

// The stored constant product never moves under any sequence of stake and
// unstake operations, and the product of the reserves stays within one
// unit's worth of it.
#[test]
fn test_swaps_preserve_k() {
    let mut s = Pallet::new();
    let lock_amount: u64 = 100 * TAO;
    assert!(s.register_network(1, 1, 1, 1, lock_amount, 1));
    let k0 = s.get_pool_k(1);
    assert_eq!(k0, (lock_amount as u128) * (lock_amount as u128));

    let moves: [(bool, u64); 8] = [
        (true, 3 * TAO),
        (false, 7 * TAO),
        (true, 1),
        (false, 1),
        (true, 55 * TAO),
        (false, 20 * TAO),
        (true, 123_456_789),
        (false, 987_654_321),
    ];
    for &(stake, amount) in moves.iter() {
        if stake {
            s.stake_into_subnet(1, amount);
        } else {
            s.unstake_from_subnet(1, amount);
        }
        assert_eq!(s.get_pool_k(1), k0);
        let tao = s.get_tao_reserve(1) as u128;
        let alpha = s.get_alpha_reserve(1) as u128;
        assert!(tao * alpha <= k0);
        assert!(k0 < tao * alpha + tao.max(alpha));
    }
}

// A static subnet reports a fixed price of one and does not trade.
#[test]
fn test_static_subnet_excluded_from_reserves() {
    let mut s = Pallet::new();
    assert!(s.add_network(1, 10));
    assert_eq!(s.get_tao_per_alpha_price_bits(1), PRICE_ONE);
    assert!(!s.is_subnet_dynamic(1));
    assert_eq!(s.stake_into_subnet(1, 1000), 0);
    assert_eq!(s.unstake_from_subnet(1, 1000), 0);
    assert_eq!(s.get_tao_reserve(1), 0);
    assert_eq!(s.get_alpha_reserve(1), 0);
    assert_eq!(s.get_pool_k(1), 0);
}
