use subtensor_core::state::Pallet;

fn fresh() -> Pallet {
    let mut s = Pallet::new();
    s.set_network_min_lock(100_000);
    s.set_lock_reduction_interval(1000);
    s
}

// Before any registration the lock cost sits at the configured floor.
#[test]
fn test_lock_cost_starts_at_min() {
    let s = fresh();
    assert_eq!(s.get_network_lock_cost(1), 100_000);
}

// Registering doubles the lock cost within the same block.
#[test]
fn test_lock_cost_doubles_in_same_block() {
    let mut s = fresh();
    let lock_amount1 = s.get_network_lock_cost(1);
    assert!(s.register_network(1, 1, 1, 1, lock_amount1, 1));
    let lock_amount2 = s.get_network_lock_cost(1);
    assert_eq!(lock_amount1 * 2, lock_amount2);
}

// One reduction interval later the cost is back at the lock that was paid.
#[test]
fn test_lock_cost_remains_same_after_lock_reduction_interval() {
    let mut s = fresh();
    let lock_amount1 = s.get_network_lock_cost(1);
    assert!(s.register_network(1, 1, 1, 1, lock_amount1, 1));
    let lock_amount2 = s.get_network_lock_cost(1 + 1000);
    assert_eq!(lock_amount1, lock_amount2);
}

// Two reduction intervals later the cost is back at the configured floor.
#[test]
fn test_lock_cost_is_min_after_2_lock_reduction_intervals() {
    let mut s = fresh();
    let lock_amount1 = s.get_network_lock_cost(1);
    let min_lock_cost = 100_000;
    assert!(s.register_network(1, 1, 1, 1, lock_amount1, 1));
    let lock_amount2 = s.get_network_lock_cost(1 + 2 * 1000);
    assert_eq!(lock_amount2, min_lock_cost);
}

// The same holds after two back-to-back registrations.
#[test]
fn test_lock_cost_is_min_after_2_lock_reduction_intervals_2_subnets() {
    let mut s = fresh();
    let lock_amount1 = s.get_network_lock_cost(1);
    assert!(s.register_network(1, 1, 1, 1, lock_amount1, 1));
    let lock_amount2 = s.get_network_lock_cost(1);
    assert!(s.register_network(2, 1, 1, 1, lock_amount2, 1));
    let lock_amount3 = s.get_network_lock_cost(1 + 2 * 1000);
    assert_eq!(lock_amount3, 100_000);
}

// A registration after two reduction intervals goes through at the old
// cost.
#[test]
fn test_registration_after_2_lock_reduction_intervals_ok() {
    let mut s = fresh();
    let lock_amount1 = s.get_network_lock_cost(1);
    assert!(s.register_network(1, 1, 1, 1, lock_amount1, 1));
    assert!(s.register_network(2, 1, 1, 1, lock_amount1, 1 + 2 * 1000 + 1));
}

// The decay is linear in between: halfway through the interval the cost
// sits halfway between double and single.
#[test]
fn test_lock_cost_decays_linearly() {
    let mut s = Pallet::new();
    s.set_network_min_lock(100);
    s.set_lock_reduction_interval(1000);
    assert!(s.register_network(1, 1, 1, 1, 1000, 1));
    // Cost right after: 2000. Decay rate: 1000 / 1000 = 1 per block.
    assert_eq!(s.get_network_lock_cost(1), 2000);
    assert_eq!(s.get_network_lock_cost(1 + 500), 1500);
    assert_eq!(s.get_network_lock_cost(1 + 1000), 1000);
    assert_eq!(s.get_network_lock_cost(1 + 1500), 500);
    assert_eq!(s.get_network_lock_cost(1 + 1900), 100);
    // The floor holds from there on.
    assert_eq!(s.get_network_lock_cost(1 + 2000), 100);
    assert_eq!(s.get_network_lock_cost(u64::MAX), 100);
}

// A netuid that does not sit above every stored subnet is refused.
#[test]
fn test_register_requires_ascending_netuid() {
    let mut s = Pallet::new();
    assert!(s.register_network(5, 1, 1, 1, 1000, 1));
    assert!(!s.register_network(5, 1, 1, 1, 1000, 2));
    assert!(!s.register_network(3, 1, 1, 1, 1000, 2));
    assert!(s.register_network(6, 1, 1, 1, 1000, 2));
}
