use subtensor_core::children::ChildrenError;
use subtensor_core::state::Pallet;

// A declaration of six children fails with the too-many-children error and
// leaves the prior list unmodified.
#[test]
fn test_too_many_children_rejected() {
    let mut s = Pallet::new();
    assert!(s.add_network(1, 10));
    assert!(s.register_network(2, 10, 1, 2, 1_000, 1));
    // An initial list of one child succeeds.
    let first = vec![(100u64, 7u64)];
    assert_eq!(s.do_set_children(2, 1, 2, &first, 10), Ok(()));
    assert_eq!(s.get_children(1, 2), first);
    // Six children are one too many.
    let six = vec![
        (1u64, 10u64),
        (1, 11),
        (1, 12),
        (1, 13),
        (1, 14),
        (1, 15),
    ];
    assert_eq!(
        s.do_set_children(2, 1, 2, &six, 11),
        Err(ChildrenError::TooManyChildren)
    );
    // The prior children list is unmodified.
    assert_eq!(s.get_children(1, 2), first);
}

// Each validation failure surfaces as its own error, in order.
#[test]
fn test_set_children_error_order() {
    let mut s = Pallet::new();
    assert!(s.add_network(1, 10));
    assert!(s.register_network(2, 10, 1, 2, 1_000, 1));
    // Root subnet.
    assert_eq!(
        s.do_set_children(2, 1, 0, &vec![(1, 5)], 10),
        Err(ChildrenError::RegistrationNotPermittedOnRootSubnet)
    );
    // Unknown subnet.
    assert_eq!(
        s.do_set_children(2, 1, 9, &vec![(1, 5)], 10),
        Err(ChildrenError::SubNetworkDoesNotExist)
    );
    // Wrong coldkey.
    assert_eq!(
        s.do_set_children(3, 1, 2, &vec![(1, 5)], 10),
        Err(ChildrenError::NonAssociatedColdKey)
    );
    // Proportions overflowing a u64.
    assert_eq!(
        s.do_set_children(2, 1, 2, &vec![(u64::MAX, 5), (1, 6)], 10),
        Err(ChildrenError::ProportionOverflow)
    );
    // A self-referential child.
    assert_eq!(
        s.do_set_children(2, 1, 2, &vec![(1, 1)], 10),
        Err(ChildrenError::InvalidChild)
    );
    // A duplicate child.
    assert_eq!(
        s.do_set_children(2, 1, 2, &vec![(1, 5), (2, 5)], 10),
        Err(ChildrenError::DuplicateChild)
    );
    // All checks pass.
    assert_eq!(s.do_set_children(2, 1, 2, &vec![(1, 5), (2, 6)], 10), Ok(()));
}

// The rate limit refuses a second change inside the window and allows one
// after it.
#[test]
fn test_set_children_rate_limited() {
    let mut s = Pallet::new();
    assert!(s.add_network(1, 10));
    assert!(s.register_network(2, 10, 1, 2, 1_000, 1));
    s.set_tx_rate_limit(100);
    assert_eq!(s.do_set_children(2, 1, 2, &vec![(1, 5)], 10), Ok(()));
    assert_eq!(
        s.do_set_children(2, 1, 2, &vec![(1, 6)], 50),
        Err(ChildrenError::TxRateLimitExceeded)
    );
    assert_eq!(s.do_set_children(2, 1, 2, &vec![(1, 6)], 110), Ok(()));
}

// On success the new list replaces the old one, the hotkey leaves its old
// children's parent lists, and every new child's parent list gains the
// hotkey.
#[test]
fn test_set_children_rewires_parents() {
    let mut s = Pallet::new();
    assert!(s.add_network(1, 10));
    assert!(s.register_network(2, 10, 1, 2, 1_000, 1));
    assert_eq!(s.do_set_children(2, 1, 2, &vec![(30, 7), (40, 8)], 10), Ok(()));
    assert_eq!(s.get_children(1, 2), vec![(30, 7), (40, 8)]);
    assert_eq!(s.get_parents(7, 2), vec![(30, 1)]);
    assert_eq!(s.get_parents(8, 2), vec![(40, 1)]);
    // Replace the list: child 8 leaves, child 9 arrives, child 7 changes
    // proportion.
    assert_eq!(s.do_set_children(2, 1, 2, &vec![(50, 7), (60, 9)], 11), Ok(()));
    assert_eq!(s.get_children(1, 2), vec![(50, 7), (60, 9)]);
    assert_eq!(s.get_parents(7, 2), vec![(50, 1)]);
    assert_eq!(s.get_parents(8, 2), Vec::<(u64, u64)>::new());
    assert_eq!(s.get_parents(9, 2), vec![(60, 1)]);
    // Another subnet's edges are untouched by all of it.
    assert_eq!(s.get_children(1, 1), Vec::<(u64, u64)>::new());
}

// Pure reads on an empty store come back empty.
#[test]
fn test_get_children_and_parents_empty() {
    let s = Pallet::new();
    assert_eq!(s.get_children(5, 1), Vec::<(u64, u64)>::new());
    assert_eq!(s.get_parents(5, 1), Vec::<(u64, u64)>::new());
}
