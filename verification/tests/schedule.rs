use subtensor_core::schedule::should_drain_hotkey_at;
use subtensor_core::state::Pallet;

fn blocks_until_next_epoch(netuid: u16, tempo: u16, block: u64) -> u64 {
    Pallet::blocks_until_next_epoch(netuid, tempo, block)
}

fn should_drain_hotkey(index: u64, block: u64) -> bool {
    Pallet::should_drain_hotkey(index, block)
}

// A subnet with a zero tempo never runs, whatever the block.
#[test]
fn test_tempo_zero_never_fires() {
    assert_eq!(blocks_until_next_epoch(0, 0, 0), u64::MAX);
    assert_eq!(blocks_until_next_epoch(1, 0, 1), u64::MAX);
    assert_eq!(blocks_until_next_epoch(7, 0, 123_456_789), u64::MAX);
    assert_eq!(blocks_until_next_epoch(u16::MAX, 0, u64::MAX), u64::MAX);
    let mut s = Pallet::new();
    assert!(s.add_network(3, 0));
    assert!(!s.should_run_epoch(3, 42));
}

// The staggering table: networks run their epoch when
// (block + netuid + 1) mod (tempo + 1) equals the tempo.
#[test]
fn test_first_epoch_blocks_are_staggered() {
    // tempo 1, netuid 0: first epoch at block 0.
    assert_eq!(blocks_until_next_epoch(0, 1, 0), 0);
    // tempo 1, netuid 1: first epoch at block 1.
    assert_ne!(blocks_until_next_epoch(1, 1, 0), 0);
    assert_eq!(blocks_until_next_epoch(1, 1, 1), 0);
    // tempo 2, netuid 0: first epoch at block 1.
    assert_ne!(blocks_until_next_epoch(0, 2, 0), 0);
    assert_eq!(blocks_until_next_epoch(0, 2, 1), 0);
    // tempo 2, netuid 1: first epoch at block 0.
    assert_eq!(blocks_until_next_epoch(1, 2, 0), 0);
    // tempo 100, netuid 0: first epoch at block 99.
    assert_eq!(blocks_until_next_epoch(0, 100, 99), 0);
    // tempo 100, netuid 1: first epoch at block 98.
    assert_eq!(blocks_until_next_epoch(1, 100, 98), 0);
}

// With a fixed tempo the epoch fires exactly once per tempo+1 blocks.
#[test]
fn test_epoch_once_per_window() {
    let tempo: u16 = 4;
    let mut s = Pallet::new();
    assert!(s.add_network(3, tempo));
    for start in [0u64, 17, 1000] {
        let mut fired: u32 = 0;
        for k in 0..=(tempo as u64) {
            if s.should_run_epoch(3, start + k) {
                fired += 1;
            }
        }
        assert_eq!(fired, 1);
    }
}

// The drain schedule partitions indices: on any block exactly the indices
// congruent to it modulo 7200 drain.
#[test]
fn test_drain_partitions_indices() {
    for block in [0u64, 1, 7199, 7200, 10_000] {
        for index in [0u64, 1, 7199, 7200, 14_400, 10_000] {
            assert_eq!(
                should_drain_hotkey(index, block),
                index % 7200 == block % 7200
            );
        }
    }
    // Each index drains exactly once per 7200-block cycle.
    let mut count: u32 = 0;
    for block in 100..(100 + 7200) {
        if should_drain_hotkey(42, block) {
            count += 1;
        }
    }
    assert_eq!(count, 1);
}

// The configurable variant: a zero period never drains; period one always
// drains.
#[test]
fn test_drain_period_edge_cases() {
    assert!(!should_drain_hotkey_at(5, 5, 0));
    assert!(should_drain_hotkey_at(7, 1234, 1));
    assert!(should_drain_hotkey_at(0, 2, 2));
    assert!(!should_drain_hotkey_at(1, 2, 2));
    assert!(should_drain_hotkey_at(1, 3, 2));
}
