//! The two periodic schedules that drive the per-block transition: the
//! per-subnet epoch tempo and the per-hotkey drain cycle.

use vstd::prelude::*;
use crate::state::Pallet;
use crate::state::has_subnet;
use crate::state::subnet_at;

verus! {

/// The global hotkey-drain period: each hotkey index is drained once every
/// this many blocks.
pub const DRAIN_PERIOD: u64 = 7200;

/// Saturating `block + netuid + 1`, the staggered position of a subnet in
/// the block schedule.
pub open spec fn staggered_block(netuid: u16, block_number: u64) -> u64 {
    if block_number + netuid + 1 > u64::MAX {
        u64::MAX
    } else {
        (block_number + netuid + 1) as u64
    }
}

/// Number of blocks remaining before the subnet `netuid` with period `tempo`
/// runs its epoch; `u64::MAX` when `tempo == 0` (such a subnet never runs).
pub open spec fn spec_blocks_until_next_epoch(netuid: u16, tempo: u16, block_number: u64) -> u64 {
    if tempo == 0 {
        u64::MAX
    } else {
        (tempo - (staggered_block(netuid, block_number) as int) % (tempo + 1)) as u64
    }
}

/// A subnet runs its epoch exactly when no blocks remain until it.
pub open spec fn spec_should_run_epoch(netuid: u16, tempo: u16, block_number: u64) -> bool {
    spec_blocks_until_next_epoch(netuid, tempo, block_number) == 0
}

/// The hotkey at position `index` drains once per `period`-block window.
pub open spec fn spec_should_drain_hotkey_at(index: u64, block: u64, period: u64) -> bool {
    &&& period != 0
    &&& block % period == index % period
}

/// Law: a subnet with a zero tempo never runs its epoch, whatever the
/// block: the distance to its next epoch is always `u64::MAX`.
pub proof fn lemma_tempo_zero_never_fires(netuid: u16, block_number: u64)
    ensures
        spec_blocks_until_next_epoch(netuid, 0, block_number) == u64::MAX,
        !spec_should_run_epoch(netuid, 0, block_number),
{
}

/// Law: with a nonzero tempo, some block of every window of `tempo + 1`
/// consecutive blocks runs the epoch; the firing block is offset by the
/// subnet id, as the staggered position shows.
pub proof fn lemma_epoch_fires_in_window(netuid: u16, tempo: u16, start: u64)
    requires
        tempo != 0,
        start + tempo + netuid + 1 <= u64::MAX,
    ensures
        exists|k: u64|
            k <= tempo && #[trigger] spec_should_run_epoch(netuid, tempo, (start + k) as u64),
{
    let d = tempo as int + 1;
    let a = start + netuid + 1;
    let m = a % d;
    vstd::arithmetic::div_mod::lemma_mod_bound(a as int, d);
    let k = (tempo - m) as u64;
    vstd::arithmetic::div_mod::lemma_fundamental_div_mod(a as int, d);
    let q = a as int / d;
    assert((start + k + netuid + 1) as int == d * q + tempo);
    vstd::arithmetic::div_mod::lemma_mod_multiples_vanish(q, tempo as int, d);
    vstd::arithmetic::div_mod::lemma_small_mod(tempo as nat, d as nat);
    assert((d * q + tempo) % d == tempo);
    assert(spec_should_run_epoch(netuid, tempo, (start + k) as u64)) by {
        assert(staggered_block(netuid, (start + k) as u64) == (start + k + netuid + 1) as u64);
    }
}

/// Law: with a nonzero tempo the epoch fires at most once per window of
/// `tempo + 1` consecutive blocks: two firing offsets into one window are
/// the same offset.
pub proof fn lemma_epoch_once_per_window(netuid: u16, tempo: u16, start: u64, k1: u64, k2: u64)
    requires
        tempo != 0,
        start + tempo + netuid + 1 <= u64::MAX,
        k1 <= tempo,
        k2 <= tempo,
        spec_should_run_epoch(netuid, tempo, (start + k1) as u64),
        spec_should_run_epoch(netuid, tempo, (start + k2) as u64),
    ensures
        k1 == k2,
{
    let d = tempo as int + 1;
    let a1 = (start + k1 + netuid + 1) as int;
    let a2 = (start + k2 + netuid + 1) as int;
    assert(staggered_block(netuid, (start + k1) as u64) == a1);
    assert(staggered_block(netuid, (start + k2) as u64) == a2);
    assert(a1 % d == tempo && a2 % d == tempo);
    vstd::arithmetic::div_mod::lemma_fundamental_div_mod(a1, d);
    vstd::arithmetic::div_mod::lemma_fundamental_div_mod(a2, d);
    let q1 = a1 / d;
    let q2 = a2 / d;
    assert(a2 - a1 == d * (q2 - q1)) by (nonlinear_arith)
        requires a1 == d * q1 + tempo && a2 == d * q2 + tempo;
    assert(-d < a2 - a1 < d);
    assert(q2 - q1 == 0) by (nonlinear_arith)
        requires d > 0 && -d < d * (q2 - q1) < d;
}

/// Law: the drain schedule partitions the hotkey indices evenly: on any
/// block, exactly the indices congruent to the block modulo the period
/// drain, so each index drains once per period-long window.
pub proof fn lemma_drain_partitions(index: u64, block: u64, period: u64)
    requires
        period != 0,
    ensures
        spec_should_drain_hotkey_at(index, block, period) <==> index % period == block % period,
{
}

/// Law: an index drains at exactly one offset into any window of `period`
/// consecutive blocks.
pub proof fn lemma_drain_once_per_cycle(index: u64, start: u64, period: u64, k1: u64, k2: u64)
    requires
        period != 0,
        start + period <= u64::MAX,
        k1 < period,
        k2 < period,
        spec_should_drain_hotkey_at(index, (start + k1) as u64, period),
        spec_should_drain_hotkey_at(index, (start + k2) as u64, period),
    ensures
        k1 == k2,
{
    let d = period as int;
    let a1 = (start + k1) as int;
    let a2 = (start + k2) as int;
    assert(a1 % d == index % period && a2 % d == index % period);
    vstd::arithmetic::div_mod::lemma_fundamental_div_mod(a1, d);
    vstd::arithmetic::div_mod::lemma_fundamental_div_mod(a2, d);
    let q1 = a1 / d;
    let q2 = a2 / d;
    let m = a1 % d;
    assert(a2 - a1 == d * (q2 - q1)) by (nonlinear_arith)
        requires a1 == d * q1 + m && a2 == d * q2 + m;
    assert(-d < a2 - a1 < d);
    assert(q2 - q1 == 0) by (nonlinear_arith)
        requires d > 0 && -d < d * (q2 - q1) < d;
}

/// Law: an index does drain somewhere in any window of `period`
/// consecutive blocks.
pub proof fn lemma_drain_fires_in_cycle(index: u64, start: u64, period: u64)
    requires
        period != 0,
        start + period <= u64::MAX,
    ensures
        exists|k: u64|
            k < period && #[trigger] spec_should_drain_hotkey_at(index, (start + k) as u64, period),
{
    let d = period as int;
    let target = index % period;
    let m = start % period;
    vstd::arithmetic::div_mod::lemma_mod_bound(start as int, d);
    vstd::arithmetic::div_mod::lemma_mod_bound(index as int, d);
    let k: u64 = if target >= m {
        (target - m) as u64
    } else {
        (target + period - m) as u64
    };
    assert(k < period);
    vstd::arithmetic::div_mod::lemma_fundamental_div_mod(start as int, d);
    let q = start as int / d;
    if target >= m {
        assert((start + k) as int == d * q + target);
        vstd::arithmetic::div_mod::lemma_mod_multiples_vanish(q, target as int, d);
    } else {
        assert(d * (q + 1) == d * q + d) by (nonlinear_arith);
        assert((start + k) as int == d * (q + 1) + target);
        vstd::arithmetic::div_mod::lemma_mod_multiples_vanish(q + 1, target as int, d);
    }
    vstd::arithmetic::div_mod::lemma_small_mod(target as nat, d as nat);
    assert(spec_should_drain_hotkey_at(index, (start + k) as u64, period));
}

/// `should_drain_hotkey` with a configurable period; a zero period never
/// drains anything.
pub fn should_drain_hotkey_at(index: u64, block: u64, period: u64) -> (r: bool)
    ensures
        r == spec_should_drain_hotkey_at(index, block, period),
{
    if period == 0 {
        return false;
    }
    block % period == index % period
}

impl Pallet {
    /// Blocks remaining before subnet `netuid` next runs its epoch.
    ///
    /// A subnet with `tempo == 0` never runs: the result is `u64::MAX`.
    /// Otherwise the result is `tempo - ((block + netuid + 1) mod
    /// (tempo + 1))`, which staggers subnets so that not all epochs land on
    /// the same block.
    pub fn blocks_until_next_epoch(netuid: u16, tempo: u16, block_number: u64) -> (r: u64)
        ensures
            r == spec_blocks_until_next_epoch(netuid, tempo, block_number),
    {
        if tempo == 0 {
            return u64::MAX;
        }
        let stagger: u64 = block_number.saturating_add((netuid as u64).saturating_add(1));
        (tempo as u64) - stagger % ((tempo as u64) + 1)
    }

    /// True exactly when no blocks remain before the subnet's epoch, at its
    /// stored tempo; an unknown subnet has a zero tempo and never runs.
    pub fn should_run_epoch(&self, netuid: u16, current_block: u64) -> (r: bool)
        requires
            self.wf(),
        ensures
            r == spec_should_run_epoch(
                netuid,
                if has_subnet(self.subnets@, netuid) {
                    subnet_at(self.subnets@, netuid).tempo
                } else {
                    0
                },
                current_block,
            ),
    {
        let tempo: u16 = self.get_tempo(netuid);
        Pallet::blocks_until_next_epoch(netuid, tempo, current_block) == 0
    }

    /// Whether the hotkey at `index` should be drained on `block`, with the
    /// default period of 7200 blocks: true once per day per index when the
    /// transition runs every block.
    pub fn should_drain_hotkey(index: u64, block: u64) -> (r: bool)
        ensures
            r == spec_should_drain_hotkey_at(index, block, DRAIN_PERIOD),
    {
        block % DRAIN_PERIOD == index % DRAIN_PERIOD
    }
}

} // verus!
