//! The decaying registration lock cost, and the registration of a new
//! dynamic subnet, which seeds its pool with the lock.

use vstd::prelude::*;
use crate::state::Pallet;
use crate::state::Subnet;
use crate::state::has_stake_entry;
use crate::state::StakeEntry;
use crate::state::OwnerEntry;
use crate::children::spec_owner_exists;

verus! {

/// The registration lock cost at `block`: twice the last lock paid (once,
/// if none was ever paid), decaying by one `lock_reduction_interval`-th of
/// the last lock per block since it was paid, and never below the
/// configured floor. A zero interval decays immediately to the floor.
pub open spec fn spec_lock_cost(s: Pallet, block: u64) -> int {
    if s.lock_reduction_interval == 0 {
        s.network_min_lock as int
    } else {
        let mult: int = if s.network_last_lock_block == 0 {
            1
        } else {
            2
        };
        let doubled = s.network_last_lock * mult;
        let rate = s.network_last_lock as int / s.lock_reduction_interval as int;
        let elapsed: int = if block >= s.network_last_lock_block {
            block - s.network_last_lock_block
        } else {
            0
        };
        let decayed = if doubled - rate * elapsed >= 0 {
            doubled - rate * elapsed
        } else {
            0
        };
        if decayed >= s.network_min_lock {
            if decayed > u64::MAX {
                u64::MAX as int
            } else {
                decayed
            }
        } else {
            s.network_min_lock as int
        }
    }
}

/// A new subnet can be registered under `netuid` exactly when every stored
/// subnet sits below it.
pub open spec fn spec_can_register(s: Pallet, netuid: u16) -> bool {
    s.subnets@.len() == 0 || s.subnets@[s.subnets@.len() - 1].netuid < netuid
}

impl Pallet {
    /// The current registration lock cost: it doubles right after a
    /// registration and decays linearly back to the configured floor over
    /// two reduction intervals.
    pub fn get_network_lock_cost(&self, current_block: u64) -> (r: u64)
        ensures
            r == spec_lock_cost(*self, current_block),
    {
        if self.lock_reduction_interval == 0 {
            return self.network_min_lock;
        }
        let mult: u64 = if self.network_last_lock_block == 0 {
            1
        } else {
            2
        };
        proof {
            assert((self.network_last_lock as int) * 2 <= (u64::MAX as int) * 2)
                by (nonlinear_arith)
                requires self.network_last_lock <= u64::MAX;
            assert((self.network_last_lock as int) * 1 <= (u64::MAX as int) * 2)
                by (nonlinear_arith)
                requires self.network_last_lock <= u64::MAX;
        }
        let doubled: u128 = (self.network_last_lock as u128) * (mult as u128);
        let rate: u64 = self.network_last_lock / self.lock_reduction_interval;
        let elapsed: u64 = current_block.saturating_sub(self.network_last_lock_block);
        proof {
            assert((rate as int) * (elapsed as int) <= (u64::MAX as int) * (u64::MAX as int))
                by (nonlinear_arith)
                requires rate <= u64::MAX && elapsed <= u64::MAX;
            assert((u64::MAX as int) * (u64::MAX as int) < (u128::MAX as int) + 1);
            assert((rate as int) * (elapsed as int) >= 0) by (nonlinear_arith)
                requires rate >= 0 && elapsed >= 0;
        }
        let decay: u128 = (rate as u128) * (elapsed as u128);
        let decayed: u128 = if doubled >= decay {
            doubled - decay
        } else {
            0
        };
        if decayed >= (self.network_min_lock as u128) {
            if decayed > (u64::MAX as u128) {
                // Unreachable for any lock below half of the range; kept so
                // the conversion below is total.
                u64::MAX
            } else {
                proof {
                    assert(spec_lock_cost(*self, current_block) == decayed);
                }
                decayed as u64
            }
        } else {
            self.network_min_lock
        }
    }

    /// Registers a dynamic subnet under `netuid` for `hotkey`, owned by
    /// `coldkey`, locking `lock_amount` at `block`: the pool opens with the
    /// lock on both sides (a price of one), the lock becomes the coldkey's
    /// stake on the hotkey, and the lock cost bookkeeping is stamped.
    /// Fails, changing nothing, when the netuid does not sit above every
    /// stored subnet.
    pub fn register_network(
        &mut self,
        netuid: u16,
        tempo: u16,
        hotkey: u64,
        coldkey: u64,
        lock_amount: u64,
        block: u64,
    ) -> (r: bool)
        requires
            old(self).wf(),
        ensures
            final(self).wf(),
            r == spec_can_register(*old(self), netuid),
            !r ==> *final(self) == *old(self),
            r ==> {
                &&& final(self).subnets@ == old(self).subnets@.push(
                    Subnet {
                        netuid,
                        tempo,
                        emission_value: 0u64,
                        pending_emission: 0u64,
                        dynamic: true,
                        tao_reserve: lock_amount,
                        alpha_reserve: lock_amount,
                        k: (lock_amount * lock_amount) as u128,
                    },
                )
                &&& final(self).network_last_lock == lock_amount
                &&& final(self).network_last_lock_block == block
                &&& final(self).hotkeys == old(self).hotkeys
                &&& final(self).child_keys == old(self).child_keys
                &&& final(self).parent_keys == old(self).parent_keys
                &&& final(self).last_children_block == old(self).last_children_block
                &&& final(self).total_issuance == old(self).total_issuance
                &&& final(self).hotkey_emission_tempo == old(self).hotkey_emission_tempo
                &&& final(self).tx_rate_limit == old(self).tx_rate_limit
                &&& final(self).network_min_lock == old(self).network_min_lock
                &&& final(self).lock_reduction_interval == old(self).lock_reduction_interval
                &&& (spec_owner_exists(old(self).owners@, hotkey)
                    ==> final(self).owners == old(self).owners)
                &&& (!spec_owner_exists(old(self).owners@, hotkey)
                    ==> final(self).owners@ == old(self).owners@.push(
                    OwnerEntry { hotkey, coldkey },
                ))
                &&& forall|i: int|
                    0 <= i < old(self).stakes@.len() ==> {
                        let e0 = old(self).stakes@[i];
                        let e1 = #[trigger] final(self).stakes@[i];
                        &&& e1.coldkey == e0.coldkey
                        &&& e1.hotkey == e0.hotkey
                        &&& e1.last_add_block == e0.last_add_block
                        &&& e1.amount == if e0.coldkey == coldkey && e0.hotkey == hotkey {
                            if e0.amount + lock_amount <= u64::MAX {
                                (e0.amount + lock_amount) as u64
                            } else {
                                u64::MAX
                            }
                        } else {
                            e0.amount
                        }
                    }
                &&& (has_stake_entry(old(self).stakes@, coldkey, hotkey)
                    ==> final(self).stakes@.len() == old(self).stakes@.len())
                &&& (!has_stake_entry(old(self).stakes@, coldkey, hotkey) ==> final(self).stakes@
                    == old(self).stakes@.push(
                    StakeEntry { coldkey, hotkey, amount: lock_amount, last_add_block: 0u64 },
                ))
            },
    {
        if self.subnets.len() > 0 && self.subnets[self.subnets.len() - 1].netuid >= netuid {
            return false;
        }
        proof {
            assert((lock_amount as int) * (lock_amount as int) <= (u64::MAX as int) * (
            u64::MAX as int)) by (nonlinear_arith)
                requires lock_amount <= u64::MAX;
            assert((u64::MAX as int) * (u64::MAX as int) < (u128::MAX as int) + 1);
        }
        let entry = Subnet {
            netuid,
            tempo,
            emission_value: 0,
            pending_emission: 0,
            dynamic: true,
            tao_reserve: lock_amount,
            alpha_reserve: lock_amount,
            k: (lock_amount as u128) * (lock_amount as u128),
        };
        proof {
            assert forall|i: int| 0 <= i < self.subnets@.len()
                implies (#[trigger] self.subnets@[i]).netuid < netuid by {
                if i < self.subnets@.len() - 1 {
                    assert(self.subnets@[i].netuid < self.subnets@[self.subnets@.len() - 1].netuid);
                }
            }
        }
        self.subnets.push(entry);
        self.ensure_owner(hotkey, coldkey);
        self.increase_stake(coldkey, hotkey, lock_amount);
        self.network_last_lock = lock_amount;
        self.network_last_lock_block = block;
        true
    }
}

} // verus!
