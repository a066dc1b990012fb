//! The per-subnet constant-product market maker: buying Alpha with TAO,
//! selling Alpha for TAO, and the TAO-per-Alpha price. Swaps never touch
//! the stored product `k`; only emission injection raises it.

use vstd::prelude::*;
use crate::state::Pallet;
use crate::state::Subnet;
use crate::state::has_subnet;
use crate::state::lemma_subnet_update;
use crate::state::subnet_at;

verus! {

/// The bits of a price of exactly one, in 64.64 fixed point.
pub const PRICE_ONE_BITS: u128 = 0x1_0000_0000_0000_0000;

/// Everything of the state but the subnets is the same.
pub open spec fn same_but_subnets(a: Pallet, b: Pallet) -> bool {
    &&& a.hotkeys == b.hotkeys
    &&& a.stakes == b.stakes
    &&& a.child_keys == b.child_keys
    &&& a.parent_keys == b.parent_keys
    &&& a.owners == b.owners
    &&& a.last_children_block == b.last_children_block
    &&& a.total_issuance == b.total_issuance
    &&& a.hotkey_emission_tempo == b.hotkey_emission_tempo
    &&& a.tx_rate_limit == b.tx_rate_limit
    &&& a.network_min_lock == b.network_min_lock
    &&& a.network_last_lock == b.network_last_lock
    &&& a.network_last_lock_block == b.network_last_lock_block
    &&& a.lock_reduction_interval == b.lock_reduction_interval
}

/// The pool after TAO is paid in: the TAO side grows by the payment,
/// saturating, and the Alpha side becomes `k` divided by the new TAO side,
/// rounded down. A static pool, or an empty one, does not trade.
pub open spec fn spec_stake_result(sub: Subnet, tao_in: u64) -> Subnet {
    let tao2 = if sub.tao_reserve + tao_in <= u64::MAX {
        (sub.tao_reserve + tao_in) as u64
    } else {
        u64::MAX
    };
    if !sub.dynamic || tao2 == 0 {
        sub
    } else {
        let q = sub.k / (tao2 as u128);
        let alpha2 = if q > sub.alpha_reserve {
            sub.alpha_reserve
        } else {
            q as u64
        };
        Subnet {
            netuid: sub.netuid,
            tempo: sub.tempo,
            emission_value: sub.emission_value,
            pending_emission: sub.pending_emission,
            dynamic: sub.dynamic,
            tao_reserve: tao2,
            alpha_reserve: alpha2,
            k: sub.k,
        }
    }
}

/// The Alpha a staker is credited: what the Alpha side lost.
pub open spec fn spec_stake_alpha_out(sub: Subnet, tao_in: u64) -> u64 {
    (sub.alpha_reserve - spec_stake_result(sub, tao_in).alpha_reserve) as u64
}

/// The pool after Alpha is paid in: the Alpha side grows by the payment,
/// saturating, and the TAO side becomes `k` divided by the new Alpha side,
/// rounded down. A static pool, or an empty one, does not trade.
pub open spec fn spec_unstake_result(sub: Subnet, alpha_in: u64) -> Subnet {
    let alpha2 = if sub.alpha_reserve + alpha_in <= u64::MAX {
        (sub.alpha_reserve + alpha_in) as u64
    } else {
        u64::MAX
    };
    if !sub.dynamic || alpha2 == 0 {
        sub
    } else {
        let q = sub.k / (alpha2 as u128);
        let tao2 = if q > sub.tao_reserve {
            sub.tao_reserve
        } else {
            q as u64
        };
        Subnet {
            netuid: sub.netuid,
            tempo: sub.tempo,
            emission_value: sub.emission_value,
            pending_emission: sub.pending_emission,
            dynamic: sub.dynamic,
            tao_reserve: tao2,
            alpha_reserve: alpha2,
            k: sub.k,
        }
    }
}

/// The TAO an unstaker is returned: what the TAO side lost.
pub open spec fn spec_unstake_tao_out(sub: Subnet, alpha_in: u64) -> u64 {
    (sub.tao_reserve - spec_unstake_result(sub, alpha_in).tao_reserve) as u64
}

/// The TAO-per-Alpha price of a subnet in 64.64 fixed-point bits:
/// `tao_reserve / alpha_reserve` for a dynamic pool, a fixed price of one
/// for a static or unknown subnet, and zero for a drained dynamic pool.
pub open spec fn spec_price_bits(s: Pallet, netuid: u16) -> u128 {
    if has_subnet(s.subnets@, netuid) && subnet_at(s.subnets@, netuid).dynamic {
        let sub = subnet_at(s.subnets@, netuid);
        if sub.alpha_reserve == 0 {
            0
        } else {
            (sub.tao_reserve * PRICE_ONE_BITS / (sub.alpha_reserve as int)) as u128
        }
    } else {
        PRICE_ONE_BITS
    }
}

impl Pallet {
    /// Buys Alpha with `tao_in` on the subnet's pool and returns the Alpha
    /// bought; the stored product `k` is unchanged, and the product of the
    /// reserves stays within one TAO-side unit of `k`. Nothing happens on
    /// an unknown, static, or empty pool.
    pub fn stake_into_subnet(&mut self, netuid: u16, tao_in: u64) -> (r: u64)
        requires
            old(self).wf(),
        ensures
            final(self).wf(),
            same_but_subnets(*final(self), *old(self)),
            forall|n: u16|
                #[trigger] has_subnet(final(self).subnets@, n) == has_subnet(
                    old(self).subnets@,
                    n,
                ),
            !has_subnet(old(self).subnets@, netuid) ==> *final(self) == *old(self) && r == 0,
            has_subnet(old(self).subnets@, netuid) ==> {
                &&& subnet_at(final(self).subnets@, netuid) == spec_stake_result(
                    subnet_at(old(self).subnets@, netuid),
                    tao_in,
                )
                &&& r == spec_stake_alpha_out(subnet_at(old(self).subnets@, netuid), tao_in)
            },
            forall|n: u16|
                n != netuid && has_subnet(old(self).subnets@, n) ==> #[trigger] subnet_at(
                    final(self).subnets@,
                    n,
                ) == subnet_at(old(self).subnets@, n),
            has_subnet(old(self).subnets@, netuid) ==> ({
                let sub0 = subnet_at(old(self).subnets@, netuid);
                let sub1 = subnet_at(final(self).subnets@, netuid);
                &&& sub1.k == sub0.k
                &&& (sub0.dynamic && sub0.tao_reserve + tao_in <= u64::MAX && sub0.tao_reserve
                    + tao_in > 0 && sub0.k / ((sub0.tao_reserve + tao_in) as u128)
                    <= sub0.alpha_reserve ==> sub1.tao_reserve * sub1.alpha_reserve <= sub0.k
                    < sub1.tao_reserve * sub1.alpha_reserve + sub1.tao_reserve)
            }),
    {
        let idx = match self.find_subnet(netuid) {
            Some(i) => i,
            None => {
                return 0;
            },
        };
        let sub_dynamic: bool = self.subnets[idx].dynamic;
        let tao0: u64 = self.subnets[idx].tao_reserve;
        let alpha0: u64 = self.subnets[idx].alpha_reserve;
        let k: u128 = self.subnets[idx].k;
        let tao2: u64 = tao0.saturating_add(tao_in);
        if !sub_dynamic || tao2 == 0 {
            proof {
                let sub0 = subnet_at(old(self).subnets@, netuid);
                assert(spec_stake_result(sub0, tao_in) == sub0);
            }
            return 0;
        }
        let q: u128 = k / (tao2 as u128);
        let alpha2: u64 = if q > (alpha0 as u128) {
            alpha0
        } else {
            q as u64
        };
        let ghost before = self.subnets@;
        self.subnets[idx].tao_reserve = tao2;
        let ghost mid = self.subnets@;
        self.subnets[idx].alpha_reserve = alpha2;
        proof {
            let e1 = mid[idx as int];
            let e2 = self.subnets@[idx as int];
            assert(mid == before.update(idx as int, e1));
            assert(self.subnets@ == mid.update(idx as int, e2));
            assert forall|n: u16| true implies #[trigger] has_subnet(self.subnets@, n) == has_subnet(
                before,
                n,
            ) by {
                lemma_subnet_update(before, idx as int, e1, n);
                lemma_subnet_update(mid, idx as int, e2, n);
            }
            assert forall|n: u16| n != netuid && has_subnet(before, n) implies #[trigger] subnet_at(
                self.subnets@,
                n,
            ) == subnet_at(before, n) by {
                lemma_subnet_update(before, idx as int, e1, n);
                lemma_subnet_update(mid, idx as int, e2, n);
            }
            lemma_subnet_update(before, idx as int, e1, netuid);
            lemma_subnet_update(mid, idx as int, e2, netuid);
            assert(subnet_at(self.subnets@, netuid) == spec_stake_result(
                subnet_at(before, netuid),
                tao_in,
            ));
            if q <= alpha0 as u128 {
                vstd::arithmetic::div_mod::lemma_fundamental_div_mod(k as int, tao2 as int);
            }
        }
        alpha0 - alpha2
    }

    /// Sells `alpha_in` for TAO on the subnet's pool and returns the TAO
    /// freed; the stored product `k` is unchanged, and the product of the
    /// reserves stays within one Alpha-side unit of `k`. Nothing happens on
    /// an unknown, static, or empty pool.
    pub fn unstake_from_subnet(&mut self, netuid: u16, alpha_in: u64) -> (r: u64)
        requires
            old(self).wf(),
        ensures
            final(self).wf(),
            same_but_subnets(*final(self), *old(self)),
            forall|n: u16|
                #[trigger] has_subnet(final(self).subnets@, n) == has_subnet(
                    old(self).subnets@,
                    n,
                ),
            !has_subnet(old(self).subnets@, netuid) ==> *final(self) == *old(self) && r == 0,
            has_subnet(old(self).subnets@, netuid) ==> {
                &&& subnet_at(final(self).subnets@, netuid) == spec_unstake_result(
                    subnet_at(old(self).subnets@, netuid),
                    alpha_in,
                )
                &&& r == spec_unstake_tao_out(subnet_at(old(self).subnets@, netuid), alpha_in)
            },
            forall|n: u16|
                n != netuid && has_subnet(old(self).subnets@, n) ==> #[trigger] subnet_at(
                    final(self).subnets@,
                    n,
                ) == subnet_at(old(self).subnets@, n),
            has_subnet(old(self).subnets@, netuid) ==> ({
                let sub0 = subnet_at(old(self).subnets@, netuid);
                let sub1 = subnet_at(final(self).subnets@, netuid);
                &&& sub1.k == sub0.k
                &&& (sub0.dynamic && sub0.alpha_reserve + alpha_in <= u64::MAX && sub0.alpha_reserve
                    + alpha_in > 0 && sub0.k / ((sub0.alpha_reserve + alpha_in) as u128)
                    <= sub0.tao_reserve ==> sub1.tao_reserve * sub1.alpha_reserve <= sub0.k
                    < sub1.tao_reserve * sub1.alpha_reserve + sub1.alpha_reserve)
            }),
    {
        let idx = match self.find_subnet(netuid) {
            Some(i) => i,
            None => {
                return 0;
            },
        };
        let sub_dynamic: bool = self.subnets[idx].dynamic;
        let tao0: u64 = self.subnets[idx].tao_reserve;
        let alpha0: u64 = self.subnets[idx].alpha_reserve;
        let k: u128 = self.subnets[idx].k;
        let alpha2: u64 = alpha0.saturating_add(alpha_in);
        if !sub_dynamic || alpha2 == 0 {
            proof {
                let sub0 = subnet_at(old(self).subnets@, netuid);
                assert(spec_unstake_result(sub0, alpha_in) == sub0);
            }
            return 0;
        }
        let q: u128 = k / (alpha2 as u128);
        let tao2: u64 = if q > (tao0 as u128) {
            tao0
        } else {
            q as u64
        };
        let ghost before = self.subnets@;
        self.subnets[idx].tao_reserve = tao2;
        let ghost mid = self.subnets@;
        self.subnets[idx].alpha_reserve = alpha2;
        proof {
            let e1 = mid[idx as int];
            let e2 = self.subnets@[idx as int];
            assert(mid == before.update(idx as int, e1));
            assert(self.subnets@ == mid.update(idx as int, e2));
            assert forall|n: u16| true implies #[trigger] has_subnet(self.subnets@, n) == has_subnet(
                before,
                n,
            ) by {
                lemma_subnet_update(before, idx as int, e1, n);
                lemma_subnet_update(mid, idx as int, e2, n);
            }
            assert forall|n: u16| n != netuid && has_subnet(before, n) implies #[trigger] subnet_at(
                self.subnets@,
                n,
            ) == subnet_at(before, n) by {
                lemma_subnet_update(before, idx as int, e1, n);
                lemma_subnet_update(mid, idx as int, e2, n);
            }
            lemma_subnet_update(before, idx as int, e1, netuid);
            lemma_subnet_update(mid, idx as int, e2, netuid);
            assert(subnet_at(self.subnets@, netuid) == spec_unstake_result(
                subnet_at(before, netuid),
                alpha_in,
            ));
            if q <= tao0 as u128 {
                vstd::arithmetic::div_mod::lemma_fundamental_div_mod(k as int, alpha2 as int);
                assert((tao2 as int) * (alpha2 as int) == (alpha2 as int) * (tao2 as int))
                    by (nonlinear_arith);
            }
        }
        tao0 - tao2
    }

    /// The TAO-per-Alpha price of a subnet in 64.64 fixed-point bits: the
    /// ratio of the reserves for a dynamic pool, a fixed price of one for a
    /// static or unknown subnet, zero for a drained dynamic pool.
    pub fn get_tao_per_alpha_price_bits(&self, netuid: u16) -> (r: u128)
        requires
            self.wf(),
        ensures
            r == spec_price_bits(*self, netuid),
    {
        match self.find_subnet(netuid) {
            Some(i) => {
                if self.subnets[i].dynamic {
                    let alpha: u64 = self.subnets[i].alpha_reserve;
                    if alpha == 0 {
                        0
                    } else {
                        proof {
                            let sub = subnet_at(self.subnets@, netuid);
                            assert(sub.tao_reserve * PRICE_ONE_BITS <= (u64::MAX as int)
                                * PRICE_ONE_BITS) by (nonlinear_arith)
                                requires sub.tao_reserve <= u64::MAX;
                            vstd::arithmetic::div_mod::lemma_div_pos_is_pos(
                                sub.tao_reserve * PRICE_ONE_BITS,
                                sub.alpha_reserve as int,
                            );
                            vstd::arithmetic::div_mod::lemma_div_is_ordered(
                                sub.tao_reserve * PRICE_ONE_BITS,
                                (u64::MAX as int) * PRICE_ONE_BITS,
                                sub.alpha_reserve as int,
                            );
                            assert((u64::MAX as int) * PRICE_ONE_BITS / (sub.alpha_reserve as int)
                                <= (u64::MAX as int) * PRICE_ONE_BITS) by (nonlinear_arith)
                                requires sub.alpha_reserve >= 1;
                        }
                        ((self.subnets[i].tao_reserve as u128) * PRICE_ONE_BITS) / (alpha as u128)
                    }
                } else {
                    PRICE_ONE_BITS
                }
            },
            None => PRICE_ONE_BITS,
        }
    }

    /// The TAO side of a subnet's pool; zero for an unknown subnet.
    pub fn get_tao_reserve(&self, netuid: u16) -> (r: u64)
        requires
            self.wf(),
        ensures
            r == if has_subnet(self.subnets@, netuid) {
                subnet_at(self.subnets@, netuid).tao_reserve
            } else {
                0
            },
    {
        match self.find_subnet(netuid) {
            Some(i) => self.subnets[i].tao_reserve,
            None => 0,
        }
    }

    /// The Alpha side of a subnet's pool; zero for an unknown subnet.
    pub fn get_alpha_reserve(&self, netuid: u16) -> (r: u64)
        requires
            self.wf(),
        ensures
            r == if has_subnet(self.subnets@, netuid) {
                subnet_at(self.subnets@, netuid).alpha_reserve
            } else {
                0
            },
    {
        match self.find_subnet(netuid) {
            Some(i) => self.subnets[i].alpha_reserve,
            None => 0,
        }
    }

    /// The stored constant product of a subnet's pool; zero for an unknown
    /// subnet.
    pub fn get_pool_k(&self, netuid: u16) -> (r: u128)
        requires
            self.wf(),
        ensures
            r == if has_subnet(self.subnets@, netuid) {
                subnet_at(self.subnets@, netuid).k
            } else {
                0
            },
    {
        match self.find_subnet(netuid) {
            Some(i) => self.subnets[i].k,
            None => 0,
        }
    }

    /// Whether the subnet takes part in reserve mechanics.
    pub fn is_subnet_dynamic(&self, netuid: u16) -> (r: bool)
        requires
            self.wf(),
        ensures
            r == (has_subnet(self.subnets@, netuid) && subnet_at(self.subnets@, netuid).dynamic),
    {
        match self.find_subnet(netuid) {
            Some(i) => self.subnets[i].dynamic,
            None => false,
        }
    }
}

} // verus!
