//! The per-block transition: the root allocator computes each subnet's
//! block emission and injects it into the pools, the banked emission runs
//! through the epoch distributor when a subnet's tempo fires, and banked
//! hotkey emission drains to nominators on the hotkey-drain schedule.

use vstd::prelude::*;
use crate::amm::PRICE_ONE_BITS;
use crate::emission::pending_of;
use crate::emission::record_of;
use crate::fixed::MAX_FIXED_AMOUNT;
use crate::schedule::spec_should_drain_hotkey_at;
use crate::schedule::spec_should_run_epoch;
use crate::state::Hotkey;
use crate::state::Pallet;
use crate::state::Subnet;
use crate::state::has_hotkey;
use crate::state::hotkey_index;
use crate::state::spec_total_stake;
use crate::state::stake_sum_prefix;
use crate::state::unique_hotkeys;

verus! {

/// The record at a position is the record its account maps to.
pub proof fn lemma_record_at(s: Seq<Hotkey>, i: int)
    requires
        unique_hotkeys(s),
        0 <= i < s.len(),
    ensures
        has_hotkey(s, s[i].account),
        hotkey_index(s, s[i].account) == i,
        record_of(s, s[i].account) == s[i],
{
    assert(has_hotkey(s, s[i].account));
    let w = hotkey_index(s, s[i].account);
    assert(0 <= w < s.len() && s[w].account == s[i].account);
    if w != i {
        assert(false);
    }
}

/// Converts a subnet's banked emission into per-hotkey reward tuples
/// `(hotkey, mining_emission, validator_emission)`. The weighting itself is
/// an external collaborator of the settlement core: any implementation may
/// stand here, provided it never hands out more than it was given, neither
/// in total nor in one tuple.
pub trait EpochDistributor {
    /// Distributes `subnet_emission` banked on `netuid` over hotkeys.
    fn epoch(&mut self, netuid: u16, subnet_emission: u64) -> (r: Vec<(u64, u64, u64)>)
        ensures
            forall|i: int|
                0 <= i < r@.len() ==> (#[trigger] r@[i]).1 + r@[i].2 <= subnet_emission,
    ;
}

/// An epoch distributor that hands a subnet's whole banked emission to one
/// designated hotkey per subnet, as validator emission; subnets without a
/// beneficiary burn their emission.
pub struct SoleBeneficiary {
    /// `(netuid, hotkey)` pairs naming each subnet's beneficiary.
    pub beneficiaries: Vec<(u16, u64)>,
}

impl EpochDistributor for SoleBeneficiary {
    fn epoch(&mut self, netuid: u16, subnet_emission: u64) -> (r: Vec<(u64, u64, u64)>)
        ensures
            forall|i: int|
                0 <= i < r@.len() ==> (#[trigger] r@[i]).1 + r@[i].2 <= subnet_emission,
    {
        let mut r: Vec<(u64, u64, u64)> = Vec::new();
        let mut i: usize = 0;
        while i < self.beneficiaries.len()
            invariant
                i <= self.beneficiaries@.len(),
                forall|j: int|
                    0 <= j < r@.len() ==> (#[trigger] r@[j]).1 + r@[j].2 <= subnet_emission,
            decreases self.beneficiaries@.len() - i,
        {
            if self.beneficiaries[i].0 == netuid {
                r.push((self.beneficiaries[i].1, 0, subnet_emission));
                return r;
            }
            i = i + 1;
        }
        r
    }
}

/// The 64.64 fixed-point price bits of one subnet for the allocator's price
/// sum: only dynamic pools count.
pub open spec fn sub_price_bits(sub: Subnet) -> int {
    if sub.dynamic {
        if sub.alpha_reserve == 0 {
            0
        } else {
            sub.tao_reserve * PRICE_ONE_BITS / (sub.alpha_reserve as int)
        }
    } else {
        0
    }
}

/// Sum of the dynamic pools' price bits over the first `n` subnets.
pub open spec fn price_sum_prefix(s: Seq<Subnet>, n: int) -> int
    decreases n,
{
    if n <= 0 {
        0
    } else {
        price_sum_prefix(s, n - 1) + sub_price_bits(s[n - 1])
    }
}

/// Sum of the dynamic pools' TAO reserves over the first `n` subnets.
pub open spec fn dyn_tao_sum_prefix(s: Seq<Subnet>, n: int) -> int
    decreases n,
{
    if n <= 0 {
        0
    } else {
        dyn_tao_sum_prefix(s, n - 1) + if s[n - 1].dynamic {
            s[n - 1].tao_reserve as int
        } else {
            0
        }
    }
}

/// The allocator can run: no dynamic pool is drained of Alpha, so every
/// price is defined.
pub open spec fn spec_root_ok(s: Seq<Subnet>) -> bool {
    forall|i: int| 0 <= i < s.len() ==> !((#[trigger] s[i]).dynamic && s[i].alpha_reserve == 0)
}

/// One subnet after the allocator runs: a static subnet is untouched; a
/// dynamic one receives its slice of `block_emission` in TAO, proportional
/// to its share of the dynamic TAO, when the price sum sits below the
/// threshold, and the whole `block_emission` in Alpha otherwise. The
/// injection raises the stored product to the new product of the reserves,
/// and the slice is recorded as the subnet's emission value.
pub open spec fn spec_alloc_sub(sub: Subnet, block_emission: u64, tao_sum: int, tao_mode: bool) -> Subnet {
    if !sub.dynamic {
        sub
    } else if tao_mode {
        let e = if tao_sum == 0 {
            0
        } else {
            block_emission * sub.tao_reserve / tao_sum
        };
        let tao2 = if sub.tao_reserve + e <= u64::MAX {
            (sub.tao_reserve + e) as u64
        } else {
            u64::MAX
        };
        Subnet {
            netuid: sub.netuid,
            tempo: sub.tempo,
            emission_value: e as u64,
            pending_emission: sub.pending_emission,
            dynamic: sub.dynamic,
            tao_reserve: tao2,
            alpha_reserve: sub.alpha_reserve,
            k: (tao2 * sub.alpha_reserve) as u128,
        }
    } else {
        let alpha2 = if sub.alpha_reserve + block_emission <= u64::MAX {
            (sub.alpha_reserve + block_emission) as u64
        } else {
            u64::MAX
        };
        Subnet {
            netuid: sub.netuid,
            tempo: sub.tempo,
            emission_value: block_emission,
            pending_emission: sub.pending_emission,
            dynamic: sub.dynamic,
            tao_reserve: sub.tao_reserve,
            alpha_reserve: alpha2,
            k: (sub.tao_reserve * alpha2) as u128,
        }
    }
}

/// Dynamic TAO partial sums are never negative.
pub proof fn lemma_dyn_tao_sum_nonneg(s: Seq<Subnet>, n: int)
    ensures
        dyn_tao_sum_prefix(s, n) >= 0,
    decreases n,
{
    if n > 0 {
        lemma_dyn_tao_sum_nonneg(s, n - 1);
    }
}

/// A dynamic subnet's TAO reserve never exceeds the dynamic TAO sum it
/// contributes to.
pub proof fn lemma_dyn_tao_le_sum(s: Seq<Subnet>, j: int, n: int)
    requires
        0 <= j < n <= s.len(),
        s[j].dynamic,
    ensures
        s[j].tao_reserve <= dyn_tao_sum_prefix(s, n),
    decreases n,
{
    if j == n - 1 {
        lemma_dyn_tao_sum_nonneg(s, n - 1);
    } else {
        lemma_dyn_tao_le_sum(s, j, n - 1);
    }
}

/// Price partial sums are never negative.
pub proof fn lemma_price_sum_nonneg(s: Seq<Subnet>, n: int)
    requires
        0 <= n <= s.len(),
    ensures
        price_sum_prefix(s, n) >= 0,
    decreases n,
{
    if n > 0 {
        lemma_price_sum_nonneg(s, n - 1);
        if s[n - 1].dynamic && s[n - 1].alpha_reserve != 0 {
            vstd::arithmetic::div_mod::lemma_div_pos_is_pos(
                s[n - 1].tao_reserve * PRICE_ONE_BITS,
                s[n - 1].alpha_reserve as int,
            );
            assert(s[n - 1].tao_reserve * PRICE_ONE_BITS >= 0) by (nonlinear_arith)
                requires s[n - 1].tao_reserve >= 0;
        }
    }
}

impl Pallet {
    /// The root emission allocator: computes each subnet's block emission
    /// and injects it into the pools. When the sum of the dynamic pools'
    /// prices sits below `price_threshold_bits` (64.64 fixed point), each
    /// dynamic subnet is handed TAO proportional to its share of the
    /// dynamic TAO; at or above it, each is handed the whole
    /// `block_emission` in Alpha. Fails, changing nothing, exactly when a
    /// dynamic pool is drained of Alpha, which leaves its price undefined.
    #[verifier::loop_isolation(false)]
    #[verifier::rlimit(60)]
    #[verifier::spinoff_prover]
    pub fn root_epoch(&mut self, block_emission: u64, price_threshold_bits: u128) -> (r: Result<
        (),
        (),
    >)
        requires
            old(self).wf(),
        ensures
            final(self).wf(),
            r is Ok <==> spec_root_ok(old(self).subnets@),
            r is Err ==> *final(self) == *old(self),
            crate::amm::same_but_subnets(*final(self), *old(self)),
            final(self).subnets@.len() == old(self).subnets@.len(),
            r is Ok ==> forall|i: int|
                0 <= i < old(self).subnets@.len() ==> #[trigger] final(self).subnets@[i]
                    == spec_alloc_sub(
                    old(self).subnets@[i],
                    block_emission,
                    ({
                        let full = dyn_tao_sum_prefix(
                            old(self).subnets@,
                            old(self).subnets@.len() as int,
                        );
                        if full <= u64::MAX {
                            full
                        } else {
                            u64::MAX as int
                        }
                    }),
                    price_sum_prefix(old(self).subnets@, old(self).subnets@.len() as int)
                        < price_threshold_bits,
                ),
    {
        let ghost s0 = *self;
        // A drained dynamic pool has no price: the allocator skips the
        // whole block.
        let mut i: usize = 0;
        while i < self.subnets.len()
            invariant
                i <= self.subnets@.len(),
                forall|j: int|
                    0 <= j < i ==> !((#[trigger] self.subnets@[j]).dynamic
                        && self.subnets@[j].alpha_reserve == 0),
            decreases self.subnets@.len() - i,
        {
            if self.subnets[i].dynamic && self.subnets[i].alpha_reserve == 0 {
                return Err(());
            }
            i = i + 1;
        }
        // Price sum and dynamic TAO sum; with at most `u16::MAX` subnets
        // and 128-bit price bits per pool the accumulators never overflow.
        let mut price_sum: u128 = 0;
        let mut tao_sum: u64 = 0;
        let mut i: usize = 0;
        while i < self.subnets.len()
            invariant
                i <= self.subnets@.len(),
                *self == s0,
                price_sum == if price_sum_prefix(self.subnets@, i as int) <= u128::MAX {
                    price_sum_prefix(self.subnets@, i as int)
                } else {
                    u128::MAX as int
                },
                price_sum_prefix(self.subnets@, i as int) >= 0,
                tao_sum == if dyn_tao_sum_prefix(self.subnets@, i as int) <= u64::MAX {
                    dyn_tao_sum_prefix(self.subnets@, i as int)
                } else {
                    u64::MAX as int
                },
            decreases self.subnets@.len() - i,
        {
            if self.subnets[i].dynamic {
                let alpha: u64 = self.subnets[i].alpha_reserve;
                let tao: u64 = self.subnets[i].tao_reserve;
                if alpha != 0 {
                    proof {
                        assert(tao * PRICE_ONE_BITS <= (u64::MAX as int) * PRICE_ONE_BITS)
                            by (nonlinear_arith)
                            requires tao <= u64::MAX;
                        vstd::arithmetic::div_mod::lemma_div_pos_is_pos(
                            tao * PRICE_ONE_BITS,
                            alpha as int,
                        );
                        vstd::arithmetic::div_mod::lemma_div_is_ordered(
                            tao * PRICE_ONE_BITS,
                            (u64::MAX as int) * PRICE_ONE_BITS,
                            alpha as int,
                        );
                        assert((u64::MAX as int) * PRICE_ONE_BITS / (alpha as int) <= (
                        u64::MAX as int) * PRICE_ONE_BITS) by (nonlinear_arith)
                            requires alpha >= 1;
                    }
                    let price: u128 = ((tao as u128) * PRICE_ONE_BITS) / (alpha as u128);
                    price_sum = price_sum.saturating_add(price);
                } else {
                    // Unreachable: drained dynamic pools were rejected.
                    proof {
                        assert(false);
                    }
                }
                tao_sum = tao_sum.saturating_add(tao);
            }
            i = i + 1;
        }
        let tao_mode: bool = price_sum < price_threshold_bits;
        proof {
            let full = price_sum_prefix(s0.subnets@, s0.subnets@.len() as int);
            assert(tao_mode == (full < price_threshold_bits)) by {
                if full > u128::MAX {
                    assert(price_sum == u128::MAX);
                }
            }
        }
        // Inject each dynamic subnet's slice.
        let ghost tao_sum_full = ({
            let full = dyn_tao_sum_prefix(s0.subnets@, s0.subnets@.len() as int);
            if full <= u64::MAX {
                full
            } else {
                u64::MAX as int
            }
        });
        let mut i: usize = 0;
        while i < self.subnets.len()
            invariant
                i <= self.subnets@.len(),
                self.subnets@.len() == s0.subnets@.len(),
                crate::amm::same_but_subnets(*self, s0),
                self.wf(),
                tao_sum == tao_sum_full,
                forall|j: int|
                    i <= j < self.subnets@.len() ==> #[trigger] self.subnets@[j] == s0.subnets@[j],
                forall|j: int|
                    0 <= j < i ==> #[trigger] self.subnets@[j] == spec_alloc_sub(
                        s0.subnets@[j],
                        block_emission,
                        tao_sum_full,
                        tao_mode,
                    ),
            decreases self.subnets@.len() - i,
        {
            let ghost before = self.subnets@;
            if self.subnets[i].dynamic {
                let tao: u64 = self.subnets[i].tao_reserve;
                let alpha: u64 = self.subnets[i].alpha_reserve;
                if tao_mode {
                    let e: u64 = if tao_sum == 0 {
                        0
                    } else {
                        proof {
                            lemma_dyn_tao_le_sum(s0.subnets@, i as int, s0.subnets@.len() as int);
                            assert(tao <= tao_sum);
                            assert(block_emission * tao <= block_emission * tao_sum)
                                by (nonlinear_arith)
                                requires 0 <= tao <= tao_sum && block_emission >= 0;
                            vstd::arithmetic::div_mod::lemma_div_is_ordered(
                                block_emission * tao,
                                block_emission * (tao_sum as int),
                                tao_sum as int,
                            );
                            assert(block_emission * (tao_sum as int) / (tao_sum as int)
                                == block_emission) by (nonlinear_arith)
                                requires tao_sum > 0;
                            vstd::arithmetic::div_mod::lemma_div_pos_is_pos(
                                block_emission * tao,
                                tao_sum as int,
                            );
                            assert((block_emission as int) * (tao as int) <= (u64::MAX as int) * (
                            u64::MAX as int)) by (nonlinear_arith)
                                requires block_emission <= u64::MAX && tao <= u64::MAX;
                            assert((u64::MAX as int) * (u64::MAX as int) < (u128::MAX as int) + 1);
                        }
                        (((block_emission as u128) * (tao as u128)) / (tao_sum as u128)) as u64
                    };
                    let tao2: u64 = tao.saturating_add(e);
                    proof {
                        assert((tao2 as int) * (alpha as int) <= (u64::MAX as int) * (
                        u64::MAX as int)) by (nonlinear_arith)
                            requires tao2 <= u64::MAX && alpha <= u64::MAX;
                        assert((u64::MAX as int) * (u64::MAX as int) < (u128::MAX as int) + 1);
                        assert((tao2 as int) * (alpha as int) >= 0) by (nonlinear_arith)
                            requires tao2 >= 0 && alpha >= 0;
                    }
                    let k2: u128 = (tao2 as u128) * (alpha as u128);
                    self.subnets[i].emission_value = e;
                    self.subnets[i].tao_reserve = tao2;
                    self.subnets[i].k = k2;
                    proof {
                        assert(self.subnets@ =~= before.update(i as int, self.subnets@[i as int]));
                        assert(self.subnets@[i as int] == spec_alloc_sub(
                            s0.subnets@[i as int],
                            block_emission,
                            tao_sum_full,
                            tao_mode,
                        ));
                    }
                } else {
                    let alpha2: u64 = alpha.saturating_add(block_emission);
                    proof {
                        assert((tao as int) * (alpha2 as int) <= (u64::MAX as int) * (
                        u64::MAX as int)) by (nonlinear_arith)
                            requires tao <= u64::MAX && alpha2 <= u64::MAX;
                        assert((u64::MAX as int) * (u64::MAX as int) < (u128::MAX as int) + 1);
                        assert((tao as int) * (alpha2 as int) >= 0) by (nonlinear_arith)
                            requires tao >= 0 && alpha2 >= 0;
                    }
                    let k2: u128 = (tao as u128) * (alpha2 as u128);
                    self.subnets[i].emission_value = block_emission;
                    self.subnets[i].alpha_reserve = alpha2;
                    self.subnets[i].k = k2;
                    proof {
                        assert(self.subnets@ =~= before.update(i as int, self.subnets@[i as int]));
                    }
                }
                proof {
                    assert forall|a: int, b: int| 0 <= a < b < self.subnets@.len()
                        implies (#[trigger] self.subnets@[a]).netuid
                        < (#[trigger] self.subnets@[b]).netuid by {
                        assert(self.subnets@[a].netuid == before[a].netuid);
                        assert(self.subnets@[b].netuid == before[b].netuid);
                    }
                }
            }
            i = i + 1;
        }
        Ok(())
    }
}


/// Partial parent-credit sums are never negative.
pub proof fn lemma_parent_takes_to_nonneg(
    s: Pallet,
    hotkey: u64,
    netuid: u16,
    remaining: u64,
    total: u64,
    a: u64,
    n: int,
)
    ensures
        crate::emission::parent_takes_to(s, hotkey, netuid, remaining, total, a, n) >= 0,
    decreases n,
{
    if n > 0 {
        lemma_parent_takes_to_nonneg(s, hotkey, netuid, remaining, total, a, n - 1);
    }
}

/// What `accumulate_hotkey_emission` credits is never negative.
pub proof fn lemma_accumulate_credit_nonneg(
    s: Pallet,
    hotkey: u64,
    netuid: u16,
    emission: u64,
    a: u64,
)
    ensures
        crate::emission::spec_accumulate_credit(s, hotkey, netuid, emission, a) >= 0,
{
    let parents = crate::state::edges_of(s.parent_keys@, hotkey, netuid);
    let emt = crate::emission::spec_remaining_emission(s, hotkey, emission);
    let total = crate::emission::spec_stake_with_cp(s, hotkey, netuid) as u64;
    lemma_parent_takes_to_nonneg(s, hotkey, netuid, emt, total, a, parents.len() as int);
}

/// What a drain adds to a ledger entry is never negative.
pub proof fn lemma_drain_inc_nonneg(s: Pallet, hotkey: u64, emission: u64, i: int)
    ensures
        crate::emission::spec_drain_stake_inc(s, hotkey, emission, i) >= 0,
{
}

/// One subnet after its block emission is banked and, when its tempo
/// fires, its banked emission is drained into the epoch: the emission
/// value joins the pending emission, saturating, and a firing subnet's
/// pending emission leaves for the distributor.
pub open spec fn spec_banked_sub(sub: Subnet, current_block: u64) -> Subnet {
    let pend = if sub.pending_emission + sub.emission_value <= u64::MAX {
        (sub.pending_emission + sub.emission_value) as u64
    } else {
        u64::MAX
    };
    Subnet {
        netuid: sub.netuid,
        tempo: sub.tempo,
        emission_value: sub.emission_value,
        pending_emission: if spec_should_run_epoch(sub.netuid, sub.tempo, current_block) {
            0
        } else {
            pend
        },
        dynamic: sub.dynamic,
        tao_reserve: sub.tao_reserve,
        alpha_reserve: sub.alpha_reserve,
        k: sub.k,
    }
}

/// One subnet after the whole block transition: the allocator's injection
/// (skipped for the block when the allocator failed), then the banking and
/// epoch rule.
pub open spec fn spec_coinbase_sub(
    s: Pallet,
    i: int,
    block_emission: u64,
    price_threshold_bits: u128,
    current_block: u64,
) -> Subnet {
    let sub1 = if spec_root_ok(s.subnets@) {
        spec_alloc_sub(
            s.subnets@[i],
            block_emission,
            ({
                let full = dyn_tao_sum_prefix(s.subnets@, s.subnets@.len() as int);
                if full <= u64::MAX {
                    full
                } else {
                    u64::MAX as int
                }
            }),
            price_sum_prefix(s.subnets@, s.subnets@.len() as int) < price_threshold_bits,
        )
    } else {
        s.subnets@[i]
    };
    spec_banked_sub(sub1, current_block)
}

impl Pallet {
    /// The whole per-block emission transition at `current_block`, minting
    /// `block_emission` new value. In order: the root allocator computes
    /// and injects each subnet's emission value (on its failure the step is
    /// skipped for this block and everything else proceeds); every subnet
    /// banks its emission value; every subnet whose tempo fires hands its
    /// banked emission to the epoch distributor and the returned rewards
    /// accumulate on the hotkeys through the delegation graph; and every
    /// hotkey index due on the drain schedule with banked emission pays it
    /// out to its nominators, raising total issuance by the drained amount.
    /// An amount beyond the fixed-point range stays banked rather than
    /// drain.
    #[verifier::loop_isolation(false)]
    #[verifier::rlimit(100)]
    #[verifier::spinoff_prover]
    pub fn run_coinbase<E: EpochDistributor>(
        &mut self,
        current_block: u64,
        block_emission: u64,
        price_threshold_bits: u128,
        dist: &mut E,
    )
        requires
            old(self).wf(),
            forall|i: int|
                0 <= i < old(self).subnets@.len()
                    ==> (#[trigger] old(self).subnets@[i]).pending_emission
                    + old(self).subnets@[i].emission_value
                    + block_emission <= MAX_FIXED_AMOUNT,
        ensures
            final(self).wf(),
            final(self).subnets@.len() == old(self).subnets@.len(),
            forall|i: int|
                0 <= i < old(self).subnets@.len() ==> #[trigger] final(self).subnets@[i]
                    == spec_coinbase_sub(
                    *old(self),
                    i,
                    block_emission,
                    price_threshold_bits,
                    current_block,
                ),
            old(self).hotkeys@.len() <= final(self).hotkeys@.len(),
            forall|i: int|
                0 <= i < old(self).hotkeys@.len() ==> (#[trigger] final(self).hotkeys@[i]).account
                    == old(self).hotkeys@[i].account
                    && final(self).hotkeys@[i].take == old(self).hotkeys@[i].take,
            forall|i: int|
                0 <= i < final(self).hotkeys@.len() && spec_should_drain_hotkey_at(
                    i as u64,
                    current_block,
                    old(self).hotkey_emission_tempo,
                ) ==> (#[trigger] final(self).hotkeys@[i]).pending_emission == 0
                    || final(self).hotkeys@[i].pending_emission > MAX_FIXED_AMOUNT
                    || spec_total_stake(
                    final(self).stakes@,
                    final(self).hotkeys@[i].account,
                ) > MAX_FIXED_AMOUNT,
            forall|i: int|
                0 <= i < old(self).hotkeys@.len() && !spec_should_drain_hotkey_at(
                    i as u64,
                    current_block,
                    old(self).hotkey_emission_tempo,
                ) ==> (#[trigger] final(self).hotkeys@[i]).last_drain_block
                    == old(self).hotkeys@[i].last_drain_block
                    && final(self).hotkeys@[i].pending_emission
                        >= old(self).hotkeys@[i].pending_emission,
            final(self).total_issuance >= old(self).total_issuance,
            old(self).stakes@.len() <= final(self).stakes@.len(),
            forall|i: int|
                0 <= i < old(self).stakes@.len() ==> (#[trigger] final(self).stakes@[i]).coldkey
                    == old(self).stakes@[i].coldkey
                    && final(self).stakes@[i].hotkey == old(self).stakes@[i].hotkey
                    && final(self).stakes@[i].last_add_block == old(self).stakes@[i].last_add_block
                    && final(self).stakes@[i].amount >= old(self).stakes@[i].amount,
            final(self).child_keys == old(self).child_keys,
            final(self).parent_keys == old(self).parent_keys,
            final(self).owners == old(self).owners,
            final(self).last_children_block == old(self).last_children_block,
            final(self).hotkey_emission_tempo == old(self).hotkey_emission_tempo,
            final(self).tx_rate_limit == old(self).tx_rate_limit,
            final(self).network_min_lock == old(self).network_min_lock,
            final(self).network_last_lock == old(self).network_last_lock,
            final(self).network_last_lock_block == old(self).network_last_lock_block,
            final(self).lock_reduction_interval == old(self).lock_reduction_interval,
    {
        let ghost s0 = *self;
        // Step one: the root allocator; its failure is non-fatal and only
        // skips the injection for this block.
        let allocation = self.root_epoch(block_emission, price_threshold_bits);
        match allocation {
            Ok(()) => {},
            Err(()) => {},
        }
        let ghost s1 = *self;
        proof {
            assert forall|i: int| 0 <= i < s1.subnets@.len() implies (#[trigger] s1.subnets@[i]).pending_emission
                + s1.subnets@[i].emission_value <= MAX_FIXED_AMOUNT by {
                if spec_root_ok(s0.subnets@) {
                    assert(s1.subnets@[i].pending_emission == s0.subnets@[i].pending_emission);
                    assert(s1.subnets@[i].emission_value <= s0.subnets@[i].emission_value
                        + block_emission) by {
                        let full = dyn_tao_sum_prefix(s0.subnets@, s0.subnets@.len() as int);
                        let ts = if full <= u64::MAX { full } else { u64::MAX as int };
                        if s0.subnets@[i].dynamic && price_sum_prefix(
                            s0.subnets@,
                            s0.subnets@.len() as int,
                        ) < price_threshold_bits && ts != 0 {
                            lemma_dyn_tao_le_sum(s0.subnets@, i, s0.subnets@.len() as int);
                            let tao = s0.subnets@[i].tao_reserve;
                            assert(block_emission * tao <= block_emission * ts)
                                by (nonlinear_arith)
                                requires 0 <= tao <= ts && block_emission >= 0;
                            vstd::arithmetic::div_mod::lemma_div_is_ordered(
                                block_emission * tao,
                                block_emission * ts,
                                ts,
                            );
                            assert(block_emission * ts / ts == block_emission)
                                by (nonlinear_arith)
                                requires ts > 0;
                        }
                    }
                }
            }
        }
        // Step two: every subnet banks its block emission.
        let mut i: usize = 0;
        while i < self.subnets.len()
            invariant
                i <= self.subnets@.len(),
                self.subnets@.len() == s1.subnets@.len(),
                crate::amm::same_but_subnets(*self, s1),
                self.wf(),
                forall|j: int|
                    i <= j < self.subnets@.len() ==> #[trigger] self.subnets@[j] == s1.subnets@[j],
                forall|j: int|
                    0 <= j < i ==> #[trigger] self.subnets@[j] == ({
                        let sub = s1.subnets@[j];
                        Subnet {
                            netuid: sub.netuid,
                            tempo: sub.tempo,
                            emission_value: sub.emission_value,
                            pending_emission: if sub.pending_emission + sub.emission_value
                                <= u64::MAX {
                                (sub.pending_emission + sub.emission_value) as u64
                            } else {
                                u64::MAX
                            },
                            dynamic: sub.dynamic,
                            tao_reserve: sub.tao_reserve,
                            alpha_reserve: sub.alpha_reserve,
                            k: sub.k,
                        }
                    }),
            decreases self.subnets@.len() - i,
        {
            let ghost before = self.subnets@;
            let ev: u64 = self.subnets[i].emission_value;
            let p: u64 = self.subnets[i].pending_emission;
            self.subnets[i].pending_emission = p.saturating_add(ev);
            proof {
                assert(self.subnets@ =~= before.update(i as int, self.subnets@[i as int]));
                assert forall|a: int, b: int| 0 <= a < b < self.subnets@.len()
                    implies (#[trigger] self.subnets@[a]).netuid
                    < (#[trigger] self.subnets@[b]).netuid by {
                    assert(self.subnets@[a].netuid == before[a].netuid);
                    assert(self.subnets@[b].netuid == before[b].netuid);
                }
            }
            i = i + 1;
        }
        let ghost s2 = *self;
        proof {
            assert forall|j: int| 0 <= j < s2.subnets@.len()
                implies (#[trigger] s2.subnets@[j]).pending_emission <= MAX_FIXED_AMOUNT by {}
        }
        // Step three: subnets whose tempo fires hand their banked emission
        // through the epoch distributor onto the hotkeys.
        let mut i: usize = 0;
        while i < self.subnets.len()
            invariant
                i <= self.subnets@.len(),
                self.subnets@.len() == s2.subnets@.len(),
                self.wf(),
                self.stakes == s2.stakes,
                self.child_keys == s2.child_keys,
                self.parent_keys == s2.parent_keys,
                self.owners == s2.owners,
                self.last_children_block == s2.last_children_block,
                self.total_issuance == s2.total_issuance,
                self.hotkey_emission_tempo == s2.hotkey_emission_tempo,
                self.tx_rate_limit == s2.tx_rate_limit,
                self.network_min_lock == s2.network_min_lock,
                self.network_last_lock == s2.network_last_lock,
                self.network_last_lock_block == s2.network_last_lock_block,
                self.lock_reduction_interval == s2.lock_reduction_interval,
                forall|j: int|
                    i <= j < self.subnets@.len() ==> #[trigger] self.subnets@[j] == s2.subnets@[j],
                forall|j: int|
                    0 <= j < i ==> #[trigger] self.subnets@[j] == ({
                        let sub = s2.subnets@[j];
                        Subnet {
                            netuid: sub.netuid,
                            tempo: sub.tempo,
                            emission_value: sub.emission_value,
                            pending_emission: if spec_should_run_epoch(
                                sub.netuid,
                                sub.tempo,
                                current_block,
                            ) {
                                0
                            } else {
                                sub.pending_emission
                            },
                            dynamic: sub.dynamic,
                            tao_reserve: sub.tao_reserve,
                            alpha_reserve: sub.alpha_reserve,
                            k: sub.k,
                        }
                    }),
                s2.hotkeys@.len() <= self.hotkeys@.len(),
                forall|j: int|
                    0 <= j < s2.hotkeys@.len() ==> (#[trigger] self.hotkeys@[j]).account
                        == s2.hotkeys@[j].account && self.hotkeys@[j].take == s2.hotkeys@[j].take
                        && self.hotkeys@[j].last_drain_block == s2.hotkeys@[j].last_drain_block
                        && self.hotkeys@[j].pending_emission >= s2.hotkeys@[j].pending_emission,
                forall|j: int|
                    s2.hotkeys@.len() <= j < self.hotkeys@.len()
                        ==> (#[trigger] self.hotkeys@[j]).take == 0,
            decreases self.subnets@.len() - i,
        {
            let netuid: u16 = self.subnets[i].netuid;
            let tempo: u16 = self.subnets[i].tempo;
            if Pallet::blocks_until_next_epoch(netuid, tempo, current_block) == 0 {
                let subnet_emission: u64 = self.subnets[i].pending_emission;
                let ghost before = self.subnets@;
                self.subnets[i].pending_emission = 0;
                proof {
                    assert(self.subnets@ =~= before.update(i as int, self.subnets@[i as int]));
                    assert forall|a: int, b: int| 0 <= a < b < self.subnets@.len()
                        implies (#[trigger] self.subnets@[a]).netuid
                        < (#[trigger] self.subnets@[b]).netuid by {
                        assert(self.subnets@[a].netuid == before[a].netuid);
                        assert(self.subnets@[b].netuid == before[b].netuid);
                    }
                }
                let tuples: Vec<(u64, u64, u64)> = dist.epoch(netuid, subnet_emission);
                let ghost mid = *self;
                let mut t: usize = 0;
                while t < tuples.len()
                    invariant
                        t <= tuples@.len(),
                        subnet_emission <= MAX_FIXED_AMOUNT,
                        forall|m: int|
                            0 <= m < tuples@.len() ==> (#[trigger] tuples@[m]).1 + tuples@[m].2
                                <= subnet_emission,
                        self.wf(),
                        crate::emission::same_but_hotkeys(*self, mid),
                        mid.hotkeys@.len() <= self.hotkeys@.len(),
                        forall|j: int|
                            0 <= j < mid.hotkeys@.len() ==> (#[trigger] self.hotkeys@[j]).account
                                == mid.hotkeys@[j].account && self.hotkeys@[j].take
                                == mid.hotkeys@[j].take && self.hotkeys@[j].last_drain_block
                                == mid.hotkeys@[j].last_drain_block
                                && self.hotkeys@[j].pending_emission
                                >= mid.hotkeys@[j].pending_emission,
                        forall|j: int|
                            mid.hotkeys@.len() <= j < self.hotkeys@.len()
                                ==> (#[trigger] self.hotkeys@[j]).take == 0
                                && self.hotkeys@[j].last_drain_block == 0,
                    decreases tuples@.len() - t,
                {
                    let hk: u64 = tuples[t].0;
                    let me: u64 = tuples[t].1;
                    let ve: u64 = tuples[t].2;
                    let ghost pre = *self;
                    self.accumulate_hotkey_emission(hk, netuid, me.saturating_add(ve));
                    proof {
                        assert forall|j: int| 0 <= j < pre.hotkeys@.len()
                            implies (#[trigger] self.hotkeys@[j]).pending_emission
                            >= pre.hotkeys@[j].pending_emission by {
                            lemma_record_at(pre.hotkeys@, j);
                            lemma_record_at(self.hotkeys@, j);
                            lemma_accumulate_credit_nonneg(
                                pre,
                                hk,
                                netuid,
                                me.saturating_add(ve),
                                pre.hotkeys@[j].account,
                            );
                            assert(pending_of(self.hotkeys@, pre.hotkeys@[j].account) >= pending_of(
                                pre.hotkeys@,
                                pre.hotkeys@[j].account,
                            ));
                        }
                    }
                    t = t + 1;
                }
            }
            i = i + 1;
        }
        let ghost s3 = *self;
        // Step four: hotkey indices due on the drain schedule pay out their
        // banked emission and raise total issuance by it.
        let mut i: usize = 0;
        while i < self.hotkeys.len()
            invariant
                i <= self.hotkeys@.len(),
                self.hotkeys@.len() == s3.hotkeys@.len(),
                self.wf(),
                self.subnets == s3.subnets,
                self.child_keys == s3.child_keys,
                self.parent_keys == s3.parent_keys,
                self.owners == s3.owners,
                self.last_children_block == s3.last_children_block,
                self.hotkey_emission_tempo == s3.hotkey_emission_tempo,
                self.tx_rate_limit == s3.tx_rate_limit,
                self.network_min_lock == s3.network_min_lock,
                self.network_last_lock == s3.network_last_lock,
                self.network_last_lock_block == s3.network_last_lock_block,
                self.lock_reduction_interval == s3.lock_reduction_interval,
                self.total_issuance >= s3.total_issuance,
                s3.stakes@.len() <= self.stakes@.len(),
                forall|j: int|
                    0 <= j < s3.stakes@.len() ==> (#[trigger] self.stakes@[j]).coldkey
                        == s3.stakes@[j].coldkey && self.stakes@[j].hotkey == s3.stakes@[j].hotkey
                        && self.stakes@[j].last_add_block == s3.stakes@[j].last_add_block
                        && self.stakes@[j].amount >= s3.stakes@[j].amount,
                forall|j: int|
                    0 <= j < s3.hotkeys@.len() ==> (#[trigger] self.hotkeys@[j]).account
                        == s3.hotkeys@[j].account && self.hotkeys@[j].take == s3.hotkeys@[j].take,
                forall|j: int|
                    (i as int) <= j < s3.hotkeys@.len() ==> (#[trigger] self.hotkeys@[j]).pending_emission
                        == s3.hotkeys@[j].pending_emission && self.hotkeys@[j].last_drain_block
                        == s3.hotkeys@[j].last_drain_block,
                forall|j: int|
                    0 <= j < i && spec_should_drain_hotkey_at(
                        j as u64,
                        current_block,
                        s3.hotkey_emission_tempo,
                    ) ==> (#[trigger] self.hotkeys@[j]).pending_emission == 0 || self.hotkeys@[j].pending_emission
                        > MAX_FIXED_AMOUNT || spec_total_stake(
                        self.stakes@,
                        self.hotkeys@[j].account,
                    ) > MAX_FIXED_AMOUNT,
                forall|j: int|
                    0 <= j < i && !spec_should_drain_hotkey_at(
                        j as u64,
                        current_block,
                        s3.hotkey_emission_tempo,
                    ) ==> (#[trigger] self.hotkeys@[j]).pending_emission
                        == s3.hotkeys@[j].pending_emission && self.hotkeys@[j].last_drain_block
                        == s3.hotkeys@[j].last_drain_block,
            decreases self.hotkeys@.len() - i,
        {
            let pending: u64 = self.hotkeys[i].pending_emission;
            let due: bool = crate::schedule::should_drain_hotkey_at(
                i as u64,
                current_block,
                self.hotkey_emission_tempo,
            );
            if pending != 0 && due {
                let account: u64 = self.hotkeys[i].account;
                let total: u64 = self.get_total_stake_for_hotkey(account);
                if pending <= crate::fixed::MAX_FIXED_AMOUNT
                    && total <= crate::fixed::MAX_FIXED_AMOUNT {
                    let ghost pre = *self;
                    self.drain_hotkey_emission(account, pending, current_block);
                    self.total_issuance = self.total_issuance.saturating_add(pending);
                    proof {
                        lemma_record_at(pre.hotkeys@, i as int);
                        assert forall|j: int| 0 <= j < pre.hotkeys@.len() && j != i as int
                            implies #[trigger] self.hotkeys@[j] == pre.hotkeys@[j] by {
                            lemma_record_at(pre.hotkeys@, j);
                            lemma_record_at(self.hotkeys@, j);
                            assert(record_of(self.hotkeys@, pre.hotkeys@[j].account) == record_of(
                                pre.hotkeys@,
                                pre.hotkeys@[j].account,
                            ));
                        }
                        assert(pending_of(self.hotkeys@, account) == 0);
                        lemma_record_at(self.hotkeys@, i as int);
                        assert forall|j: int| 0 <= j < pre.stakes@.len()
                            implies (#[trigger] self.stakes@[j]).amount >= pre.stakes@[j].amount by {
                            lemma_drain_inc_nonneg(pre, account, pending, j);
                        }
                        assert forall|a: u64| #[trigger] spec_total_stake(self.stakes@, a)
                            >= spec_total_stake(pre.stakes@, a) by {
                            crate::state::lemma_stake_sum_pointwise_le(
                                pre.stakes@,
                                self.stakes@,
                                a,
                                pre.stakes@.len() as int,
                            );
                            crate::state::lemma_stake_sum_prefix_mono(
                                self.stakes@,
                                a,
                                pre.stakes@.len() as int,
                                self.stakes@.len() as int,
                            );
                            crate::state::lemma_stake_sum_nonneg(self.stakes@, a, 0);
                            if pre.stakes@.len() < self.stakes@.len() {
                                assert(stake_sum_prefix(
                                    self.stakes@,
                                    a,
                                    pre.stakes@.len() as int,
                                ) <= stake_sum_prefix(self.stakes@, a, self.stakes@.len() as int));
                            }
                        }
                    }
                } else {
                    // Beyond the fixed-point range: the amount stays banked.
                    proof {
                        if total > crate::fixed::MAX_FIXED_AMOUNT {
                            assert(spec_total_stake(self.stakes@, account) > MAX_FIXED_AMOUNT);
                        }
                    }
                }
            }
            proof {
                lemma_record_at(self.hotkeys@, i as int);
            }
            i = i + 1;
        }
    }
}

} // verus!
