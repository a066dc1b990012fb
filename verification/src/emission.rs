//! Emission distribution: splitting a hotkey's epoch reward among its
//! delegation parents and itself, and draining a hotkey's banked emission
//! into its nominators' stakes.

use vstd::prelude::*;
use crate::fixed::MAX_FIXED_AMOUNT;
use crate::fixed::prop_ratio_bits;
use crate::fixed::spec_hotkey_take;
use crate::fixed::spec_nominator_share;
use crate::fixed::spec_parent_take;
use crate::fixed::hotkey_take_of;
use crate::fixed::nominator_share_of;
use crate::fixed::parent_take_of;
use crate::fixed::lemma_hotkey_take_le;
use crate::state::Hotkey;
use crate::state::Pallet;
use crate::state::edges_of;
use crate::state::has_hotkey;
use crate::state::hotkey_index;
use crate::state::spec_total_stake;
use crate::state::unique_hotkeys;

verus! {

/// Total stake of an account as the ledger reports it: the exact sum,
/// saturated at `u64::MAX`.
pub open spec fn total_stake_sat(stakes: Seq<crate::state::StakeEntry>, a: u64) -> int {
    if spec_total_stake(stakes, a) <= u64::MAX {
        spec_total_stake(stakes, a)
    } else {
        u64::MAX as int
    }
}

/// The hotkey record stored for an account, meaningful when `has_hotkey`.
pub open spec fn record_of(s: Seq<Hotkey>, a: u64) -> Hotkey {
    s[hotkey_index(s, a)]
}

/// The banked emission of an account; zero when it has no record.
pub open spec fn pending_of(s: Seq<Hotkey>, a: u64) -> int {
    if has_hotkey(s, a) {
        record_of(s, a).pending_emission as int
    } else {
        0
    }
}

/// The delegate take rate of an account; zero when it has no record.
pub open spec fn take_rate_of(s: Seq<Hotkey>, a: u64) -> u16 {
    if has_hotkey(s, a) {
        record_of(s, a).take
    } else {
        0
    }
}

/// The last drain block of an account; zero when it has no record.
pub open spec fn last_drain_of(s: Seq<Hotkey>, a: u64) -> u64 {
    if has_hotkey(s, a) {
        record_of(s, a).last_drain_block
    } else {
        0
    }
}

/// Replacing one record, keeping its account, changes the stored mapping
/// only at that account and keeps accounts unique.
pub proof fn lemma_hotkey_update(s: Seq<Hotkey>, p: int, e: Hotkey, a: u64)
    requires
        unique_hotkeys(s),
        0 <= p < s.len(),
        e.account == s[p].account,
    ensures
        unique_hotkeys(s.update(p, e)),
        has_hotkey(s.update(p, e), a) == has_hotkey(s, a),
        a == e.account ==> has_hotkey(s, a) && record_of(s.update(p, e), a) == e && record_of(
            s,
            a,
        ) == s[p],
        a != e.account && has_hotkey(s, a) ==> record_of(s.update(p, e), a) == record_of(s, a),
{
    let s2 = s.update(p, e);
    assert forall|i: int, j: int| 0 <= i < j < s2.len() implies (#[trigger] s2[i]).account
        != (#[trigger] s2[j]).account by {
        assert(s2[i].account == s[i].account && s2[j].account == s[j].account);
    }
    if a == e.account {
        assert(s[p].account == a);
        assert(has_hotkey(s, a));
        let w = hotkey_index(s, a);
        assert(0 <= w < s.len() && s[w].account == a);
        if w != p {
            assert(false);
        }
        assert(s2[p].account == a);
        assert(has_hotkey(s2, a));
        let w2 = hotkey_index(s2, a);
        assert(0 <= w2 < s2.len() && s2[w2].account == a);
        if w2 != p {
            assert(s[w2].account == a);
            assert(false);
        }
    } else {
        if has_hotkey(s, a) {
            let w = hotkey_index(s, a);
            assert(0 <= w < s.len() && s[w].account == a);
            assert(w != p);
            assert(s2[w].account == a);
            assert(has_hotkey(s2, a));
            let w2 = hotkey_index(s2, a);
            assert(0 <= w2 < s2.len() && s2[w2].account == a);
            assert(w2 != p);
            assert(s[w2].account == a);
            if w2 != w {
                assert(false);
            }
        } else {
            if has_hotkey(s2, a) {
                let w2 = hotkey_index(s2, a);
                assert(0 <= w2 < s2.len() && s2[w2].account == a);
                assert(w2 != p);
                assert(s[w2].account == a);
                assert(false);
            }
        }
    }
}

/// Appending a record under a fresh account adds exactly that account to
/// the stored mapping and keeps accounts unique.
pub proof fn lemma_hotkey_push(s: Seq<Hotkey>, e: Hotkey, a: u64)
    requires
        unique_hotkeys(s),
        !has_hotkey(s, e.account),
    ensures
        unique_hotkeys(s.push(e)),
        has_hotkey(s.push(e), a) == (has_hotkey(s, a) || a == e.account),
        a == e.account ==> record_of(s.push(e), a) == e,
        a != e.account && has_hotkey(s, a) ==> record_of(s.push(e), a) == record_of(s, a),
{
    let s2 = s.push(e);
    let last = s.len() as int;
    assert forall|i: int, j: int| 0 <= i < j < s2.len() implies (#[trigger] s2[i]).account
        != (#[trigger] s2[j]).account by {
        if j == last {
            assert(s2[i] == s[i]);
            if s[i].account == e.account {
                assert(has_hotkey(s, e.account));
            }
        } else {
            assert(s2[i] == s[i] && s2[j] == s[j]);
        }
    }
    if a == e.account {
        assert(s2[last].account == a);
        assert(has_hotkey(s2, a));
        let w2 = hotkey_index(s2, a);
        assert(0 <= w2 < s2.len() && s2[w2].account == a);
        if w2 != last {
            assert(s[w2].account == a);
            assert(has_hotkey(s, e.account));
        }
    } else {
        if has_hotkey(s, a) {
            let w = hotkey_index(s, a);
            assert(0 <= w < s.len() && s[w].account == a);
            assert(s2[w].account == a);
            assert(has_hotkey(s2, a));
            let w2 = hotkey_index(s2, a);
            assert(0 <= w2 < s2.len() && s2[w2].account == a);
            assert(w2 != last);
            assert(s[w2].account == a);
            if w2 != w {
                assert(false);
            }
        } else {
            if has_hotkey(s2, a) {
                let w2 = hotkey_index(s2, a);
                assert(0 <= w2 < s2.len() && s2[w2].account == a);
                assert(w2 != last);
                assert(s[w2].account == a);
                assert(false);
            }
        }
    }
}

/// Everything of the state but the hotkey records is the same.
pub open spec fn same_but_hotkeys(a: Pallet, b: Pallet) -> bool {
    &&& a.subnets == b.subnets
    &&& a.stakes == b.stakes
    &&& a.child_keys == b.child_keys
    &&& a.parent_keys == b.parent_keys
    &&& a.owners == b.owners
    &&& a.last_children_block == b.last_children_block
    &&& a.total_issuance == b.total_issuance
    &&& a.hotkey_emission_tempo == b.hotkey_emission_tempo
    &&& a.tx_rate_limit == b.tx_rate_limit
    &&& a.network_min_lock == b.network_min_lock
    &&& a.network_last_lock == b.network_last_lock
    &&& a.network_last_lock_block == b.network_last_lock_block
    &&& a.lock_reduction_interval == b.lock_reduction_interval
}

/// Sum, over the first `n` children, of the slice of `own` that each
/// declared proportion stands for.
pub open spec fn child_slices_sum(own: u64, children: Seq<(u64, u64)>, n: int) -> int
    decreases n,
{
    if n <= 0 {
        0
    } else {
        child_slices_sum(own, children, n - 1) + own * children[n - 1].0 / 0xffff_ffff_ffff_ffff
    }
}

/// Sum, over the first `n` parents, of the slice of each parent's ledger
/// stake that its declared proportion stands for.
pub open spec fn parent_contrib_sum(
    stakes: Seq<crate::state::StakeEntry>,
    parents: Seq<(u64, u64)>,
    n: int,
) -> int
    decreases n,
{
    if n <= 0 {
        0
    } else {
        parent_contrib_sum(stakes, parents, n - 1) + total_stake_sat(stakes, parents[n - 1].1)
            * parents[n - 1].0 / 0xffff_ffff_ffff_ffff
    }
}

/// The stake a hotkey weighs on a subnet: its own ledger stake, less the
/// slices owed to its children, plus the slices its parents contribute;
/// clamped at zero below and at `u64::MAX` above, as the saturating
/// arithmetic computes it.
pub open spec fn spec_stake_with_cp(s: Pallet, hotkey: u64, netuid: u16) -> int {
    let own = total_stake_sat(s.stakes@, hotkey);
    let children = edges_of(s.child_keys@, hotkey, netuid);
    let parents = edges_of(s.parent_keys@, hotkey, netuid);
    let reduced = if own - child_slices_sum(own as u64, children, children.len() as int) >= 0 {
        own - child_slices_sum(own as u64, children, children.len() as int)
    } else {
        0
    };
    let added = parent_contrib_sum(s.stakes@, parents, parents.len() as int);
    if reduced + added <= u64::MAX {
        reduced + added
    } else {
        u64::MAX as int
    }
}

/// The slice of `remaining` that the `k`-th parent of `(hotkey, netuid)`
/// receives, by its declared proportion, its ledger stake, and the
/// hotkey's aggregate stake `total`.
pub open spec fn parent_take_at(
    s: Pallet,
    hotkey: u64,
    netuid: u16,
    remaining: u64,
    total: u64,
    k: int,
) -> int {
    let p = edges_of(s.parent_keys@, hotkey, netuid)[k];
    spec_parent_take(total_stake_sat(s.stakes@, p.1) as u64, p.0, total, remaining) as int
}

/// Sum of the slices of the first `n` parents.
pub open spec fn parent_takes_sum(
    s: Pallet,
    hotkey: u64,
    netuid: u16,
    remaining: u64,
    total: u64,
    n: int,
) -> int
    decreases n,
{
    if n <= 0 {
        0
    } else {
        parent_takes_sum(s, hotkey, netuid, remaining, total, n - 1) + parent_take_at(
            s,
            hotkey,
            netuid,
            remaining,
            total,
            n - 1,
        )
    }
}

/// Sum of the slices of the first `n` parents that are the account `a`.
pub open spec fn parent_takes_to(
    s: Pallet,
    hotkey: u64,
    netuid: u16,
    remaining: u64,
    total: u64,
    a: u64,
    n: int,
) -> int
    decreases n,
{
    if n <= 0 {
        0
    } else {
        parent_takes_to(s, hotkey, netuid, remaining, total, a, n - 1) + if edges_of(
            s.parent_keys@,
            hotkey,
            netuid,
        )[n - 1].1 == a {
            parent_take_at(s, hotkey, netuid, remaining, total, n - 1)
        } else {
            0
        }
    }
}

/// The emission left for the hotkey after its take: what the graph
/// distributor divides among the parents.
pub open spec fn spec_remaining_emission(s: Pallet, hotkey: u64, emission: u64) -> u64 {
    (emission - spec_hotkey_take(take_rate_of(s.hotkeys@, hotkey), emission)) as u64
}

/// What `accumulate_hotkey_emission` adds to the banked emission of account
/// `a` when `hotkey` receives `emission` on `netuid`: the parent slices
/// that fall to `a`, plus, for the hotkey itself, its off-the-top take and
/// whatever the parents' truncated slices left behind.
pub open spec fn spec_accumulate_credit(
    s: Pallet,
    hotkey: u64,
    netuid: u16,
    emission: u64,
    a: u64,
) -> int {
    let take = spec_hotkey_take(take_rate_of(s.hotkeys@, hotkey), emission) as int;
    let emt = spec_remaining_emission(s, hotkey, emission);
    let total = spec_stake_with_cp(s, hotkey, netuid) as u64;
    let parents = edges_of(s.parent_keys@, hotkey, netuid);
    let from_parents = if total != 0 {
        parent_takes_to(s, hotkey, netuid, emt, total, a, parents.len() as int)
    } else {
        0
    };
    let leftover = if total != 0 {
        let handed_out = parent_takes_sum(s, hotkey, netuid, emt, total, parents.len() as int);
        if emt - handed_out >= 0 {
            emt - handed_out
        } else {
            0
        }
    } else {
        emt as int
    };
    from_parents + if a == hotkey {
        leftover + take
    } else {
        0
    }
}

/// Everything of the state but the stake ledger and the hotkey records is
/// the same.
pub open spec fn same_but_stakes_hotkeys(a: Pallet, b: Pallet) -> bool {
    &&& a.subnets == b.subnets
    &&& a.child_keys == b.child_keys
    &&& a.parent_keys == b.parent_keys
    &&& a.owners == b.owners
    &&& a.last_children_block == b.last_children_block
    &&& a.total_issuance == b.total_issuance
    &&& a.hotkey_emission_tempo == b.hotkey_emission_tempo
    &&& a.tx_rate_limit == b.tx_rate_limit
    &&& a.network_min_lock == b.network_min_lock
    &&& a.network_last_lock == b.network_last_lock
    &&& a.network_last_lock_block == b.network_last_lock_block
    &&& a.lock_reduction_interval == b.lock_reduction_interval
}

/// The coldkey that receives a hotkey's own emission: its recorded owner,
/// or the hotkey account itself when none was recorded.
pub open spec fn spec_owner_of(s: Pallet, hotkey: u64) -> u64 {
    if crate::children::spec_owner_exists(s.owners@, hotkey) {
        s.owners@[crate::children::spec_owner_index(s.owners@, hotkey)].coldkey
    } else {
        hotkey
    }
}

/// The nominator share that the `i`-th ledger entry receives when `hotkey`
/// is drained: its stake-weighted slice of `remaining`, or nothing when the
/// entry is on another hotkey or its stake was manually increased after the
/// previous drain.
pub open spec fn drain_share_at(
    stakes: Seq<crate::state::StakeEntry>,
    hotkey: u64,
    remaining: u64,
    total: u64,
    prev_drain: u64,
    i: int,
) -> int {
    let e = stakes[i];
    if e.hotkey == hotkey && e.last_add_block <= prev_drain {
        spec_nominator_share(remaining, e.amount, total) as int
    } else {
        0
    }
}

/// Sum of the drain shares of the first `n` ledger entries.
pub open spec fn drain_shares_sum(
    stakes: Seq<crate::state::StakeEntry>,
    hotkey: u64,
    remaining: u64,
    total: u64,
    prev_drain: u64,
    n: int,
) -> int
    decreases n,
{
    if n <= 0 {
        0
    } else {
        drain_shares_sum(stakes, hotkey, remaining, total, prev_drain, n - 1) + drain_share_at(
            stakes,
            hotkey,
            remaining,
            total,
            prev_drain,
            n - 1,
        )
    }
}


/// The divisor of a drain: the hotkey's saturated total stake.
pub open spec fn spec_drain_total(s: Pallet, hotkey: u64) -> u64 {
    total_stake_sat(s.stakes@, hotkey) as u64
}

/// The reward net of the hotkey's take that a drain divides among the
/// nominators.
pub open spec fn spec_drain_net(s: Pallet, hotkey: u64, emission: u64) -> u64 {
    (emission - spec_hotkey_take(take_rate_of(s.hotkeys@, hotkey), emission)) as u64
}

/// What is left of the net reward after every nominator share is handed
/// out; with no stake nothing is handed out at all.
pub open spec fn spec_drain_remainder(s: Pallet, hotkey: u64, emission: u64) -> int {
    let emt = spec_drain_net(s, hotkey, emission);
    let total = spec_drain_total(s, hotkey);
    let prev = last_drain_of(s.hotkeys@, hotkey);
    if total == 0 {
        emt as int
    } else {
        let handed = drain_shares_sum(s.stakes@, hotkey, emt, total, prev, s.stakes@.len() as int);
        if emt - handed >= 0 {
            emt - handed
        } else {
            0
        }
    }
}

/// What the hotkey's own stake receives from a drain: its take plus the
/// truncation leftovers.
pub open spec fn spec_drain_final_credit(s: Pallet, hotkey: u64, emission: u64) -> int {
    spec_hotkey_take(take_rate_of(s.hotkeys@, hotkey), emission) + spec_drain_remainder(
        s,
        hotkey,
        emission,
    )
}

/// What a drain adds to the `i`-th ledger entry: its nominator share, plus
/// the hotkey's own credit when the entry is the owner's position on the
/// hotkey.
pub open spec fn spec_drain_stake_inc(s: Pallet, hotkey: u64, emission: u64, i: int) -> int {
    let e = s.stakes@[i];
    let emt = spec_drain_net(s, hotkey, emission);
    let total = spec_drain_total(s, hotkey);
    let prev = last_drain_of(s.hotkeys@, hotkey);
    (if total != 0 {
        drain_share_at(s.stakes@, hotkey, emt, total, prev, i)
    } else {
        0
    }) + (if e.coldkey == spec_owner_of(s, hotkey) && e.hotkey == hotkey {
        spec_drain_final_credit(s, hotkey, emission)
    } else {
        0
    })
}

/// Parent-contribution partial sums are never negative.
pub proof fn lemma_parent_contrib_nonneg(
    stakes: Seq<crate::state::StakeEntry>,
    parents: Seq<(u64, u64)>,
    n: int,
)
    ensures
        parent_contrib_sum(stakes, parents, n) >= 0,
    decreases n,
{
    if n > 0 {
        lemma_parent_contrib_nonneg(stakes, parents, n - 1);
        crate::state::lemma_stake_sum_nonneg(stakes, parents[n - 1].1, stakes.len() as int);
        let ts = total_stake_sat(stakes, parents[n - 1].1);
        let pr = parents[n - 1].0;
        assert(ts >= 0);
        assert(ts * pr >= 0) by (nonlinear_arith)
            requires ts >= 0 && pr >= 0;
        vstd::arithmetic::div_mod::lemma_div_pos_is_pos(ts * pr, 0xffff_ffff_ffff_ffff);
    }
}

/// The aggregate stake is a value of the word range.
pub proof fn lemma_stake_with_cp_range(s: Pallet, hotkey: u64, netuid: u16)
    ensures
        0 <= spec_stake_with_cp(s, hotkey, netuid) <= u64::MAX,
{
    let parents = edges_of(s.parent_keys@, hotkey, netuid);
    lemma_parent_contrib_nonneg(s.stakes@, parents, parents.len() as int);
}

impl Pallet {
    /// The delegate take rate of an account; the stored rate, or zero for
    /// an account with no record.
    pub fn get_delegate_take(&self, account: u64) -> (r: u16)
        requires
            self.wf(),
        ensures
            r == take_rate_of(self.hotkeys@, account),
    {
        match self.find_hotkey(account) {
            Some(i) => self.hotkeys[i].take,
            None => 0,
        }
    }

    /// The banked emission of an account; zero for an account with no
    /// record.
    pub fn get_pending_hotkey_emission(&self, account: u64) -> (r: u64)
        requires
            self.wf(),
        ensures
            r == pending_of(self.hotkeys@, account),
    {
        match self.find_hotkey(account) {
            Some(i) => self.hotkeys[i].pending_emission,
            None => 0,
        }
    }

    /// Adds `amount` to the banked emission of `account`, saturating, and
    /// creates the record if the account has none. Every other record and
    /// every other part of the state stay as they are.
    pub fn credit_pending(&mut self, account: u64, amount: u64)
        requires
            old(self).wf(),
        ensures
            final(self).wf(),
            same_but_hotkeys(*final(self), *old(self)),
            forall|a: u64|
                #[trigger] has_hotkey(final(self).hotkeys@, a) == (has_hotkey(old(self).hotkeys@, a)
                    || a == account),
            pending_of(final(self).hotkeys@, account) == if pending_of(old(self).hotkeys@, account)
                + amount <= u64::MAX {
                pending_of(old(self).hotkeys@, account) + amount
            } else {
                u64::MAX as int
            },
            forall|a: u64|
                a != account && has_hotkey(old(self).hotkeys@, a) ==> #[trigger] record_of(
                    final(self).hotkeys@,
                    a,
                ) == record_of(old(self).hotkeys@, a),
            take_rate_of(final(self).hotkeys@, account) == take_rate_of(old(self).hotkeys@, account),
            last_drain_of(final(self).hotkeys@, account) == last_drain_of(
                old(self).hotkeys@,
                account,
            ),
            old(self).hotkeys@.len() <= final(self).hotkeys@.len(),
            forall|i: int|
                0 <= i < old(self).hotkeys@.len() ==> (#[trigger] final(self).hotkeys@[i]).account
                    == old(self).hotkeys@[i].account
                    && final(self).hotkeys@[i].take == old(self).hotkeys@[i].take
                    && final(self).hotkeys@[i].last_drain_block
                        == old(self).hotkeys@[i].last_drain_block,
            forall|i: int|
                old(self).hotkeys@.len() <= i < final(self).hotkeys@.len()
                    ==> (#[trigger] final(self).hotkeys@[i]).account == account
                    && final(self).hotkeys@[i].take == 0
                    && final(self).hotkeys@[i].last_drain_block == 0,
    {
        match self.find_hotkey(account) {
            Some(i) => {
                let ghost before = self.hotkeys@;
                let p: u64 = self.hotkeys[i].pending_emission;
                self.hotkeys[i].pending_emission = p.saturating_add(amount);
                proof {
                    let e = self.hotkeys@[i as int];
                    assert(self.hotkeys@ == before.update(i as int, e));
                    assert forall|a: u64| true implies #[trigger] has_hotkey(self.hotkeys@, a)
                        == (has_hotkey(before, a) || a == account) by {
                        lemma_hotkey_update(before, i as int, e, a);
                    }
                    assert forall|a: u64| a != account && has_hotkey(before, a)
                        implies #[trigger] record_of(self.hotkeys@, a) == record_of(before, a) by {
                        lemma_hotkey_update(before, i as int, e, a);
                    }
                    lemma_hotkey_update(before, i as int, e, account);
                }
            },
            None => {
                let ghost before = self.hotkeys@;
                let entry = Hotkey {
                    account,
                    take: 0,
                    pending_emission: amount,
                    last_drain_block: 0,
                };
                self.hotkeys.push(entry);
                proof {
                    assert forall|a: u64| true implies #[trigger] has_hotkey(self.hotkeys@, a)
                        == (has_hotkey(before, a) || a == account) by {
                        lemma_hotkey_push(before, entry, a);
                    }
                    assert forall|a: u64| a != account && has_hotkey(before, a)
                        implies #[trigger] record_of(self.hotkeys@, a) == record_of(before, a) by {
                        lemma_hotkey_push(before, entry, a);
                    }
                    lemma_hotkey_push(before, entry, account);
                }
            },
        }
    }

    /// The whole slice of `stake` that a proportion (a fraction of
    /// `u64::MAX`) stands for, rounded down.
    pub fn proportion_of_stake(&self, stake: u64, proportion: u64) -> (r: u64)
        ensures
            r == stake * proportion / 0xffff_ffff_ffff_ffff,
    {
        proof {
            assert(stake * proportion <= 0xffff_ffff_ffff_ffff * 0xffff_ffff_ffff_ffff)
                by (nonlinear_arith)
                requires stake <= 0xffff_ffff_ffff_ffff && proportion <= 0xffff_ffff_ffff_ffff;
            vstd::arithmetic::div_mod::lemma_div_is_ordered(
                stake * proportion,
                (0xffff_ffff_ffff_ffff as int) * 0xffff_ffff_ffff_ffff,
                0xffff_ffff_ffff_ffff,
            );
            assert((0xffff_ffff_ffff_ffff as int) * 0xffff_ffff_ffff_ffff / 0xffff_ffff_ffff_ffff
                == 0xffff_ffff_ffff_ffff) by (nonlinear_arith);
            vstd::arithmetic::div_mod::lemma_div_pos_is_pos(
                stake * proportion,
                0xffff_ffff_ffff_ffff,
            );
        }
        (((stake as u128) * (proportion as u128)) / 0xffff_ffff_ffff_ffffu128) as u64
    }

    /// The stake a hotkey weighs on a subnet: its own total stake, less
    /// what its declared child proportions owe away, plus what its parents'
    /// declared proportions contribute of their stakes.
    #[verifier::loop_isolation(false)]
    pub fn get_stake_with_children_and_parents(&self, hotkey: u64, netuid: u16) -> (r: u64)
        requires
            self.wf(),
        ensures
            r == spec_stake_with_cp(*self, hotkey, netuid),
    {
        let own: u64 = self.get_total_stake_for_hotkey(hotkey);
        let children: Vec<(u64, u64)> = self.get_children(hotkey, netuid);
        let mut stake: u64 = own;
        let mut i: usize = 0;
        while i < children.len()
            invariant
                i <= children@.len(),
                stake == if own - child_slices_sum(own, children@, i as int) >= 0 {
                    own - child_slices_sum(own, children@, i as int)
                } else {
                    0
                },
            decreases children@.len() - i,
        {
            let slice: u64 = self.proportion_of_stake(own, children[i].0);
            stake = stake.saturating_sub(slice);
            i = i + 1;
        }
        let ghost reduced = stake as int;
        let parents: Vec<(u64, u64)> = self.get_parents(hotkey, netuid);
        let mut j: usize = 0;
        while j < parents.len()
            invariant
                j <= parents@.len(),
                stake == if reduced + parent_contrib_sum(self.stakes@, parents@, j as int)
                    <= u64::MAX {
                    reduced + parent_contrib_sum(self.stakes@, parents@, j as int)
                } else {
                    u64::MAX as int
                },
                parent_contrib_sum(self.stakes@, parents@, j as int) >= 0,
            decreases parents@.len() - j,
        {
            let parent_stake: u64 = self.get_total_stake_for_hotkey(parents[j].1);
            let slice: u64 = self.proportion_of_stake(parent_stake, parents[j].0);
            stake = stake.saturating_add(slice);
            j = j + 1;
        }
        stake
    }

    /// The coldkey that receives the hotkey's own emission: its recorded
    /// owner, or the hotkey account itself when none was recorded.
    pub fn get_owning_coldkey(&self, hotkey: u64) -> (r: u64)
        requires
            self.wf(),
        ensures
            r == spec_owner_of(*self, hotkey),
    {
        let mut i: usize = 0;
        while i < self.owners.len()
            invariant
                self.wf(),
                i <= self.owners@.len(),
                forall|j: int| 0 <= j < i ==> (#[trigger] self.owners@[j]).hotkey != hotkey,
            decreases self.owners@.len() - i,
        {
            if self.owners[i].hotkey == hotkey {
                proof {
                    let w = crate::children::spec_owner_index(self.owners@, hotkey);
                    assert(self.owners@[i as int].hotkey == hotkey);
                    assert(crate::children::spec_owner_exists(self.owners@, hotkey));
                    assert(0 <= w < self.owners@.len() && self.owners@[w].hotkey == hotkey);
                    assert(w == i);
                }
                return self.owners[i].coldkey;
            }
            i = i + 1;
        }
        hotkey
    }

    /// Marks the hotkey drained at `block_number`: zeroes its banked
    /// emission, stamps the drain block, and returns the previous drain
    /// block. An account without a record gets one.
    fn set_drained(&mut self, hotkey: u64, block_number: u64) -> (prev: u64)
        requires
            old(self).wf(),
        ensures
            final(self).wf(),
            same_but_hotkeys(*final(self), *old(self)),
            prev == last_drain_of(old(self).hotkeys@, hotkey),
            pending_of(final(self).hotkeys@, hotkey) == 0,
            last_drain_of(final(self).hotkeys@, hotkey) == block_number,
            forall|a: u64|
                #[trigger] has_hotkey(final(self).hotkeys@, a) == (has_hotkey(old(self).hotkeys@, a)
                    || a == hotkey),
            forall|a: u64|
                a != hotkey && has_hotkey(old(self).hotkeys@, a) ==> #[trigger] record_of(
                    final(self).hotkeys@,
                    a,
                ) == record_of(old(self).hotkeys@, a),
            forall|a: u64|
                #[trigger] take_rate_of(final(self).hotkeys@, a) == take_rate_of(
                    old(self).hotkeys@,
                    a,
                ),
            old(self).hotkeys@.len() <= final(self).hotkeys@.len(),
            has_hotkey(old(self).hotkeys@, hotkey) ==> final(self).hotkeys@.len()
                == old(self).hotkeys@.len(),
            forall|i: int|
                0 <= i < old(self).hotkeys@.len() ==> (#[trigger] final(self).hotkeys@[i]).account
                    == old(self).hotkeys@[i].account
                    && final(self).hotkeys@[i].take == old(self).hotkeys@[i].take,
            forall|i: int|
                old(self).hotkeys@.len() <= i < final(self).hotkeys@.len()
                    ==> (#[trigger] final(self).hotkeys@[i]).take == 0,
    {
        match self.find_hotkey(hotkey) {
            Some(i) => {
                let ghost before = self.hotkeys@;
                let prev: u64 = self.hotkeys[i].last_drain_block;
                self.hotkeys[i].pending_emission = 0;
                let ghost mid = self.hotkeys@;
                self.hotkeys[i].last_drain_block = block_number;
                proof {
                    let e1 = mid[i as int];
                    let e2 = self.hotkeys@[i as int];
                    assert(mid == before.update(i as int, e1));
                    assert(self.hotkeys@ == mid.update(i as int, e2));
                    assert forall|a: u64| true implies #[trigger] has_hotkey(self.hotkeys@, a)
                        == (has_hotkey(before, a) || a == hotkey) by {
                        lemma_hotkey_update(before, i as int, e1, a);
                        lemma_hotkey_update(mid, i as int, e2, a);
                    }
                    assert forall|a: u64| a != hotkey && has_hotkey(before, a)
                        implies #[trigger] record_of(self.hotkeys@, a) == record_of(before, a) by {
                        lemma_hotkey_update(before, i as int, e1, a);
                        lemma_hotkey_update(mid, i as int, e2, a);
                    }
                    assert forall|a: u64| true implies #[trigger] take_rate_of(self.hotkeys@, a)
                        == take_rate_of(before, a) by {
                        lemma_hotkey_update(before, i as int, e1, a);
                        lemma_hotkey_update(mid, i as int, e2, a);
                    }
                    lemma_hotkey_update(before, i as int, e1, hotkey);
                    lemma_hotkey_update(mid, i as int, e2, hotkey);
                }
                prev
            },
            None => {
                let ghost before = self.hotkeys@;
                let entry = Hotkey {
                    account: hotkey,
                    take: 0,
                    pending_emission: 0,
                    last_drain_block: block_number,
                };
                self.hotkeys.push(entry);
                proof {
                    assert forall|a: u64| true implies #[trigger] has_hotkey(self.hotkeys@, a)
                        == (has_hotkey(before, a) || a == hotkey) by {
                        lemma_hotkey_push(before, entry, a);
                    }
                    assert forall|a: u64| a != hotkey && has_hotkey(before, a)
                        implies #[trigger] record_of(self.hotkeys@, a) == record_of(before, a) by {
                        lemma_hotkey_push(before, entry, a);
                    }
                    assert forall|a: u64| true implies #[trigger] take_rate_of(self.hotkeys@, a)
                        == take_rate_of(before, a) by {
                        lemma_hotkey_push(before, entry, a);
                        if a != hotkey && !has_hotkey(before, a) {
                            assert(!has_hotkey(self.hotkeys@, a));
                        }
                    }
                    lemma_hotkey_push(before, entry, hotkey);
                }
                0
            },
        }
    }

    /// Adds `amount` to the stake of `(coldkey, hotkey)`, saturating, and
    /// creates the position if none exists. Emission credits do not count
    /// as manual stake increases, so a created position carries a zero
    /// last-increase block and an existing one keeps its own.
    pub(crate) fn increase_stake(&mut self, coldkey: u64, hotkey: u64, amount: u64)
        requires
            old(self).wf(),
        ensures
            final(self).wf(),
            final(self).hotkeys == old(self).hotkeys,
            final(self).subnets == old(self).subnets,
            final(self).child_keys == old(self).child_keys,
            final(self).parent_keys == old(self).parent_keys,
            final(self).owners == old(self).owners,
            final(self).last_children_block == old(self).last_children_block,
            final(self).total_issuance == old(self).total_issuance,
            final(self).hotkey_emission_tempo == old(self).hotkey_emission_tempo,
            final(self).tx_rate_limit == old(self).tx_rate_limit,
            final(self).network_min_lock == old(self).network_min_lock,
            final(self).network_last_lock == old(self).network_last_lock,
            final(self).network_last_lock_block == old(self).network_last_lock_block,
            final(self).lock_reduction_interval == old(self).lock_reduction_interval,
            forall|i: int|
                0 <= i < old(self).stakes@.len() ==> {
                    let e0 = old(self).stakes@[i];
                    let e1 = #[trigger] final(self).stakes@[i];
                    &&& e1.coldkey == e0.coldkey
                    &&& e1.hotkey == e0.hotkey
                    &&& e1.last_add_block == e0.last_add_block
                    &&& e1.amount == if e0.coldkey == coldkey && e0.hotkey == hotkey {
                        if e0.amount + amount <= u64::MAX {
                            (e0.amount + amount) as u64
                        } else {
                            u64::MAX
                        }
                    } else {
                        e0.amount
                    }
                },
            crate::state::has_stake_entry(old(self).stakes@, coldkey, hotkey)
                ==> final(self).stakes@.len() == old(self).stakes@.len(),
            !crate::state::has_stake_entry(old(self).stakes@, coldkey, hotkey)
                ==> final(self).stakes@ == old(self).stakes@.push(
                crate::state::StakeEntry { coldkey, hotkey, amount, last_add_block: 0u64 },
            ),
    {
        match self.find_stake(coldkey, hotkey) {
            Some(i) => {
                let ghost before = self.stakes@;
                let a0: u64 = self.stakes[i].amount;
                self.stakes[i].amount = a0.saturating_add(amount);
                proof {
                    let e = self.stakes@[i as int];
                    assert(self.stakes@ == before.update(i as int, e));
                    assert forall|j: int, k: int| 0 <= j < k < self.stakes@.len()
                        implies !((#[trigger] self.stakes@[j]).coldkey
                        == (#[trigger] self.stakes@[k]).coldkey && self.stakes@[j].hotkey
                        == self.stakes@[k].hotkey) by {
                        assert(self.stakes@[j].coldkey == before[j].coldkey && self.stakes@[j].hotkey
                            == before[j].hotkey);
                        assert(self.stakes@[k].coldkey == before[k].coldkey && self.stakes@[k].hotkey
                            == before[k].hotkey);
                    }
                    assert forall|j: int| 0 <= j < before.len() && j != i as int
                        implies !(before[j].coldkey == coldkey && before[j].hotkey == hotkey) by {}
                }
            },
            None => {
                let entry = crate::state::StakeEntry {
                    coldkey,
                    hotkey,
                    amount,
                    last_add_block: 0,
                };
                let ghost before = self.stakes@;
                self.stakes.push(entry);
                proof {
                    let last = before.len() as int;
                    assert forall|j: int, k: int| 0 <= j < k < self.stakes@.len()
                        implies !((#[trigger] self.stakes@[j]).coldkey
                        == (#[trigger] self.stakes@[k]).coldkey && self.stakes@[j].hotkey
                        == self.stakes@[k].hotkey) by {
                        if k == last {
                            assert(self.stakes@[j] == before[j]);
                            if before[j].coldkey == coldkey && before[j].hotkey == hotkey {
                                assert(crate::state::has_stake_entry(before, coldkey, hotkey));
                            }
                        } else {
                            assert(self.stakes@[j] == before[j] && self.stakes@[k] == before[k]);
                        }
                    }
                }
            },
        }
    }

    /// Drains a hotkey's banked emission into stake at `block_number`: the
    /// banked amount is zeroed, the drain block stamped, each nominator
    /// that did not manually add stake since the previous drain receives
    /// its stake-weighted slice of the reward net of the hotkey's take, and
    /// the hotkey's own position receives the take plus every unit the
    /// truncated slices left behind. Every credit saturates at `u64::MAX`.
    #[verifier::loop_isolation(false)]
    #[verifier::rlimit(100)]
    #[verifier::spinoff_prover]
    pub fn drain_hotkey_emission(&mut self, hotkey: u64, emission: u64, block_number: u64)
        requires
            old(self).wf(),
            emission <= MAX_FIXED_AMOUNT,
            spec_total_stake(old(self).stakes@, hotkey) <= MAX_FIXED_AMOUNT,
        ensures
            final(self).wf(),
            final(self).subnets == old(self).subnets,
            final(self).child_keys == old(self).child_keys,
            final(self).parent_keys == old(self).parent_keys,
            final(self).owners == old(self).owners,
            final(self).last_children_block == old(self).last_children_block,
            final(self).total_issuance == old(self).total_issuance,
            final(self).hotkey_emission_tempo == old(self).hotkey_emission_tempo,
            final(self).tx_rate_limit == old(self).tx_rate_limit,
            final(self).network_min_lock == old(self).network_min_lock,
            final(self).network_last_lock == old(self).network_last_lock,
            final(self).network_last_lock_block == old(self).network_last_lock_block,
            final(self).lock_reduction_interval == old(self).lock_reduction_interval,
            pending_of(final(self).hotkeys@, hotkey) == 0,
            last_drain_of(final(self).hotkeys@, hotkey) == block_number,
            forall|a: u64|
                #[trigger] has_hotkey(final(self).hotkeys@, a) == (has_hotkey(old(self).hotkeys@, a)
                    || a == hotkey),
            forall|a: u64|
                a != hotkey && has_hotkey(old(self).hotkeys@, a) ==> #[trigger] record_of(
                    final(self).hotkeys@,
                    a,
                ) == record_of(old(self).hotkeys@, a),
            forall|a: u64|
                #[trigger] take_rate_of(final(self).hotkeys@, a) == take_rate_of(
                    old(self).hotkeys@,
                    a,
                ),
            old(self).hotkeys@.len() <= final(self).hotkeys@.len(),
            has_hotkey(old(self).hotkeys@, hotkey) ==> final(self).hotkeys@.len()
                == old(self).hotkeys@.len(),
            forall|i: int|
                0 <= i < old(self).hotkeys@.len() ==> (#[trigger] final(self).hotkeys@[i]).account
                    == old(self).hotkeys@[i].account
                    && final(self).hotkeys@[i].take == old(self).hotkeys@[i].take,
            forall|i: int|
                old(self).hotkeys@.len() <= i < final(self).hotkeys@.len()
                    ==> (#[trigger] final(self).hotkeys@[i]).take == 0,
            forall|i: int|
                0 <= i < old(self).stakes@.len() ==> {
                    let e0 = old(self).stakes@[i];
                    let e1 = #[trigger] final(self).stakes@[i];
                    &&& e1.coldkey == e0.coldkey
                    &&& e1.hotkey == e0.hotkey
                    &&& e1.last_add_block == e0.last_add_block
                    &&& e1.amount == if e0.amount + spec_drain_stake_inc(
                        *old(self),
                        hotkey,
                        emission,
                        i,
                    ) <= u64::MAX {
                        (e0.amount + spec_drain_stake_inc(*old(self), hotkey, emission, i)) as u64
                    } else {
                        u64::MAX
                    }
                },
            crate::state::has_stake_entry(
                old(self).stakes@,
                spec_owner_of(*old(self), hotkey),
                hotkey,
            ) ==> final(self).stakes@.len() == old(self).stakes@.len(),
            !crate::state::has_stake_entry(
                old(self).stakes@,
                spec_owner_of(*old(self), hotkey),
                hotkey,
            ) ==> final(self).stakes@.len() == old(self).stakes@.len() + 1 && ({
                let e = final(self).stakes@[old(self).stakes@.len() as int];
                &&& e.coldkey == spec_owner_of(*old(self), hotkey)
                &&& e.hotkey == hotkey
                &&& e.last_add_block == 0
                &&& e.amount == if spec_drain_final_credit(*old(self), hotkey, emission)
                    <= u64::MAX {
                    spec_drain_final_credit(*old(self), hotkey, emission) as u64
                } else {
                    u64::MAX
                }
            }),
    {
        let ghost s0 = *self;
        let prev: u64 = self.set_drained(hotkey, block_number);
        let ghost s1 = *self;
        let total_hotkey_stake: u64 = self.get_total_stake_for_hotkey(hotkey);
        let take_rate: u16 = self.get_delegate_take(hotkey);
        proof {
            assert(take_rate == take_rate_of(s0.hotkeys@, hotkey));
            assert(total_hotkey_stake == spec_drain_total(s0, hotkey));
        }
        let hotkey_take: u64 = hotkey_take_of(take_rate, emission);
        proof {
            lemma_hotkey_take_le(take_rate, emission);
        }
        let emission_minus_take: u64 = emission - hotkey_take;
        let mut remainder: u64 = emission_minus_take;
        if total_hotkey_stake != 0 {
            let mut i: usize = 0;
            while i < self.stakes.len()
                invariant
                    self.wf(),
                    i <= self.stakes@.len(),
                    self.stakes@.len() == s0.stakes@.len(),
                    self.hotkeys == s1.hotkeys,
                    same_but_stakes_hotkeys(*self, s0),
                    forall|j: int|
                        i <= j < self.stakes@.len() ==> #[trigger] self.stakes@[j]
                            == s0.stakes@[j],
                    forall|j: int|
                        0 <= j < i ==> {
                            let e0 = s0.stakes@[j];
                            let e1 = #[trigger] self.stakes@[j];
                            &&& e1.coldkey == e0.coldkey
                            &&& e1.hotkey == e0.hotkey
                            &&& e1.last_add_block == e0.last_add_block
                            &&& e1.amount == if e0.amount + drain_share_at(
                                s0.stakes@,
                                hotkey,
                                emission_minus_take,
                                total_hotkey_stake,
                                prev,
                                j,
                            ) <= u64::MAX {
                                (e0.amount + drain_share_at(
                                    s0.stakes@,
                                    hotkey,
                                    emission_minus_take,
                                    total_hotkey_stake,
                                    prev,
                                    j,
                                )) as u64
                            } else {
                                u64::MAX
                            }
                        },
                    remainder == ({
                        let handed = drain_shares_sum(
                            s0.stakes@,
                            hotkey,
                            emission_minus_take,
                            total_hotkey_stake,
                            prev,
                            i as int,
                        );
                        if emission_minus_take - handed >= 0 {
                            emission_minus_take - handed
                        } else {
                            0
                        }
                    }),
                decreases self.stakes@.len() - i,
            {
                let entry_hotkey: u64 = self.stakes[i].hotkey;
                let entry_last_add: u64 = self.stakes[i].last_add_block;
                if entry_hotkey == hotkey && entry_last_add <= prev {
                    let nominator_stake: u64 = self.stakes[i].amount;
                    proof {
                        crate::state::lemma_stake_entry_le_sum(
                            s0.stakes@,
                            hotkey,
                            i as int,
                            s0.stakes@.len() as int,
                        );
                    }
                    let share: u64 = nominator_share_of(
                        emission_minus_take,
                        nominator_stake,
                        total_hotkey_stake,
                    );
                    let ghost before = self.stakes@;
                    let a0: u64 = self.stakes[i].amount;
                    self.stakes[i].amount = a0.saturating_add(share);
                    remainder = remainder.saturating_sub(share);
                    proof {
                        assert(self.stakes@ == before.update(i as int, self.stakes@[i as int]));
                        assert forall|j: int, k: int| 0 <= j < k < self.stakes@.len()
                            implies !((#[trigger] self.stakes@[j]).coldkey
                            == (#[trigger] self.stakes@[k]).coldkey && self.stakes@[j].hotkey
                            == self.stakes@[k].hotkey) by {
                            assert(self.stakes@[j].coldkey == before[j].coldkey
                                && self.stakes@[j].hotkey == before[j].hotkey);
                            assert(self.stakes@[k].coldkey == before[k].coldkey
                                && self.stakes@[k].hotkey == before[k].hotkey);
                        }
                        assert(share == drain_share_at(
                            s0.stakes@,
                            hotkey,
                            emission_minus_take,
                            total_hotkey_stake,
                            prev,
                            i as int,
                        ));
                    }
                }
                i = i + 1;
            }
        }
        let ghost s2 = *self;
        let owner: u64 = self.get_owning_coldkey(hotkey);
        proof {
            assert(owner == spec_owner_of(s0, hotkey));
            assert(crate::state::has_stake_entry(s2.stakes@, owner, hotkey)
                == crate::state::has_stake_entry(s0.stakes@, owner, hotkey)) by {
                if crate::state::has_stake_entry(s0.stakes@, owner, hotkey) {
                    let w = crate::state::stake_index(s0.stakes@, owner, hotkey);
                    assert(0 <= w < s0.stakes@.len() && s0.stakes@[w].coldkey == owner
                        && s0.stakes@[w].hotkey == hotkey);
                    assert(s2.stakes@[w].coldkey == owner && s2.stakes@[w].hotkey == hotkey);
                    assert(crate::state::has_stake_entry(s2.stakes@, owner, hotkey));
                }
                if crate::state::has_stake_entry(s2.stakes@, owner, hotkey) {
                    let w = crate::state::stake_index(s2.stakes@, owner, hotkey);
                    assert(0 <= w < s2.stakes@.len() && s2.stakes@[w].coldkey == owner
                        && s2.stakes@[w].hotkey == hotkey);
                    assert(s0.stakes@[w].coldkey == owner && s0.stakes@[w].hotkey == hotkey);
                    assert(crate::state::has_stake_entry(s0.stakes@, owner, hotkey));
                }
            }
        }
        self.increase_stake(owner, hotkey, hotkey_take.saturating_add(remainder));
    }

    /// Accumulates an epoch reward on a hotkey, first handing each
    /// delegation parent its stake-weighted slice of the reward net of the
    /// hotkey's take. The hotkey keeps its take, every unit the truncated
    /// slices left behind, and the whole net reward when its aggregate
    /// stake is zero. Each credit saturates at `u64::MAX`; accounts without
    /// a record get one, with a zero take and a zero drain block.
    #[verifier::loop_isolation(false)]
    #[verifier::rlimit(60)]
    #[verifier::spinoff_prover]
    pub fn accumulate_hotkey_emission(&mut self, hotkey: u64, netuid: u16, emission: u64)
        requires
            old(self).wf(),
            emission <= MAX_FIXED_AMOUNT,
        ensures
            final(self).wf(),
            same_but_hotkeys(*final(self), *old(self)),
            forall|a: u64|
                #[trigger] pending_of(final(self).hotkeys@, a) == if pending_of(
                    old(self).hotkeys@,
                    a,
                ) + spec_accumulate_credit(*old(self), hotkey, netuid, emission, a) <= u64::MAX {
                    pending_of(old(self).hotkeys@, a) + spec_accumulate_credit(
                        *old(self),
                        hotkey,
                        netuid,
                        emission,
                        a,
                    )
                } else {
                    u64::MAX as int
                },
            forall|a: u64|
                #[trigger] take_rate_of(final(self).hotkeys@, a) == take_rate_of(
                    old(self).hotkeys@,
                    a,
                ),
            forall|a: u64|
                #[trigger] last_drain_of(final(self).hotkeys@, a) == last_drain_of(
                    old(self).hotkeys@,
                    a,
                ),
            old(self).hotkeys@.len() <= final(self).hotkeys@.len(),
            forall|i: int|
                0 <= i < old(self).hotkeys@.len() ==> (#[trigger] final(self).hotkeys@[i]).account
                    == old(self).hotkeys@[i].account
                    && final(self).hotkeys@[i].take == old(self).hotkeys@[i].take
                    && final(self).hotkeys@[i].last_drain_block
                        == old(self).hotkeys@[i].last_drain_block,
            forall|i: int|
                old(self).hotkeys@.len() <= i < final(self).hotkeys@.len()
                    ==> (#[trigger] final(self).hotkeys@[i]).take == 0
                    && final(self).hotkeys@[i].last_drain_block == 0,
    {
        let ghost s0 = *self;
        let take_rate: u16 = self.get_delegate_take(hotkey);
        let hotkey_take: u64 = hotkey_take_of(take_rate, emission);
        proof {
            lemma_hotkey_take_le(take_rate, emission);
        }
        let emission_minus_take: u64 = emission - hotkey_take;
        let mut remaining: u64 = emission_minus_take;
        let total_hotkey_stake: u64 = self.get_stake_with_children_and_parents(hotkey, netuid);
        if total_hotkey_stake != 0 {
            let parents: Vec<(u64, u64)> = self.get_parents(hotkey, netuid);
            let mut k: usize = 0;
            while k < parents.len()
                invariant
                    self.wf(),
                    k <= parents@.len(),
                    parents@ == edges_of(s0.parent_keys@, hotkey, netuid),
                    same_but_hotkeys(*self, s0),
                    remaining == ({
                        let handed = parent_takes_sum(
                            s0,
                            hotkey,
                            netuid,
                            emission_minus_take,
                            total_hotkey_stake,
                            k as int,
                        );
                        if emission_minus_take - handed >= 0 {
                            emission_minus_take - handed
                        } else {
                            0
                        }
                    }),
                    forall|a: u64|
                        #[trigger] pending_of(self.hotkeys@, a) == if pending_of(s0.hotkeys@, a)
                            + parent_takes_to(
                            s0,
                            hotkey,
                            netuid,
                            emission_minus_take,
                            total_hotkey_stake,
                            a,
                            k as int,
                        ) <= u64::MAX {
                            pending_of(s0.hotkeys@, a) + parent_takes_to(
                                s0,
                                hotkey,
                                netuid,
                                emission_minus_take,
                                total_hotkey_stake,
                                a,
                                k as int,
                            )
                        } else {
                            u64::MAX as int
                        },
                    forall|a: u64|
                        #[trigger] take_rate_of(self.hotkeys@, a) == take_rate_of(s0.hotkeys@, a),
                    forall|a: u64|
                        #[trigger] last_drain_of(self.hotkeys@, a) == last_drain_of(s0.hotkeys@, a),
                    s0.hotkeys@.len() <= self.hotkeys@.len(),
                    forall|i: int|
                        0 <= i < s0.hotkeys@.len() ==> (#[trigger] self.hotkeys@[i]).account
                            == s0.hotkeys@[i].account
                            && self.hotkeys@[i].take == s0.hotkeys@[i].take
                            && self.hotkeys@[i].last_drain_block == s0.hotkeys@[i].last_drain_block,
                    forall|i: int|
                        s0.hotkeys@.len() <= i < self.hotkeys@.len()
                            ==> (#[trigger] self.hotkeys@[i]).take == 0
                            && self.hotkeys@[i].last_drain_block == 0,
                decreases parents@.len() - k,
            {
                let proportion: u64 = parents[k].0;
                let parent: u64 = parents[k].1;
                let parent_stake: u64 = self.get_total_stake_for_hotkey(parent);
                let parent_take: u64 = parent_take_of(
                    parent_stake,
                    proportion,
                    total_hotkey_stake,
                    emission_minus_take,
                );
                let ghost pre = *self;
                self.credit_pending(parent, parent_take);
                remaining = remaining.saturating_sub(parent_take);
                proof {
                    assert(parent_take == parent_take_at(
                        s0,
                        hotkey,
                        netuid,
                        emission_minus_take,
                        total_hotkey_stake,
                        k as int,
                    ));
                    assert forall|a: u64| true implies #[trigger] take_rate_of(self.hotkeys@, a)
                        == take_rate_of(pre.hotkeys@, a) by {
                        if a != parent {
                            if has_hotkey(pre.hotkeys@, a) {
                                assert(record_of(self.hotkeys@, a) == record_of(pre.hotkeys@, a));
                            } else {
                                assert(!has_hotkey(self.hotkeys@, a));
                            }
                        }
                    }
                    assert forall|a: u64| true implies #[trigger] last_drain_of(self.hotkeys@, a)
                        == last_drain_of(pre.hotkeys@, a) by {
                        if a != parent {
                            if has_hotkey(pre.hotkeys@, a) {
                                assert(record_of(self.hotkeys@, a) == record_of(pre.hotkeys@, a));
                            } else {
                                assert(!has_hotkey(self.hotkeys@, a));
                            }
                        }
                    }
                    assert forall|a: u64| true implies #[trigger] pending_of(self.hotkeys@, a)
                        == ({
                        let credit = parent_takes_to(
                            s0,
                            hotkey,
                            netuid,
                            emission_minus_take,
                            total_hotkey_stake,
                            a,
                            k as int + 1,
                        );
                        if pending_of(s0.hotkeys@, a) + credit <= u64::MAX {
                            pending_of(s0.hotkeys@, a) + credit
                        } else {
                            u64::MAX as int
                        }
                    }) by {
                        if a != parent {
                            assert(pending_of(self.hotkeys@, a) == pending_of(pre.hotkeys@, a));
                        }
                    }
                }
                k = k + 1;
            }
        }
        let ghost s1 = *self;
        self.credit_pending(hotkey, remaining.saturating_add(hotkey_take));
        proof {
            assert forall|a: u64| true implies #[trigger] take_rate_of(self.hotkeys@, a)
                == take_rate_of(s1.hotkeys@, a) by {
                if a != hotkey {
                    if has_hotkey(s1.hotkeys@, a) {
                        assert(record_of(self.hotkeys@, a) == record_of(s1.hotkeys@, a));
                    } else {
                        assert(!has_hotkey(self.hotkeys@, a));
                    }
                }
            }
            assert forall|a: u64| true implies #[trigger] last_drain_of(self.hotkeys@, a)
                == last_drain_of(s1.hotkeys@, a) by {
                if a != hotkey {
                    if has_hotkey(s1.hotkeys@, a) {
                        assert(record_of(self.hotkeys@, a) == record_of(s1.hotkeys@, a));
                    } else {
                        assert(!has_hotkey(self.hotkeys@, a));
                    }
                }
            }
            assert forall|a: u64| true implies #[trigger] pending_of(self.hotkeys@, a) == ({
                let credit = spec_accumulate_credit(s0, hotkey, netuid, emission, a);
                if pending_of(s0.hotkeys@, a) + credit <= u64::MAX {
                    pending_of(s0.hotkeys@, a) + credit
                } else {
                    u64::MAX as int
                }
            }) by {
                if a != hotkey {
                    assert(pending_of(self.hotkeys@, a) == pending_of(s1.hotkeys@, a));
                }
            }
        }
    }
}


/// Sum of the 32-fractional-bit share fractions the first `n` parents of
/// `(hotkey, netuid)` declare of the hotkey's aggregate stake `total`.
pub open spec fn parent_share_bits_sum(
    s: Pallet,
    hotkey: u64,
    netuid: u16,
    total: u64,
    n: int,
) -> int
    decreases n,
{
    if n <= 0 {
        0
    } else {
        let p = edges_of(s.parent_keys@, hotkey, netuid)[n - 1];
        parent_share_bits_sum(s, hotkey, netuid, total, n - 1) + crate::fixed::parent_share_bits(
            total_stake_sat(s.stakes@, p.1) as u64,
            p.0,
            total,
        )
    }
}

/// Share-fraction partial sums are never negative.
pub proof fn lemma_share_bits_sum_nonneg(s: Pallet, hotkey: u64, netuid: u16, total: u64, n: int)
    requires
        total > 0,
    ensures
        parent_share_bits_sum(s, hotkey, netuid, total, n) >= 0,
    decreases n,
{
    if n > 0 {
        lemma_share_bits_sum_nonneg(s, hotkey, netuid, total, n - 1);
        let p = edges_of(s.parent_keys@, hotkey, netuid)[n - 1];
        let ps = total_stake_sat(s.stakes@, p.1) as u64;
        assert(ps * prop_ratio_bits(p.0) >= 0) by {
            vstd::arithmetic::div_mod::lemma_div_pos_is_pos(p.0 * 0x1_0000_0000, 0xffff_ffff_ffff_ffff);
            assert(ps * prop_ratio_bits(p.0) >= 0) by (nonlinear_arith)
                requires ps >= 0 && prop_ratio_bits(p.0) >= 0;
        }
        vstd::arithmetic::div_mod::lemma_div_pos_is_pos(ps * prop_ratio_bits(p.0), total as int);
    }
}

/// One parent's share fraction never exceeds a sum it contributes to.
pub proof fn lemma_share_bits_le_sum(s: Pallet, hotkey: u64, netuid: u16, total: u64, j: int, n: int)
    requires
        total > 0,
        0 <= j < n,
    ensures
        ({
            let p = edges_of(s.parent_keys@, hotkey, netuid)[j];
            crate::fixed::parent_share_bits(total_stake_sat(s.stakes@, p.1) as u64, p.0, total)
                <= parent_share_bits_sum(s, hotkey, netuid, total, n)
        }),
    decreases n,
{
    if j == n - 1 {
        lemma_share_bits_sum_nonneg(s, hotkey, netuid, total, n - 1);
    } else {
        lemma_share_bits_le_sum(s, hotkey, netuid, total, j, n - 1);
        let p = edges_of(s.parent_keys@, hotkey, netuid)[n - 1];
        let ps = total_stake_sat(s.stakes@, p.1) as u64;
        assert(ps * prop_ratio_bits(p.0) >= 0) by {
            vstd::arithmetic::div_mod::lemma_div_pos_is_pos(p.0 * 0x1_0000_0000, 0xffff_ffff_ffff_ffff);
            assert(ps * prop_ratio_bits(p.0) >= 0) by (nonlinear_arith)
                requires ps >= 0 && prop_ratio_bits(p.0) >= 0;
        }
        vstd::arithmetic::div_mod::lemma_div_pos_is_pos(ps * prop_ratio_bits(p.0), total as int);
    }
}

/// Under a consistent share declaration the parents' slices stay within
/// the reward: their running sum never exceeds `remaining` times the
/// running share-fraction sum, scaled back down.
pub proof fn lemma_parent_takes_le(
    s: Pallet,
    hotkey: u64,
    netuid: u16,
    remaining: u64,
    total: u64,
    n: int,
)
    requires
        total > 0,
        remaining <= MAX_FIXED_AMOUNT,
        forall|k: int|
            0 <= k < n ==> ({
                let p = #[trigger] edges_of(s.parent_keys@, hotkey, netuid)[k];
                crate::fixed::parent_share_bits(total_stake_sat(s.stakes@, p.1) as u64, p.0, total)
                    <= 0x1_0000_0000
            }),
    ensures
        parent_takes_sum(s, hotkey, netuid, remaining, total, n) <= parent_share_bits_sum(
            s,
            hotkey,
            netuid,
            total,
            n,
        ) * remaining / 0x1_0000_0000,
    decreases n,
{
    if n > 0 {
        lemma_parent_takes_le(s, hotkey, netuid, remaining, total, n - 1);
        let p = edges_of(s.parent_keys@, hotkey, netuid)[n - 1];
        let ps = total_stake_sat(s.stakes@, p.1) as u64;
        let bits = crate::fixed::parent_share_bits(ps, p.0, total);
        assert(bits >= 0) by {
            vstd::arithmetic::div_mod::lemma_div_pos_is_pos(p.0 * 0x1_0000_0000, 0xffff_ffff_ffff_ffff);
            assert(ps * prop_ratio_bits(p.0) >= 0) by (nonlinear_arith)
                requires ps >= 0 && prop_ratio_bits(p.0) >= 0;
            vstd::arithmetic::div_mod::lemma_div_pos_is_pos(ps * prop_ratio_bits(p.0), total as int);
        }
        // This slice does not saturate: the fraction is at most one, so the
        // product fits the fixed-point range and the result fits a word.
        assert(bits * remaining <= 0x1_0000_0000 * remaining) by (nonlinear_arith)
            requires 0 <= bits <= 0x1_0000_0000 && remaining >= 0;
        assert(0x1_0000_0000 * (remaining as int) <= 0x1_0000_0000 * (MAX_FIXED_AMOUNT as int))
            by (nonlinear_arith)
            requires remaining <= MAX_FIXED_AMOUNT;
        assert(0x1_0000_0000 * (MAX_FIXED_AMOUNT as int) <= crate::fixed::FIXED_BITS_MAX);
        assert(bits * remaining >= 0) by (nonlinear_arith)
            requires bits >= 0 && remaining >= 0;
        assert(parent_take_at(s, hotkey, netuid, remaining, total, n - 1) == bits * remaining
            / 0x1_0000_0000) by {
            vstd::arithmetic::div_mod::lemma_div_is_ordered(
                bits * remaining,
                0x1_0000_0000 * (remaining as int),
                0x1_0000_0000,
            );
            assert(0x1_0000_0000 * (remaining as int) / 0x1_0000_0000 == remaining)
                by (nonlinear_arith);
            vstd::arithmetic::div_mod::lemma_div_pos_is_pos(bits * remaining, 0x1_0000_0000);
        }
        lemma_share_bits_sum_nonneg(s, hotkey, netuid, total, n - 1);
        assert(parent_share_bits_sum(s, hotkey, netuid, total, n - 1) * remaining >= 0)
            by (nonlinear_arith)
            requires parent_share_bits_sum(s, hotkey, netuid, total, n - 1) >= 0 && remaining >= 0;
        crate::fixed::lemma_div_sum(
            parent_share_bits_sum(s, hotkey, netuid, total, n - 1) * remaining,
            bits * remaining,
            0x1_0000_0000,
        );
        assert(parent_share_bits_sum(s, hotkey, netuid, total, n - 1) * remaining + bits
            * remaining == parent_share_bits_sum(s, hotkey, netuid, total, n) * remaining)
            by (nonlinear_arith)
            requires parent_share_bits_sum(s, hotkey, netuid, total, n)
                == parent_share_bits_sum(s, hotkey, netuid, total, n - 1) + bits;
    }
}

/// Law: the graph distributor conserves the reward. When the parents'
/// declared share fractions of the hotkey's aggregate stake cover at most
/// the whole, the parents' slices fit in the reward net of the take, the
/// leftover is exactly the net reward minus those slices, and the slices
/// plus the hotkey's take and leftover are exactly the emission. Each
/// parent receives the floor of its exact fractional slice, so the dust is
/// below one unit per parent and stays with the hotkey.
pub proof fn lemma_accumulate_conserves_emission(s: Pallet, hotkey: u64, netuid: u16, emission: u64)
    requires
        emission <= MAX_FIXED_AMOUNT,
        spec_stake_with_cp(s, hotkey, netuid) != 0,
        parent_share_bits_sum(
            s,
            hotkey,
            netuid,
            spec_stake_with_cp(s, hotkey, netuid) as u64,
            edges_of(s.parent_keys@, hotkey, netuid).len() as int,
        ) <= 0x1_0000_0000,
    ensures
        ({
            let emt = spec_remaining_emission(s, hotkey, emission);
            let total = spec_stake_with_cp(s, hotkey, netuid) as u64;
            let len = edges_of(s.parent_keys@, hotkey, netuid).len() as int;
            let handed = parent_takes_sum(s, hotkey, netuid, emt, total, len);
            &&& handed <= emt
            &&& handed + (emt - handed) + spec_hotkey_take(
                take_rate_of(s.hotkeys@, hotkey),
                emission,
            ) == emission
        }),
{
    let emt = spec_remaining_emission(s, hotkey, emission);
    let total = spec_stake_with_cp(s, hotkey, netuid) as u64;
    let len = edges_of(s.parent_keys@, hotkey, netuid).len() as int;
    lemma_stake_with_cp_range(s, hotkey, netuid);
    assert(total > 0);
    lemma_hotkey_take_le(take_rate_of(s.hotkeys@, hotkey), emission);
    assert(emt <= MAX_FIXED_AMOUNT);
    assert forall|k: int| 0 <= k < len implies ({
        let p = #[trigger] edges_of(s.parent_keys@, hotkey, netuid)[k];
        crate::fixed::parent_share_bits(total_stake_sat(s.stakes@, p.1) as u64, p.0, total)
            <= 0x1_0000_0000
    }) by {
        lemma_share_bits_le_sum(s, hotkey, netuid, total, k, len);
    }
    lemma_parent_takes_le(s, hotkey, netuid, emt, total, len);
    let bitsum = parent_share_bits_sum(s, hotkey, netuid, total, len);
    lemma_share_bits_sum_nonneg(s, hotkey, netuid, total, len);
    assert(bitsum * emt <= 0x1_0000_0000 * (emt as int)) by (nonlinear_arith)
        requires 0 <= bitsum <= 0x1_0000_0000 && emt >= 0;
    vstd::arithmetic::div_mod::lemma_div_is_ordered(
        bitsum * emt,
        0x1_0000_0000 * (emt as int),
        0x1_0000_0000,
    );
    assert(0x1_0000_0000 * (emt as int) / 0x1_0000_0000 == emt) by (nonlinear_arith);
}

/// Law: a nominator that manually added stake after the previous drain
/// receives nothing from this one.
pub proof fn lemma_manual_add_withholds(
    stakes: Seq<crate::state::StakeEntry>,
    hotkey: u64,
    remaining: u64,
    total: u64,
    prev_drain: u64,
    i: int,
)
    requires
        0 <= i < stakes.len(),
        stakes[i].last_add_block > prev_drain,
    ensures
        drain_share_at(stakes, hotkey, remaining, total, prev_drain, i) == 0,
{
}

/// Under the fixed-point range the nominator shares stay within the net
/// reward: their running sum never exceeds the net reward scaled by the
/// covered stake.
pub proof fn lemma_drain_shares_le(
    stakes: Seq<crate::state::StakeEntry>,
    hotkey: u64,
    remaining: u64,
    total: u64,
    prev_drain: u64,
    n: int,
)
    requires
        total > 0,
        0 <= n <= stakes.len(),
        forall|i: int|
            0 <= i < stakes.len() && (#[trigger] stakes[i]).hotkey == hotkey ==> remaining
                * stakes[i].amount <= MAX_FIXED_AMOUNT,
    ensures
        drain_shares_sum(stakes, hotkey, remaining, total, prev_drain, n) <= remaining
            * crate::state::stake_sum_prefix(stakes, hotkey, n) / (total as int),
    decreases n,
{
    if n > 0 {
        lemma_drain_shares_le(stakes, hotkey, remaining, total, prev_drain, n - 1);
        let sp0 = crate::state::stake_sum_prefix(stakes, hotkey, n - 1);
        let sp1 = crate::state::stake_sum_prefix(stakes, hotkey, n);
        crate::state::lemma_stake_sum_nonneg(stakes, hotkey, n - 1);
        let e = stakes[n - 1];
        if e.hotkey == hotkey {
            assert(remaining * e.amount >= 0) by (nonlinear_arith)
                requires remaining >= 0 && e.amount >= 0;
            assert(remaining * sp0 >= 0) by (nonlinear_arith)
                requires remaining >= 0 && sp0 >= 0;
            assert(remaining * sp0 + remaining * e.amount == remaining * sp1)
                by (nonlinear_arith)
                requires sp1 == sp0 + e.amount;
            crate::fixed::lemma_div_sum(remaining * sp0, remaining * e.amount, total as int);
            if e.last_add_block <= prev_drain {
                assert(drain_share_at(stakes, hotkey, remaining, total, prev_drain, n - 1)
                    == remaining * e.amount / (total as int));
            } else {
                vstd::arithmetic::div_mod::lemma_div_pos_is_pos(
                    remaining * e.amount,
                    total as int,
                );
            }
        } else {
            assert(sp1 == sp0);
        }
    }
}

/// Law: a drain conserves the emission. When the hotkey's total stake and
/// the per-nominator products stay within the fixed-point range, the
/// nominator shares fit in the reward net of the take, the remainder is
/// exactly the net reward minus those shares, and the shares plus the
/// hotkey's final credit are exactly the emission; the truncation dust is
/// below one unit per nominator and lands in the hotkey's credit.
pub proof fn lemma_drain_conserves_emission(s: Pallet, hotkey: u64, emission: u64)
    requires
        emission <= MAX_FIXED_AMOUNT,
        spec_drain_total(s, hotkey) != 0,
        spec_total_stake(s.stakes@, hotkey) <= MAX_FIXED_AMOUNT,
        forall|i: int|
            0 <= i < s.stakes@.len() && (#[trigger] s.stakes@[i]).hotkey == hotkey ==> emission
                * s.stakes@[i].amount <= MAX_FIXED_AMOUNT,
    ensures
        ({
            let emt = spec_drain_net(s, hotkey, emission);
            let total = spec_drain_total(s, hotkey);
            let prev = last_drain_of(s.hotkeys@, hotkey);
            let handed = drain_shares_sum(
                s.stakes@,
                hotkey,
                emt,
                total,
                prev,
                s.stakes@.len() as int,
            );
            &&& handed <= emt
            &&& spec_drain_remainder(s, hotkey, emission) == emt - handed
            &&& handed + spec_drain_final_credit(s, hotkey, emission) == emission
        }),
{
    let emt = spec_drain_net(s, hotkey, emission);
    let total = spec_drain_total(s, hotkey);
    let prev = last_drain_of(s.hotkeys@, hotkey);
    let n = s.stakes@.len() as int;
    lemma_hotkey_take_le(take_rate_of(s.hotkeys@, hotkey), emission);
    assert(emt <= emission);
    assert forall|i: int| 0 <= i < s.stakes@.len() && (#[trigger] s.stakes@[i]).hotkey == hotkey
        implies emt * s.stakes@[i].amount <= MAX_FIXED_AMOUNT by {
        assert(emt * s.stakes@[i].amount <= emission * s.stakes@[i].amount) by (nonlinear_arith)
            requires 0 <= emt <= emission && s.stakes@[i].amount >= 0;
    }
    lemma_drain_shares_le(s.stakes@, hotkey, emt, total, prev, n);
    let covered = crate::state::stake_sum_prefix(s.stakes@, hotkey, n);
    assert(covered == spec_total_stake(s.stakes@, hotkey));
    crate::state::lemma_stake_sum_nonneg(s.stakes@, hotkey, n);
    assert(total == covered);
    assert(emt * covered / (total as int) == emt) by {
        assert(emt * covered == (total as int) * emt) by (nonlinear_arith)
            requires covered == total;
        assert((total as int) * emt / (total as int) == emt) by (nonlinear_arith)
            requires total > 0;
    }
}

/// Drain-share partial sums are never negative.
pub proof fn lemma_drain_shares_nonneg(
    stakes: Seq<crate::state::StakeEntry>,
    hotkey: u64,
    remaining: u64,
    total: u64,
    prev_drain: u64,
    n: int,
)
    ensures
        drain_shares_sum(stakes, hotkey, remaining, total, prev_drain, n) >= 0,
    decreases n,
{
    if n > 0 {
        lemma_drain_shares_nonneg(stakes, hotkey, remaining, total, prev_drain, n - 1);
    }
}

/// One entry's drain share never exceeds a sum it contributes to.
pub proof fn lemma_drain_share_le_sum(
    stakes: Seq<crate::state::StakeEntry>,
    hotkey: u64,
    remaining: u64,
    total: u64,
    prev_drain: u64,
    j: int,
    n: int,
)
    requires
        0 <= j < n,
    ensures
        drain_share_at(stakes, hotkey, remaining, total, prev_drain, j) <= drain_shares_sum(
            stakes,
            hotkey,
            remaining,
            total,
            prev_drain,
            n,
        ),
    decreases n,
{
    if j == n - 1 {
        lemma_drain_shares_nonneg(stakes, hotkey, remaining, total, prev_drain, n - 1);
    } else {
        lemma_drain_share_le_sum(stakes, hotkey, remaining, total, prev_drain, j, n - 1);
    }
}

/// Sum of what a drain adds to the first `n` ledger entries.
pub open spec fn drain_incs_sum(s: Pallet, hotkey: u64, emission: u64, n: int) -> int
    decreases n,
{
    if n <= 0 {
        0
    } else {
        drain_incs_sum(s, hotkey, emission, n - 1) + spec_drain_stake_inc(
            s,
            hotkey,
            emission,
            n - 1,
        )
    }
}

/// The owner's position on the hotkey sits among the first `n` entries.
pub open spec fn owner_pos_in_prefix(s: Pallet, hotkey: u64, n: int) -> bool {
    exists|j: int|
        0 <= j < n && (#[trigger] s.stakes@[j]).coldkey == spec_owner_of(s, hotkey)
            && s.stakes@[j].hotkey == hotkey
}

/// The drain increments are the nominator shares, plus the hotkey's final
/// credit on the owner's position where one exists.
pub proof fn lemma_incs_split(s: Pallet, hotkey: u64, emission: u64, n: int)
    requires
        s.wf(),
        0 <= n <= s.stakes@.len(),
        spec_drain_total(s, hotkey) != 0,
    ensures
        drain_incs_sum(s, hotkey, emission, n) == drain_shares_sum(
            s.stakes@,
            hotkey,
            spec_drain_net(s, hotkey, emission),
            spec_drain_total(s, hotkey),
            last_drain_of(s.hotkeys@, hotkey),
            n,
        ) + if owner_pos_in_prefix(s, hotkey, n) {
            spec_drain_final_credit(s, hotkey, emission)
        } else {
            0
        },
    decreases n,
{
    if n > 0 {
        lemma_incs_split(s, hotkey, emission, n - 1);
        let e = s.stakes@[n - 1];
        let owner = spec_owner_of(s, hotkey);
        if e.coldkey == owner && e.hotkey == hotkey {
            assert(owner_pos_in_prefix(s, hotkey, n));
            if owner_pos_in_prefix(s, hotkey, n - 1) {
                let w = choose|j: int|
                    0 <= j < n - 1 && (#[trigger] s.stakes@[j]).coldkey == owner
                        && s.stakes@[j].hotkey == hotkey;
                assert(false);
            }
        } else {
            assert(owner_pos_in_prefix(s, hotkey, n) == owner_pos_in_prefix(s, hotkey, n - 1)) by {
                if owner_pos_in_prefix(s, hotkey, n) {
                    let w = choose|j: int|
                        0 <= j < n && (#[trigger] s.stakes@[j]).coldkey == owner
                            && s.stakes@[j].hotkey == hotkey;
                    assert(w < n - 1);
                    assert(owner_pos_in_prefix(s, hotkey, n - 1));
                }
            }
        }
    }
}

/// The filtered stake sums of a ledger whose entries each grew by the
/// drain increment grow by exactly the summed increments; increments land
/// only on the hotkey's entries.
pub proof fn lemma_stake_sum_with_incs(
    s: Pallet,
    grown: Seq<crate::state::StakeEntry>,
    hotkey: u64,
    emission: u64,
    n: int,
)
    requires
        0 <= n <= s.stakes@.len(),
        n <= grown.len(),
        forall|j: int|
            0 <= j < n ==> (#[trigger] grown[j]).hotkey == s.stakes@[j].hotkey && grown[j].amount
                == s.stakes@[j].amount + spec_drain_stake_inc(s, hotkey, emission, j),
    ensures
        crate::state::stake_sum_prefix(grown, hotkey, n) == crate::state::stake_sum_prefix(
            s.stakes@,
            hotkey,
            n,
        ) + drain_incs_sum(s, hotkey, emission, n),
    decreases n,
{
    if n > 0 {
        lemma_stake_sum_with_incs(s, grown, hotkey, emission, n - 1);
        let e = s.stakes@[n - 1];
        if e.hotkey != hotkey {
            assert(spec_drain_stake_inc(s, hotkey, emission, n - 1) == 0);
        }
    }
}

/// Law: a drain settles exactly the drained emission into the hotkey's
/// total stake: the nominators' shares plus the hotkey's take and leftover,
/// landing on the owner's position, add up to the emission and to nothing
/// else, whenever the amounts stay within the fixed-point range.
pub proof fn lemma_drain_adds_emission_to_total(
    s0: Pallet,
    s1: Pallet,
    hotkey: u64,
    emission: u64,
)
    requires
        s0.wf(),
        emission <= MAX_FIXED_AMOUNT,
        spec_drain_total(s0, hotkey) != 0,
        spec_total_stake(s0.stakes@, hotkey) <= MAX_FIXED_AMOUNT,
        spec_total_stake(s0.stakes@, hotkey) + emission <= u64::MAX,
        forall|i: int|
            0 <= i < s0.stakes@.len() && (#[trigger] s0.stakes@[i]).hotkey == hotkey ==> emission
                * s0.stakes@[i].amount <= MAX_FIXED_AMOUNT,
        forall|i: int|
            0 <= i < s0.stakes@.len() ==> {
                let e0 = s0.stakes@[i];
                let e1 = #[trigger] s1.stakes@[i];
                &&& e1.coldkey == e0.coldkey
                &&& e1.hotkey == e0.hotkey
                &&& e1.amount == if e0.amount + spec_drain_stake_inc(s0, hotkey, emission, i)
                    <= u64::MAX {
                    (e0.amount + spec_drain_stake_inc(s0, hotkey, emission, i)) as u64
                } else {
                    u64::MAX
                }
            },
        crate::state::has_stake_entry(s0.stakes@, spec_owner_of(s0, hotkey), hotkey)
            ==> s1.stakes@.len() == s0.stakes@.len(),
        !crate::state::has_stake_entry(s0.stakes@, spec_owner_of(s0, hotkey), hotkey)
            ==> s1.stakes@.len() == s0.stakes@.len() + 1 && ({
            let e = s1.stakes@[s0.stakes@.len() as int];
            &&& e.coldkey == spec_owner_of(s0, hotkey)
            &&& e.hotkey == hotkey
            &&& e.amount == if spec_drain_final_credit(s0, hotkey, emission) <= u64::MAX {
                spec_drain_final_credit(s0, hotkey, emission) as u64
            } else {
                u64::MAX
            }
        }),
    ensures
        spec_total_stake(s1.stakes@, hotkey) == spec_total_stake(s0.stakes@, hotkey) + emission,
{
    let emt = spec_drain_net(s0, hotkey, emission);
    let total = spec_drain_total(s0, hotkey);
    let prev = last_drain_of(s0.hotkeys@, hotkey);
    let n = s0.stakes@.len() as int;
    let owner = spec_owner_of(s0, hotkey);
    let fc = spec_drain_final_credit(s0, hotkey, emission);
    lemma_drain_conserves_emission(s0, hotkey, emission);
    let handed = drain_shares_sum(s0.stakes@, hotkey, emt, total, prev, n);
    assert(handed + fc == emission);
    lemma_incs_split(s0, hotkey, emission, n);
    // No per-entry saturation: each increment is within the emission and
    // each amount within the total.
    assert(fc >= 0) by {
        lemma_hotkey_take_le(take_rate_of(s0.hotkeys@, hotkey), emission);
    }
    assert forall|i: int| 0 <= i < n implies s1.stakes@[i].amount == s0.stakes@[i].amount
        + spec_drain_stake_inc(s0, hotkey, emission, i) by {
        let e0 = s0.stakes@[i];
        let inc = spec_drain_stake_inc(s0, hotkey, emission, i);
        if e0.hotkey == hotkey {
            crate::state::lemma_stake_entry_le_sum(s0.stakes@, hotkey, i, n);
            lemma_drain_share_le_sum(s0.stakes@, hotkey, emt, total, prev, i, n);
            lemma_drain_shares_nonneg(s0.stakes@, hotkey, emt, total, prev, i);
            assert(inc <= handed + fc);
        } else {
            assert(inc == 0);
        }
    }
    lemma_stake_sum_with_incs(s0, s1.stakes@, hotkey, emission, n);
    lemma_incs_split(s0, hotkey, emission, n);
    assert(owner_pos_in_prefix(s0, hotkey, n) == crate::state::has_stake_entry(
        s0.stakes@,
        owner,
        hotkey,
    )) by {
        if owner_pos_in_prefix(s0, hotkey, n) {
            let w = choose|j: int|
                0 <= j < n && (#[trigger] s0.stakes@[j]).coldkey == owner && s0.stakes@[j].hotkey
                    == hotkey;
            assert(crate::state::has_stake_entry(s0.stakes@, owner, hotkey));
        }
        if crate::state::has_stake_entry(s0.stakes@, owner, hotkey) {
            let w = crate::state::stake_index(s0.stakes@, owner, hotkey);
            assert(0 <= w < n && s0.stakes@[w].coldkey == owner && s0.stakes@[w].hotkey == hotkey);
            assert(owner_pos_in_prefix(s0, hotkey, n));
        }
    }
    if crate::state::has_stake_entry(s0.stakes@, owner, hotkey) {
        assert(spec_total_stake(s1.stakes@, hotkey) == crate::state::stake_sum_prefix(
            s1.stakes@,
            hotkey,
            n,
        ));
    } else {
        lemma_drain_shares_nonneg(s0.stakes@, hotkey, emt, total, prev, n);
        assert(fc <= emission);
        assert(s1.stakes@[n].amount == fc);
        assert(s1.stakes@[n].hotkey == hotkey);
        assert(spec_total_stake(s1.stakes@, hotkey) == crate::state::stake_sum_prefix(
            s1.stakes@,
            hotkey,
            n + 1,
        ));
        assert(crate::state::stake_sum_prefix(s1.stakes@, hotkey, n + 1)
            == crate::state::stake_sum_prefix(s1.stakes@, hotkey, n) + fc);
    }
}
} // verus!
