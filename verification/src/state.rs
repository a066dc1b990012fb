//! The owned state store of the settlement engine: subnets, hotkeys, the
//! nominator stake ledger, the delegation edge tables, and the global
//! counters and configuration knobs. All mutation goes through the store's
//! methods, so the per-block transition's contracts speak of one value.

use vstd::prelude::*;

verus! {

/// One subnet: its epoch period, its banked emission, and its AMM reserves.
pub struct Subnet {
    /// Identifier of the subnet; the root subnet is netuid 0.
    pub netuid: u16,
    /// Epoch period: the subnet runs its epoch once per `tempo + 1` blocks;
    /// a zero tempo never runs.
    pub tempo: u16,
    /// Per-block allocation recorded by the root allocator.
    pub emission_value: u64,
    /// Banked emission awaiting the next epoch.
    pub pending_emission: u64,
    /// Whether the subnet participates in reserve mechanics; a static
    /// subnet reports a fixed price of one and is excluded.
    pub dynamic: bool,
    /// TAO side of the constant-product pool.
    pub tao_reserve: u64,
    /// Alpha side of the constant-product pool.
    pub alpha_reserve: u64,
    /// The constant product; unchanged by swaps, raised by emission
    /// injection.
    pub k: u128,
}

/// One hotkey record; its position in the store is its stable drain index.
pub struct Hotkey {
    /// Account id of the hotkey.
    pub account: u64,
    /// Fraction of `u16::MAX` the hotkey keeps off the top of emission.
    pub take: u16,
    /// Banked reward awaiting the hotkey's drain cycle.
    pub pending_emission: u64,
    /// Block at which this hotkey was last drained.
    pub last_drain_block: u64,
}

/// One nominator position: stake by a coldkey on a hotkey.
pub struct StakeEntry {
    /// The nominating coldkey.
    pub coldkey: u64,
    /// The hotkey staked on.
    pub hotkey: u64,
    /// The staked amount.
    pub amount: u64,
    /// Block of the last manual stake increase; used to withhold a drain
    /// cycle's reward after manual additions.
    pub last_add_block: u64,
}

/// The delegation edges declared for one hotkey on one subnet: a list of
/// `(proportion, account)` pairs, proportions being fractions of `u64::MAX`.
pub struct EdgeList {
    /// The hotkey the list belongs to.
    pub hotkey: u64,
    /// The subnet the edges live on.
    pub netuid: u16,
    /// The `(proportion, account)` pairs.
    pub edges: Vec<(u64, u64)>,
}

/// Ownership of a hotkey by a coldkey.
pub struct OwnerEntry {
    /// The owned hotkey.
    pub hotkey: u64,
    /// The owning coldkey.
    pub coldkey: u64,
}

/// The whole settlement state.
pub struct Pallet {
    /// Subnets in strictly ascending netuid order.
    pub subnets: Vec<Subnet>,
    /// Hotkey records in insertion order; the position of a record is the
    /// hotkey's drain-schedule index.
    pub hotkeys: Vec<Hotkey>,
    /// Nominator stake ledger, one entry per `(coldkey, hotkey)` pair.
    pub stakes: Vec<StakeEntry>,
    /// Child lists, one entry per `(hotkey, netuid)` pair.
    pub child_keys: Vec<EdgeList>,
    /// Parent lists, one entry per `(hotkey, netuid)` pair.
    pub parent_keys: Vec<EdgeList>,
    /// Hotkey ownership, one entry per hotkey.
    pub owners: Vec<OwnerEntry>,
    /// Blocks at which each hotkey last changed its children, for the rate
    /// limit; one entry per hotkey that ever did.
    pub last_children_block: Vec<(u64, u64)>,
    /// Total issuance counter, raised as drained emission settles.
    pub total_issuance: u64,
    /// The hotkey drain period; a hotkey index drains once per this many
    /// blocks.
    pub hotkey_emission_tempo: u64,
    /// Minimum number of blocks between child-list changes per hotkey;
    /// zero disables the limit.
    pub tx_rate_limit: u64,
    /// Floor of the registration lock cost.
    pub network_min_lock: u64,
    /// The lock amount paid at the most recent registration.
    pub network_last_lock: u64,
    /// Block of the most recent registration.
    pub network_last_lock_block: u64,
    /// Blocks over which the lock cost decays back by one last-lock unit.
    pub lock_reduction_interval: u64,
}

/// There is a subnet with this netuid.
pub open spec fn has_subnet(s: Seq<Subnet>, netuid: u16) -> bool {
    exists|i: int| 0 <= i < s.len() && s[i].netuid == netuid
}

/// The index of the subnet with this netuid, meaningful when `has_subnet`.
pub open spec fn subnet_index(s: Seq<Subnet>, netuid: u16) -> int {
    choose|i: int| 0 <= i < s.len() && s[i].netuid == netuid
}

/// The subnet stored under this netuid, meaningful when `has_subnet`.
pub open spec fn subnet_at(s: Seq<Subnet>, netuid: u16) -> Subnet {
    s[subnet_index(s, netuid)]
}

/// Replacing one subnet, keeping its netuid, changes the stored mapping
/// only at that netuid and keeps the order strict.
pub proof fn lemma_subnet_update(s: Seq<Subnet>, p: int, e: Subnet, n: u16)
    requires
        subnets_sorted(s),
        0 <= p < s.len(),
        e.netuid == s[p].netuid,
    ensures
        subnets_sorted(s.update(p, e)),
        has_subnet(s.update(p, e), n) == has_subnet(s, n),
        n == e.netuid ==> has_subnet(s, n) && subnet_at(s.update(p, e), n) == e && subnet_at(
            s,
            n,
        ) == s[p],
        n != e.netuid && has_subnet(s, n) ==> subnet_at(s.update(p, e), n) == subnet_at(s, n),
{
    let s2 = s.update(p, e);
    assert forall|i: int, j: int| 0 <= i < j < s2.len() implies (#[trigger] s2[i]).netuid
        < (#[trigger] s2[j]).netuid by {
        assert(s2[i].netuid == s[i].netuid && s2[j].netuid == s[j].netuid);
    }
    if n == e.netuid {
        assert(s[p].netuid == n);
        assert(has_subnet(s, n));
        let w = subnet_index(s, n);
        assert(0 <= w < s.len() && s[w].netuid == n);
        if w != p {
            if w < p {
                assert(s[w].netuid < s[p].netuid);
            } else {
                assert(s[p].netuid < s[w].netuid);
            }
            assert(false);
        }
        assert(s2[p].netuid == n);
        assert(has_subnet(s2, n));
        let w2 = subnet_index(s2, n);
        assert(0 <= w2 < s2.len() && s2[w2].netuid == n);
        if w2 != p {
            if w2 < p {
                assert(s2[w2].netuid < s2[p].netuid);
            } else {
                assert(s2[p].netuid < s2[w2].netuid);
            }
            assert(false);
        }
    } else {
        if has_subnet(s, n) {
            let w = subnet_index(s, n);
            assert(0 <= w < s.len() && s[w].netuid == n);
            assert(w != p);
            assert(s2[w].netuid == n);
            assert(has_subnet(s2, n));
            let w2 = subnet_index(s2, n);
            assert(0 <= w2 < s2.len() && s2[w2].netuid == n);
            assert(w2 != p);
            assert(s[w2].netuid == n);
            if w2 != w {
                if w2 < w {
                    assert(s[w2].netuid < s[w].netuid);
                } else {
                    assert(s[w].netuid < s[w2].netuid);
                }
                assert(false);
            }
        } else {
            if has_subnet(s2, n) {
                let w2 = subnet_index(s2, n);
                assert(0 <= w2 < s2.len() && s2[w2].netuid == n);
                assert(w2 != p);
                assert(s[w2].netuid == n);
                assert(false);
            }
        }
    }
}

/// Appending a subnet with a netuid above all stored ones adds exactly that
/// netuid to the stored mapping and keeps the order strict.
pub proof fn lemma_subnet_push(s: Seq<Subnet>, e: Subnet, n: u16)
    requires
        subnets_sorted(s),
        forall|i: int| 0 <= i < s.len() ==> (#[trigger] s[i]).netuid < e.netuid,
    ensures
        subnets_sorted(s.push(e)),
        has_subnet(s.push(e), n) == (has_subnet(s, n) || n == e.netuid),
        n == e.netuid ==> subnet_at(s.push(e), n) == e,
        n != e.netuid && has_subnet(s, n) ==> subnet_at(s.push(e), n) == subnet_at(s, n),
{
    let s2 = s.push(e);
    let last = s.len() as int;
    assert forall|i: int, j: int| 0 <= i < j < s2.len() implies (#[trigger] s2[i]).netuid
        < (#[trigger] s2[j]).netuid by {
        if j == last {
            assert(s2[i] == s[i]);
        } else {
            assert(s2[i] == s[i] && s2[j] == s[j]);
        }
    }
    if n == e.netuid {
        assert(s2[last].netuid == n);
        assert(has_subnet(s2, n));
        let w2 = subnet_index(s2, n);
        assert(0 <= w2 < s2.len() && s2[w2].netuid == n);
        if w2 != last {
            assert(s[w2].netuid == n);
            assert(s[w2].netuid < e.netuid);
            assert(false);
        }
    } else {
        if has_subnet(s, n) {
            let w = subnet_index(s, n);
            assert(0 <= w < s.len() && s[w].netuid == n);
            assert(s2[w].netuid == n);
            assert(has_subnet(s2, n));
            let w2 = subnet_index(s2, n);
            assert(0 <= w2 < s2.len() && s2[w2].netuid == n);
            assert(w2 != last);
            assert(s[w2].netuid == n);
            if w2 != w {
                if w2 < w {
                    assert(s[w2].netuid < s[w].netuid);
                } else {
                    assert(s[w].netuid < s[w2].netuid);
                }
                assert(false);
            }
        } else {
            if has_subnet(s2, n) {
                let w2 = subnet_index(s2, n);
                assert(0 <= w2 < s2.len() && s2[w2].netuid == n);
                assert(w2 != last);
                assert(s[w2].netuid == n);
                assert(false);
            }
        }
    }
}

/// There is a hotkey record for this account.
pub open spec fn has_hotkey(s: Seq<Hotkey>, account: u64) -> bool {
    exists|i: int| 0 <= i < s.len() && s[i].account == account
}

/// The index of the hotkey record for this account, meaningful when
/// `has_hotkey`; the index is also the account's drain-schedule position.
pub open spec fn hotkey_index(s: Seq<Hotkey>, account: u64) -> int {
    choose|i: int| 0 <= i < s.len() && s[i].account == account
}

/// There is a stake entry for this pair.
pub open spec fn has_stake_entry(s: Seq<StakeEntry>, coldkey: u64, hotkey: u64) -> bool {
    exists|i: int| 0 <= i < s.len() && s[i].coldkey == coldkey && s[i].hotkey == hotkey
}

/// The index of the stake entry for this pair, meaningful when
/// `has_stake_entry`.
pub open spec fn stake_index(s: Seq<StakeEntry>, coldkey: u64, hotkey: u64) -> int {
    choose|i: int| 0 <= i < s.len() && s[i].coldkey == coldkey && s[i].hotkey == hotkey
}

/// There is an edge list for this `(hotkey, netuid)` pair.
pub open spec fn has_edges(s: Seq<EdgeList>, hotkey: u64, netuid: u16) -> bool {
    exists|i: int| 0 <= i < s.len() && s[i].hotkey == hotkey && s[i].netuid == netuid
}

/// The index of the edge list for this pair, meaningful when `has_edges`.
pub open spec fn edges_index(s: Seq<EdgeList>, hotkey: u64, netuid: u16) -> int {
    choose|i: int| 0 <= i < s.len() && s[i].hotkey == hotkey && s[i].netuid == netuid
}

/// The edges declared for this pair: the stored list, or empty when none
/// was ever stored.
pub open spec fn edges_of(s: Seq<EdgeList>, hotkey: u64, netuid: u16) -> Seq<(u64, u64)> {
    if has_edges(s, hotkey, netuid) {
        s[edges_index(s, hotkey, netuid)].edges@
    } else {
        Seq::empty()
    }
}

/// Sum of all stake lodged on `hotkey` across the first `n` ledger entries.
pub open spec fn stake_sum_prefix(s: Seq<StakeEntry>, hotkey: u64, n: int) -> int
    decreases n,
{
    if n <= 0 {
        0
    } else {
        stake_sum_prefix(s, hotkey, n - 1)
            + if s[n - 1].hotkey == hotkey {
                s[n - 1].amount as int
            } else {
                0
            }
    }
}

/// Total stake lodged on `hotkey`: the sum of all its nominator stakes.
pub open spec fn spec_total_stake(s: Seq<StakeEntry>, hotkey: u64) -> int {
    stake_sum_prefix(s, hotkey, s.len() as int)
}

/// Partial stake sums are never negative.
pub proof fn lemma_stake_sum_nonneg(s: Seq<StakeEntry>, hotkey: u64, n: int)
    ensures
        stake_sum_prefix(s, hotkey, n) >= 0,
    decreases n,
{
    if n > 0 {
        lemma_stake_sum_nonneg(s, hotkey, n - 1);
    }
}

/// A ledger whose entries grew pointwise carries at least the old sums.
pub proof fn lemma_stake_sum_pointwise_le(
    s1: Seq<StakeEntry>,
    s2: Seq<StakeEntry>,
    hotkey: u64,
    n: int,
)
    requires
        n <= s1.len(),
        n <= s2.len(),
        forall|j: int|
            0 <= j < n ==> (#[trigger] s2[j]).hotkey == s1[j].hotkey && s2[j].amount
                >= s1[j].amount,
    ensures
        stake_sum_prefix(s1, hotkey, n) <= stake_sum_prefix(s2, hotkey, n),
    decreases n,
{
    if n > 0 {
        lemma_stake_sum_pointwise_le(s1, s2, hotkey, n - 1);
    }
}

/// A longer prefix carries at least the shorter one's sum.
pub proof fn lemma_stake_sum_prefix_mono(s: Seq<StakeEntry>, hotkey: u64, n: int, m: int)
    requires
        0 <= n <= m,
    ensures
        stake_sum_prefix(s, hotkey, n) <= stake_sum_prefix(s, hotkey, m),
    decreases m,
{
    if n < m {
        lemma_stake_sum_prefix_mono(s, hotkey, n, m - 1);
    }
}

/// One entry's stake never exceeds the sum it contributes to.
pub proof fn lemma_stake_entry_le_sum(s: Seq<StakeEntry>, hotkey: u64, j: int, n: int)
    requires
        0 <= j < n <= s.len(),
        s[j].hotkey == hotkey,
    ensures
        s[j].amount <= stake_sum_prefix(s, hotkey, n),
    decreases n,
{
    if j == n - 1 {
        lemma_stake_sum_nonneg(s, hotkey, n - 1);
    } else {
        lemma_stake_entry_le_sum(s, hotkey, j, n - 1);
    }
}

/// Subnets are strictly ascending by netuid, which also makes them unique.
pub open spec fn subnets_sorted(s: Seq<Subnet>) -> bool {
    forall|i: int, j: int|
        0 <= i < j < s.len() ==> (#[trigger] s[i]).netuid < (#[trigger] s[j]).netuid
}

/// Hotkey accounts are unique.
pub open spec fn unique_hotkeys(s: Seq<Hotkey>) -> bool {
    forall|i: int, j: int|
        0 <= i < j < s.len() ==> (#[trigger] s[i]).account != (#[trigger] s[j]).account
}

/// Stake entries are keyed by distinct `(coldkey, hotkey)` pairs.
pub open spec fn unique_stakes(s: Seq<StakeEntry>) -> bool {
    forall|i: int, j: int|
        0 <= i < j < s.len() ==> !((#[trigger] s[i]).coldkey == (#[trigger] s[j]).coldkey
            && s[i].hotkey == s[j].hotkey)
}

/// Edge lists are keyed by distinct `(hotkey, netuid)` pairs.
pub open spec fn unique_edge_keys(s: Seq<EdgeList>) -> bool {
    forall|i: int, j: int|
        0 <= i < j < s.len() ==> !((#[trigger] s[i]).hotkey == (#[trigger] s[j]).hotkey
            && s[i].netuid == s[j].netuid)
}

/// Owner entries are keyed by distinct hotkeys.
pub open spec fn unique_owners(s: Seq<OwnerEntry>) -> bool {
    forall|i: int, j: int|
        0 <= i < j < s.len() ==> (#[trigger] s[i]).hotkey != (#[trigger] s[j]).hotkey
}

/// A `(key, value)` table holds each key once.
pub open spec fn unique_keys(s: Seq<(u64, u64)>) -> bool {
    forall|i: int, j: int| 0 <= i < j < s.len() ==> (#[trigger] s[i]).0 != (#[trigger] s[j]).0
}

impl Pallet {
    /// Keys are unique in every keyed table, and subnets are strictly
    /// ascending: every lookup below is then unambiguous.
    pub open spec fn wf(self) -> bool {
        &&& subnets_sorted(self.subnets@)
        &&& unique_hotkeys(self.hotkeys@)
        &&& unique_stakes(self.stakes@)
        &&& unique_edge_keys(self.child_keys@)
        &&& unique_edge_keys(self.parent_keys@)
        &&& unique_owners(self.owners@)
        &&& unique_keys(self.last_children_block@)
    }

    /// A fresh, empty state with the default configuration: drain period of
    /// 7200 blocks, no rate limit, no lock history.
    pub fn new() -> (s: Pallet)
        ensures
            s.wf(),
            s.subnets@.len() == 0,
            s.hotkeys@.len() == 0,
            s.stakes@.len() == 0,
            s.child_keys@.len() == 0,
            s.parent_keys@.len() == 0,
            s.owners@.len() == 0,
            s.last_children_block@.len() == 0,
            s.total_issuance == 0,
            s.hotkey_emission_tempo == crate::schedule::DRAIN_PERIOD,
            s.tx_rate_limit == 0,
            s.network_min_lock == 0,
            s.network_last_lock == 0,
            s.network_last_lock_block == 0,
            s.lock_reduction_interval == 0,
    {
        Pallet {
            subnets: Vec::new(),
            hotkeys: Vec::new(),
            stakes: Vec::new(),
            child_keys: Vec::new(),
            parent_keys: Vec::new(),
            owners: Vec::new(),
            last_children_block: Vec::new(),
            total_issuance: 0,
            hotkey_emission_tempo: crate::schedule::DRAIN_PERIOD,
            tx_rate_limit: 0,
            network_min_lock: 0,
            network_last_lock: 0,
            network_last_lock_block: 0,
            lock_reduction_interval: 0,
        }
    }

    /// Position of the subnet with this netuid, if any.
    pub fn find_subnet(&self, netuid: u16) -> (r: Option<usize>)
        requires
            self.wf(),
        ensures
            r is Some ==> {
                &&& (r->Some_0 as int) < self.subnets@.len()
                &&& self.subnets@[r->Some_0 as int].netuid == netuid
                &&& has_subnet(self.subnets@, netuid)
                &&& r->Some_0 as int == subnet_index(self.subnets@, netuid)
            },
            r is None ==> !has_subnet(self.subnets@, netuid),
    {
        let mut i: usize = 0;
        while i < self.subnets.len()
            invariant
                self.wf(),
                i <= self.subnets@.len(),
                forall|j: int| 0 <= j < i ==> (#[trigger] self.subnets@[j]).netuid != netuid,
            decreases self.subnets@.len() - i,
        {
            if self.subnets[i].netuid == netuid {
                proof {
                    let w = subnet_index(self.subnets@, netuid);
                    assert(0 <= w < self.subnets@.len() && self.subnets@[w].netuid == netuid);
                }
                return Some(i);
            }
            i = i + 1;
        }
        None
    }

    /// Position of the hotkey record for this account, if any; the position
    /// is the account's drain-schedule index.
    pub fn find_hotkey(&self, account: u64) -> (r: Option<usize>)
        requires
            self.wf(),
        ensures
            r is Some ==> {
                &&& (r->Some_0 as int) < self.hotkeys@.len()
                &&& self.hotkeys@[r->Some_0 as int].account == account
                &&& has_hotkey(self.hotkeys@, account)
                &&& r->Some_0 as int == hotkey_index(self.hotkeys@, account)
            },
            r is None ==> !has_hotkey(self.hotkeys@, account),
    {
        let mut i: usize = 0;
        while i < self.hotkeys.len()
            invariant
                self.wf(),
                i <= self.hotkeys@.len(),
                forall|j: int| 0 <= j < i ==> (#[trigger] self.hotkeys@[j]).account != account,
            decreases self.hotkeys@.len() - i,
        {
            if self.hotkeys[i].account == account {
                proof {
                    let w = hotkey_index(self.hotkeys@, account);
                    assert(0 <= w < self.hotkeys@.len() && self.hotkeys@[w].account == account);
                }
                return Some(i);
            }
            i = i + 1;
        }
        None
    }

    /// Position of the stake entry for this pair, if any.
    pub fn find_stake(&self, coldkey: u64, hotkey: u64) -> (r: Option<usize>)
        requires
            self.wf(),
        ensures
            r is Some ==> {
                &&& (r->Some_0 as int) < self.stakes@.len()
                &&& self.stakes@[r->Some_0 as int].coldkey == coldkey
                &&& self.stakes@[r->Some_0 as int].hotkey == hotkey
                &&& has_stake_entry(self.stakes@, coldkey, hotkey)
                &&& r->Some_0 as int == stake_index(self.stakes@, coldkey, hotkey)
            },
            r is None ==> !has_stake_entry(self.stakes@, coldkey, hotkey),
    {
        let mut i: usize = 0;
        while i < self.stakes.len()
            invariant
                self.wf(),
                i <= self.stakes@.len(),
                forall|j: int|
                    0 <= j < i ==> !((#[trigger] self.stakes@[j]).coldkey == coldkey
                        && self.stakes@[j].hotkey == hotkey),
            decreases self.stakes@.len() - i,
        {
            if self.stakes[i].coldkey == coldkey && self.stakes[i].hotkey == hotkey {
                proof {
                    let w = stake_index(self.stakes@, coldkey, hotkey);
                    assert(0 <= w < self.stakes@.len() && self.stakes@[w].coldkey == coldkey
                        && self.stakes@[w].hotkey == hotkey);
                }
                return Some(i);
            }
            i = i + 1;
        }
        None
    }

    /// Total stake lodged on `hotkey`, saturated at `u64::MAX`: the sum of
    /// all its nominators' stakes.
    pub fn get_total_stake_for_hotkey(&self, hotkey: u64) -> (r: u64)
        requires
            self.wf(),
        ensures
            r == if spec_total_stake(self.stakes@, hotkey) <= u64::MAX {
                spec_total_stake(self.stakes@, hotkey)
            } else {
                u64::MAX as int
            },
            spec_total_stake(self.stakes@, hotkey) <= u64::MAX
                ==> r == spec_total_stake(self.stakes@, hotkey),
    {
        let mut acc: u64 = 0;
        let mut i: usize = 0;
        while i < self.stakes.len()
            invariant
                self.wf(),
                i <= self.stakes@.len(),
                acc == if stake_sum_prefix(self.stakes@, hotkey, i as int) <= u64::MAX {
                    stake_sum_prefix(self.stakes@, hotkey, i as int)
                } else {
                    u64::MAX as int
                },
                stake_sum_prefix(self.stakes@, hotkey, i as int) >= 0,
            decreases self.stakes@.len() - i,
        {
            if self.stakes[i].hotkey == hotkey {
                acc = acc.saturating_add(self.stakes[i].amount);
            }
            i = i + 1;
        }
        acc
    }

    /// The epoch period of a subnet; zero (never runs) for an unknown one.
    pub fn get_tempo(&self, netuid: u16) -> (r: u16)
        requires
            self.wf(),
        ensures
            r == if has_subnet(self.subnets@, netuid) {
                subnet_at(self.subnets@, netuid).tempo
            } else {
                0
            },
    {
        match self.find_subnet(netuid) {
            Some(i) => self.subnets[i].tempo,
            None => 0,
        }
    }

    /// The banked emission of a subnet; zero for an unknown one.
    pub fn get_pending_emission(&self, netuid: u16) -> (r: u64)
        requires
            self.wf(),
        ensures
            r == if has_subnet(self.subnets@, netuid) {
                subnet_at(self.subnets@, netuid).pending_emission
            } else {
                0
            },
    {
        match self.find_subnet(netuid) {
            Some(i) => self.subnets[i].pending_emission,
            None => 0,
        }
    }

    /// The recorded per-block allocation of a subnet; zero for an unknown
    /// one.
    pub fn get_subnet_emission_value(&self, netuid: u16) -> (r: u64)
        requires
            self.wf(),
        ensures
            r == if has_subnet(self.subnets@, netuid) {
                subnet_at(self.subnets@, netuid).emission_value
            } else {
                0
            },
    {
        match self.find_subnet(netuid) {
            Some(i) => self.subnets[i].emission_value,
            None => 0,
        }
    }

    /// The total issuance counter.
    pub fn get_total_issuance(&self) -> (r: u64)
        ensures
            r == self.total_issuance,
    {
        self.total_issuance
    }

    /// The stake of one `(coldkey, hotkey)` position; zero when none
    /// exists.
    pub fn get_stake(&self, coldkey: u64, hotkey: u64) -> (r: u64)
        requires
            self.wf(),
        ensures
            r == if has_stake_entry(self.stakes@, coldkey, hotkey) {
                self.stakes@[stake_index(self.stakes@, coldkey, hotkey)].amount
            } else {
                0u64
            },
    {
        match self.find_stake(coldkey, hotkey) {
            Some(i) => self.stakes[i].amount,
            None => 0,
        }
    }

    /// Creates a static subnet with the given tempo; fails, changing
    /// nothing, when the netuid does not sit above every stored subnet.
    pub fn add_network(&mut self, netuid: u16, tempo: u16) -> (r: bool)
        requires
            old(self).wf(),
        ensures
            final(self).wf(),
            r == (old(self).subnets@.len() == 0 || old(self).subnets@[old(self).subnets@.len()
                - 1].netuid < netuid),
            !r ==> *final(self) == *old(self),
            r ==> *final(self) == (Pallet {
                subnets: final(self).subnets,
                ..*old(self)
            }) && final(self).subnets@ == old(self).subnets@.push(
                Subnet {
                    netuid,
                    tempo,
                    emission_value: 0u64,
                    pending_emission: 0u64,
                    dynamic: false,
                    tao_reserve: 0u64,
                    alpha_reserve: 0u64,
                    k: 0u128,
                },
            ),
    {
        if self.subnets.len() > 0 && self.subnets[self.subnets.len() - 1].netuid >= netuid {
            return false;
        }
        proof {
            assert forall|i: int| 0 <= i < self.subnets@.len()
                implies (#[trigger] self.subnets@[i]).netuid < netuid by {
                if i < self.subnets@.len() - 1 {
                    assert(self.subnets@[i].netuid < self.subnets@[self.subnets@.len() - 1].netuid);
                }
            }
        }
        self.subnets.push(
            Subnet {
                netuid,
                tempo,
                emission_value: 0,
                pending_emission: 0,
                dynamic: false,
                tao_reserve: 0,
                alpha_reserve: 0,
                k: 0,
            },
        );
        true
    }

    /// Records a per-block allocation for a subnet; fails on an unknown
    /// one.
    pub fn set_emission_value(&mut self, netuid: u16, value: u64) -> (r: bool)
        requires
            old(self).wf(),
        ensures
            final(self).wf(),
            r == has_subnet(old(self).subnets@, netuid),
            !r ==> *final(self) == *old(self),
            r ==> *final(self) == (Pallet {
                subnets: final(self).subnets,
                ..*old(self)
            }),
            r ==> forall|n: u16|
                #[trigger] has_subnet(final(self).subnets@, n) == has_subnet(
                    old(self).subnets@,
                    n,
                ),
            r ==> subnet_at(final(self).subnets@, netuid) == (Subnet {
                emission_value: value,
                ..subnet_at(old(self).subnets@, netuid)
            }),
            r ==> forall|n: u16|
                n != netuid && has_subnet(old(self).subnets@, n) ==> #[trigger] subnet_at(
                    final(self).subnets@,
                    n,
                ) == subnet_at(old(self).subnets@, n),
    {
        match self.find_subnet(netuid) {
            Some(i) => {
                let ghost before = self.subnets@;
                self.subnets[i].emission_value = value;
                proof {
                    let e = self.subnets@[i as int];
                    assert(self.subnets@ == before.update(i as int, e));
                    assert forall|n: u16| true implies #[trigger] has_subnet(self.subnets@, n)
                        == has_subnet(before, n) by {
                        lemma_subnet_update(before, i as int, e, n);
                    }
                    assert forall|n: u16| n != netuid && has_subnet(before, n)
                        implies #[trigger] subnet_at(self.subnets@, n) == subnet_at(before, n) by {
                        lemma_subnet_update(before, i as int, e, n);
                    }
                    lemma_subnet_update(before, i as int, e, netuid);
                }
                true
            },
            None => false,
        }
    }

    /// Sets the hotkey drain period.
    pub fn set_hotkey_emission_tempo(&mut self, tempo: u64)
        ensures
            *final(self) == (Pallet { hotkey_emission_tempo: tempo, ..*old(self) }),
    {
        self.hotkey_emission_tempo = tempo;
    }

    /// Sets the child-change rate limit; zero disables it.
    pub fn set_tx_rate_limit(&mut self, limit: u64)
        ensures
            *final(self) == (Pallet { tx_rate_limit: limit, ..*old(self) }),
    {
        self.tx_rate_limit = limit;
    }

    /// Sets the floor of the registration lock cost.
    pub fn set_network_min_lock(&mut self, min_lock: u64)
        ensures
            *final(self) == (Pallet { network_min_lock: min_lock, ..*old(self) }),
    {
        self.network_min_lock = min_lock;
    }

    /// Sets the lock-cost reduction interval.
    pub fn set_lock_reduction_interval(&mut self, interval: u64)
        ensures
            *final(self) == (Pallet { lock_reduction_interval: interval, ..*old(self) }),
    {
        self.lock_reduction_interval = interval;
    }

    /// Creates a hotkey record with the given take rate; fails when the
    /// account already has one.
    pub fn add_hotkey(&mut self, account: u64, take: u16) -> (r: bool)
        requires
            old(self).wf(),
        ensures
            final(self).wf(),
            r == !has_hotkey(old(self).hotkeys@, account),
            !r ==> *final(self) == *old(self),
            r ==> *final(self) == (Pallet {
                hotkeys: final(self).hotkeys,
                ..*old(self)
            }) && final(self).hotkeys@ == old(self).hotkeys@.push(
                Hotkey { account, take, pending_emission: 0u64, last_drain_block: 0u64 },
            ),
    {
        match self.find_hotkey(account) {
            Some(_) => false,
            None => {
                let ghost before = self.hotkeys@;
                let entry = Hotkey { account, take, pending_emission: 0, last_drain_block: 0 };
                self.hotkeys.push(entry);
                proof {
                    let last = before.len() as int;
                    assert forall|a: int, b: int| 0 <= a < b < self.hotkeys@.len()
                        implies (#[trigger] self.hotkeys@[a]).account
                        != (#[trigger] self.hotkeys@[b]).account by {
                        if b == last {
                            assert(self.hotkeys@[a] == before[a]);
                            if before[a].account == account {
                                assert(has_hotkey(before, account));
                            }
                        } else {
                            assert(self.hotkeys@[a] == before[a] && self.hotkeys@[b] == before[b]);
                        }
                    }
                }
                true
            },
        }
    }

    /// A manual stake addition at `block`: adds to the position,
    /// saturating, creates it if need be, and stamps the last-increase
    /// block, which withholds the next drain cycle's reward.
    pub fn add_stake(&mut self, coldkey: u64, hotkey: u64, amount: u64, block: u64)
        requires
            old(self).wf(),
        ensures
            final(self).wf(),
            *final(self) == (Pallet { stakes: final(self).stakes, ..*old(self) }),
            forall|i: int|
                0 <= i < old(self).stakes@.len() ==> {
                    let e0 = old(self).stakes@[i];
                    let e1 = #[trigger] final(self).stakes@[i];
                    &&& e1.coldkey == e0.coldkey
                    &&& e1.hotkey == e0.hotkey
                    &&& (e0.coldkey == coldkey && e0.hotkey == hotkey ==> e1.last_add_block == block
                        && e1.amount == if e0.amount + amount <= u64::MAX {
                        (e0.amount + amount) as u64
                    } else {
                        u64::MAX
                    })
                    &&& (!(e0.coldkey == coldkey && e0.hotkey == hotkey) ==> e1 == e0)
                },
            has_stake_entry(old(self).stakes@, coldkey, hotkey) ==> final(self).stakes@.len()
                == old(self).stakes@.len(),
            !has_stake_entry(old(self).stakes@, coldkey, hotkey) ==> final(self).stakes@ == old(
                self,
            ).stakes@.push(StakeEntry { coldkey, hotkey, amount, last_add_block: block }),
    {
        match self.find_stake(coldkey, hotkey) {
            Some(i) => {
                let ghost before = self.stakes@;
                let a0: u64 = self.stakes[i].amount;
                self.stakes[i].amount = a0.saturating_add(amount);
                self.stakes[i].last_add_block = block;
                proof {
                    assert forall|j: int, k: int| 0 <= j < k < self.stakes@.len()
                        implies !((#[trigger] self.stakes@[j]).coldkey
                        == (#[trigger] self.stakes@[k]).coldkey && self.stakes@[j].hotkey
                        == self.stakes@[k].hotkey) by {
                        assert(self.stakes@[j].coldkey == before[j].coldkey
                            && self.stakes@[j].hotkey == before[j].hotkey);
                        assert(self.stakes@[k].coldkey == before[k].coldkey
                            && self.stakes@[k].hotkey == before[k].hotkey);
                    }
                }
            },
            None => {
                let ghost before = self.stakes@;
                self.stakes.push(StakeEntry { coldkey, hotkey, amount, last_add_block: block });
                proof {
                    let last = before.len() as int;
                    assert forall|j: int, k: int| 0 <= j < k < self.stakes@.len()
                        implies !((#[trigger] self.stakes@[j]).coldkey
                        == (#[trigger] self.stakes@[k]).coldkey && self.stakes@[j].hotkey
                        == self.stakes@[k].hotkey) by {
                        if k == last {
                            assert(self.stakes@[j] == before[j]);
                            if before[j].coldkey == coldkey && before[j].hotkey == hotkey {
                                assert(has_stake_entry(before, coldkey, hotkey));
                            }
                        } else {
                            assert(self.stakes@[j] == before[j] && self.stakes@[k] == before[k]);
                        }
                    }
                }
            },
        }
    }
}

} // verus!
