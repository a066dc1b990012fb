//! The delegation-graph mutator: validating and atomically replacing a
//! hotkey's child list on a subnet, and the pure reads of the edge tables.

use vstd::prelude::*;
use crate::state::EdgeList;
use crate::state::OwnerEntry;
use crate::state::Pallet;
use crate::state::edges_index;
use crate::state::edges_of;
use crate::state::has_edges;
use crate::state::unique_edge_keys;
use crate::state::unique_keys;

verus! {

/// The netuid of the root subnet, on which child hotkeys are not valid.
pub const ROOT_NETUID: u16 = 0;

/// Most children one hotkey may declare on one subnet.
pub const MAX_CHILDREN: usize = 5;

/// The distinct validation failures of `do_set_children`, surfaced in the
/// order the checks run; on any of them the state is unchanged.
#[derive(Clone, Copy, Debug, PartialEq, Eq, Structural)]
pub enum ChildrenError {
    /// The hotkey changed its children too recently.
    TxRateLimitExceeded,
    /// Children cannot be declared on the root subnet.
    RegistrationNotPermittedOnRootSubnet,
    /// The subnet does not exist.
    SubNetworkDoesNotExist,
    /// The calling coldkey does not own the hotkey.
    NonAssociatedColdKey,
    /// More than five children were declared.
    TooManyChildren,
    /// The declared proportions overflow a `u64` when summed.
    ProportionOverflow,
    /// A declared child is the hotkey itself.
    InvalidChild,
    /// The same child appears twice in the list.
    DuplicateChild,
}

/// The account appears among the children of the list.
pub open spec fn children_contain(children: Seq<(u64, u64)>, account: u64) -> bool {
    exists|i: int| 0 <= i < children.len() && children[i].1 == account
}

/// Some child account appears twice in the list.
pub open spec fn has_duplicate_child(children: Seq<(u64, u64)>) -> bool {
    exists|i: int, j: int| 0 <= i < j < children.len() && children[i].1 == children[j].1
}

/// Sum of the proportions of the first `n` children.
pub open spec fn prop_sum_prefix(children: Seq<(u64, u64)>, n: int) -> int
    decreases n,
{
    if n <= 0 {
        0
    } else {
        prop_sum_prefix(children, n - 1) + children[n - 1].0
    }
}

/// Sum of all declared proportions.
pub open spec fn prop_sum(children: Seq<(u64, u64)>) -> int {
    prop_sum_prefix(children, children.len() as int)
}

/// The edge list with every edge to `account` removed; parent lists are
/// cleaned of a hotkey with this.
pub open spec fn remove_edges_to_prefix(s: Seq<(u64, u64)>, account: u64, n: int) -> Seq<(u64, u64)>
    decreases n,
{
    if n <= 0 {
        Seq::empty()
    } else {
        let pre = remove_edges_to_prefix(s, account, n - 1);
        if s[n - 1].1 == account {
            pre
        } else {
            pre.push(s[n - 1])
        }
    }
}

/// The whole edge list with every edge to `account` removed.
pub open spec fn remove_edges_to(s: Seq<(u64, u64)>, account: u64) -> Seq<(u64, u64)> {
    remove_edges_to_prefix(s, account, s.len() as int)
}

/// The coldkey owns the hotkey.
pub open spec fn spec_owns(owners: Seq<OwnerEntry>, coldkey: u64, hotkey: u64) -> bool {
    exists|i: int| 0 <= i < owners.len() && owners[i].hotkey == hotkey && owners[i].coldkey == coldkey
}

/// Some coldkey owns the hotkey.
pub open spec fn spec_owner_exists(owners: Seq<OwnerEntry>, hotkey: u64) -> bool {
    exists|i: int| 0 <= i < owners.len() && owners[i].hotkey == hotkey
}

/// The index of the hotkey's owner entry, meaningful when one exists.
pub open spec fn spec_owner_index(owners: Seq<OwnerEntry>, hotkey: u64) -> int {
    choose|i: int| 0 <= i < owners.len() && owners[i].hotkey == hotkey
}

/// A key is present in a `(key, value)` table.
pub open spec fn has_key(s: Seq<(u64, u64)>, key: u64) -> bool {
    exists|i: int| 0 <= i < s.len() && s[i].0 == key
}

/// The value stored under a key of a `(key, value)` table, meaningful when
/// `has_key`.
pub open spec fn value_of(s: Seq<(u64, u64)>, key: u64) -> u64 {
    s[choose|i: int| 0 <= i < s.len() && s[i].0 == key].1
}

/// The hotkey passes the child-change rate limit at `block`: the limit is
/// disabled, the hotkey never changed children, or enough blocks passed.
pub open spec fn rate_limit_ok(s: Pallet, hotkey: u64, block: u64) -> bool {
    ||| s.tx_rate_limit == 0
    ||| !has_key(s.last_children_block@, hotkey)
    ||| value_of(s.last_children_block@, hotkey) + s.tx_rate_limit <= block
}

/// What a child's parent list on the subnet looks like after the old
/// children of `hotkey` are cleaned but before new edges are appended: the
/// list loses its edges to `hotkey` exactly when the account was among the
/// hotkey's old children.
pub open spec fn parent_base(s: Pallet, hotkey: u64, netuid: u16, account: u64) -> Seq<(u64, u64)> {
    if children_contain(edges_of(s.child_keys@, hotkey, netuid), account) {
        remove_edges_to(edges_of(s.parent_keys@, account, netuid), hotkey)
    } else {
        edges_of(s.parent_keys@, account, netuid)
    }
}

/// No edge of the list points at `account`.
pub open spec fn edges_none_to(s: Seq<(u64, u64)>, account: u64) -> bool {
    forall|m: int| 0 <= m < s.len() ==> (#[trigger] s[m]).1 != account
}

/// Removing edges to an account leaves no edge to it.
pub proof fn lemma_remove_none(s: Seq<(u64, u64)>, account: u64, n: int)
    ensures
        edges_none_to(remove_edges_to_prefix(s, account, n), account),
    decreases n,
{
    if n > 0 {
        lemma_remove_none(s, account, n - 1);
    }
}

/// Removing edges to an account that none of the first `n` edges point at
/// keeps those edges as they are.
pub proof fn lemma_remove_noop(s: Seq<(u64, u64)>, account: u64, n: int)
    requires
        0 <= n <= s.len(),
        edges_none_to(s, account),
    ensures
        remove_edges_to_prefix(s, account, n) =~= s.take(n),
    decreases n,
{
    if n > 0 {
        lemma_remove_noop(s, account, n - 1);
    }
}

/// Removing edges to an account twice is the same as removing them once.
pub proof fn lemma_remove_idempotent(s: Seq<(u64, u64)>, account: u64)
    ensures
        remove_edges_to(remove_edges_to(s, account), account) == remove_edges_to(s, account),
    decreases s.len(),
{
    let t = remove_edges_to(s, account);
    lemma_remove_none(s, account, s.len() as int);
    lemma_remove_noop(t, account, t.len() as int);
    assert(t.take(t.len() as int) =~= t);
}

/// Replacing the edges of one entry, keeping its key, changes the stored
/// mapping only at that key and keeps the keys unique.
pub proof fn lemma_edges_update(s: Seq<EdgeList>, p: int, e: EdgeList, a: u64, n: u16)
    requires
        unique_edge_keys(s),
        0 <= p < s.len(),
        e.hotkey == s[p].hotkey,
        e.netuid == s[p].netuid,
    ensures
        unique_edge_keys(s.update(p, e)),
        has_edges(s.update(p, e), a, n) == has_edges(s, a, n),
        edges_of(s.update(p, e), a, n) == if a == e.hotkey && n == e.netuid {
            e.edges@
        } else {
            edges_of(s, a, n)
        },
{
    let s2 = s.update(p, e);
    assert(has_edges(s2, a, n) == has_edges(s, a, n)) by {
        if has_edges(s, a, n) {
            let w = edges_index(s, a, n);
            assert(0 <= w < s.len() && s[w].hotkey == a && s[w].netuid == n);
            if w == p {
                assert(s2[p].hotkey == a && s2[p].netuid == n);
            } else {
                assert(s2[w].hotkey == a && s2[w].netuid == n);
            }
        }
        if has_edges(s2, a, n) {
            let w = edges_index(s2, a, n);
            assert(0 <= w < s2.len() && s2[w].hotkey == a && s2[w].netuid == n);
            if w == p {
                assert(s[p].hotkey == a && s[p].netuid == n);
            } else {
                assert(s[w].hotkey == a && s[w].netuid == n);
            }
        }
    }
    assert forall|i: int, j: int| 0 <= i < j < s2.len() implies !((#[trigger] s2[i]).hotkey
        == (#[trigger] s2[j]).hotkey && s2[i].netuid == s2[j].netuid) by {
        assert(s[i].hotkey == s2[i].hotkey && s[i].netuid == s2[i].netuid);
        assert(s[j].hotkey == s2[j].hotkey && s[j].netuid == s2[j].netuid);
    }
    if a == e.hotkey && n == e.netuid {
        assert(s2[p].hotkey == a && s2[p].netuid == n);
        assert(has_edges(s2, a, n));
        let w = edges_index(s2, a, n);
        assert(0 <= w < s2.len() && s2[w].hotkey == a && s2[w].netuid == n);
        if w != p {
            assert(s[w].hotkey == a && s[w].netuid == n);
            assert(s[p].hotkey == a && s[p].netuid == n);
            assert(false);
        }
        assert(edges_of(s2, a, n) == e.edges@);
    } else {
        if has_edges(s, a, n) {
            let w = edges_index(s, a, n);
            assert(0 <= w < s.len() && s[w].hotkey == a && s[w].netuid == n);
            assert(w != p);
            assert(s2[w].hotkey == a && s2[w].netuid == n);
            assert(has_edges(s2, a, n));
            let w2 = edges_index(s2, a, n);
            assert(0 <= w2 < s2.len() && s2[w2].hotkey == a && s2[w2].netuid == n);
            assert(w2 != p);
            assert(s[w2].hotkey == a && s[w2].netuid == n);
            if w2 != w {
                assert(false);
            }
            assert(edges_of(s2, a, n) == edges_of(s, a, n));
        } else {
            if has_edges(s2, a, n) {
                let w2 = edges_index(s2, a, n);
                assert(0 <= w2 < s2.len() && s2[w2].hotkey == a && s2[w2].netuid == n);
                assert(w2 != p);
                assert(s[w2].hotkey == a && s[w2].netuid == n);
                assert(false);
            }
        }
    }
}

/// Appending an entry under a fresh key adds exactly that key to the
/// stored mapping and keeps the keys unique.
pub proof fn lemma_edges_push(s: Seq<EdgeList>, e: EdgeList, a: u64, n: u16)
    requires
        unique_edge_keys(s),
        !has_edges(s, e.hotkey, e.netuid),
    ensures
        unique_edge_keys(s.push(e)),
        has_edges(s.push(e), a, n) == (has_edges(s, a, n) || (a == e.hotkey && n == e.netuid)),
        edges_of(s.push(e), a, n) == if a == e.hotkey && n == e.netuid {
            e.edges@
        } else {
            edges_of(s, a, n)
        },
{
    let s2 = s.push(e);
    let last = s.len() as int;
    assert(has_edges(s2, a, n) == (has_edges(s, a, n) || (a == e.hotkey && n == e.netuid))) by {
        if has_edges(s, a, n) {
            let w = edges_index(s, a, n);
            assert(0 <= w < s.len() && s[w].hotkey == a && s[w].netuid == n);
            assert(s2[w].hotkey == a && s2[w].netuid == n);
        }
        if a == e.hotkey && n == e.netuid {
            assert(s2[last].hotkey == a && s2[last].netuid == n);
        }
        if has_edges(s2, a, n) {
            let w = edges_index(s2, a, n);
            assert(0 <= w < s2.len() && s2[w].hotkey == a && s2[w].netuid == n);
            if w != last {
                assert(s[w].hotkey == a && s[w].netuid == n);
            }
        }
    }
    assert forall|i: int, j: int| 0 <= i < j < s2.len() implies !((#[trigger] s2[i]).hotkey
        == (#[trigger] s2[j]).hotkey && s2[i].netuid == s2[j].netuid) by {
        if j == last {
            assert(s2[i] == s[i]);
            if s[i].hotkey == e.hotkey && s[i].netuid == e.netuid {
                assert(has_edges(s, e.hotkey, e.netuid));
            }
        } else {
            assert(s2[i] == s[i] && s2[j] == s[j]);
        }
    }
    if a == e.hotkey && n == e.netuid {
        assert(s2[last].hotkey == a && s2[last].netuid == n);
        assert(has_edges(s2, a, n));
        let w = edges_index(s2, a, n);
        assert(0 <= w < s2.len() && s2[w].hotkey == a && s2[w].netuid == n);
        if w != last {
            assert(s[w].hotkey == a && s[w].netuid == n);
            assert(has_edges(s, e.hotkey, e.netuid));
        }
        assert(edges_of(s2, a, n) == e.edges@);
    } else {
        if has_edges(s, a, n) {
            let w = edges_index(s, a, n);
            assert(0 <= w < s.len() && s[w].hotkey == a && s[w].netuid == n);
            assert(s2[w].hotkey == a && s2[w].netuid == n);
            assert(has_edges(s2, a, n));
            let w2 = edges_index(s2, a, n);
            assert(0 <= w2 < s2.len() && s2[w2].hotkey == a && s2[w2].netuid == n);
            assert(w2 != last);
            assert(s[w2].hotkey == a && s[w2].netuid == n);
            if w2 != w {
                assert(false);
            }
            assert(edges_of(s2, a, n) == edges_of(s, a, n));
        } else {
            if has_edges(s2, a, n) {
                let w2 = edges_index(s2, a, n);
                assert(0 <= w2 < s2.len() && s2[w2].hotkey == a && s2[w2].netuid == n);
                assert(w2 != last);
                assert(s[w2].hotkey == a && s[w2].netuid == n);
                assert(false);
            }
        }
    }
}

/// Updating the value under one key of a `(key, value)` table changes the
/// stored mapping only at that key and keeps the keys unique.
pub proof fn lemma_key_update(s: Seq<(u64, u64)>, p: int, v: u64, k: u64)
    requires
        unique_keys(s),
        0 <= p < s.len(),
    ensures
        unique_keys(s.update(p, (s[p].0, v))),
        has_key(s.update(p, (s[p].0, v)), k) == has_key(s, k),
        k == s[p].0 ==> value_of(s.update(p, (s[p].0, v)), k) == v,
        k != s[p].0 && has_key(s, k) ==> value_of(s.update(p, (s[p].0, v)), k) == value_of(s, k),
{
    let s2 = s.update(p, (s[p].0, v));
    assert forall|i: int, j: int| 0 <= i < j < s2.len() implies (#[trigger] s2[i]).0
        != (#[trigger] s2[j]).0 by {
        assert(s2[i].0 == s[i].0 && s2[j].0 == s[j].0);
    }
    if k == s[p].0 {
        assert(s2[p].0 == k);
        assert(has_key(s2, k));
        assert(has_key(s, k));
        let w = choose|i: int| 0 <= i < s2.len() && s2[i].0 == k;
        assert(0 <= w < s2.len() && s2[w].0 == k);
        if w != p {
            assert(s[w].0 == k && s[p].0 == k);
            assert(false);
        }
        assert(value_of(s2, k) == v);
    } else {
        if has_key(s, k) {
            let w = choose|i: int| 0 <= i < s.len() && s[i].0 == k;
            assert(0 <= w < s.len() && s[w].0 == k);
            assert(w != p);
            assert(s2[w].0 == k);
            assert(has_key(s2, k));
            let w2 = choose|i: int| 0 <= i < s2.len() && s2[i].0 == k;
            assert(0 <= w2 < s2.len() && s2[w2].0 == k);
            assert(w2 != p);
            assert(s[w2].0 == k);
            if w2 != w {
                assert(false);
            }
            assert(value_of(s2, k) == value_of(s, k));
        } else {
            if has_key(s2, k) {
                let w2 = choose|i: int| 0 <= i < s2.len() && s2[i].0 == k;
                assert(0 <= w2 < s2.len() && s2[w2].0 == k);
                assert(w2 != p);
                assert(s[w2].0 == k);
                assert(false);
            }
        }
    }
}

/// Appending a fresh key to a `(key, value)` table adds exactly that key
/// and keeps the keys unique.
pub proof fn lemma_key_push(s: Seq<(u64, u64)>, e: (u64, u64), k: u64)
    requires
        unique_keys(s),
        !has_key(s, e.0),
    ensures
        unique_keys(s.push(e)),
        has_key(s.push(e), k) == (has_key(s, k) || k == e.0),
        k == e.0 ==> value_of(s.push(e), k) == e.1,
        k != e.0 && has_key(s, k) ==> value_of(s.push(e), k) == value_of(s, k),
{
    let s2 = s.push(e);
    let last = s.len() as int;
    assert forall|i: int, j: int| 0 <= i < j < s2.len() implies (#[trigger] s2[i]).0
        != (#[trigger] s2[j]).0 by {
        if j == last {
            assert(s2[i] == s[i]);
            if s[i].0 == e.0 {
                assert(has_key(s, e.0));
            }
        } else {
            assert(s2[i] == s[i] && s2[j] == s[j]);
        }
    }
    if k == e.0 {
        assert(s2[last].0 == k);
        assert(has_key(s2, k));
        let w = choose|i: int| 0 <= i < s2.len() && s2[i].0 == k;
        assert(0 <= w < s2.len() && s2[w].0 == k);
        if w != last {
            assert(s[w].0 == k);
            assert(has_key(s, e.0));
        }
        assert(value_of(s2, k) == e.1);
    } else {
        if has_key(s, k) {
            let w = choose|i: int| 0 <= i < s.len() && s[i].0 == k;
            assert(0 <= w < s.len() && s[w].0 == k);
            assert(s2[w].0 == k);
            assert(has_key(s2, k));
            let w2 = choose|i: int| 0 <= i < s2.len() && s2[i].0 == k;
            assert(0 <= w2 < s2.len() && s2[w2].0 == k);
            assert(w2 != last);
            assert(s[w2].0 == k);
            if w2 != w {
                assert(false);
            }
            assert(value_of(s2, k) == value_of(s, k));
        } else {
            if has_key(s2, k) {
                let w2 = choose|i: int| 0 <= i < s2.len() && s2[i].0 == k;
                assert(0 <= w2 < s2.len() && s2[w2].0 == k);
                assert(w2 != last);
                assert(s[w2].0 == k);
                assert(false);
            }
        }
    }
}

/// Copies a plain edge vector element by element.
fn copy_edges(src: &Vec<(u64, u64)>) -> (r: Vec<(u64, u64)>)
    ensures
        r@ == src@,
{
    let mut r: Vec<(u64, u64)> = Vec::new();
    let mut i: usize = 0;
    while i < src.len()
        invariant
            i <= src@.len(),
            r@ == src@.take(i as int),
        decreases src@.len() - i,
    {
        r.push(src[i]);
        proof {
            assert(r@ =~= src@.take(i as int + 1));
        }
        i = i + 1;
    }
    proof {
        assert(src@.take(src@.len() as int) =~= src@);
    }
    r
}

/// The running proportion sum only grows with more children.
pub proof fn lemma_prop_sum_mono(children: Seq<(u64, u64)>, n: int, m: int)
    requires
        0 <= n <= m,
    ensures
        prop_sum_prefix(children, n) <= prop_sum_prefix(children, m),
    decreases m,
{
    if n < m {
        lemma_prop_sum_mono(children, n, m - 1);
    }
}

/// Copies the edges of the list, leaving out every edge to `account`.
fn filter_edges(src: &Vec<(u64, u64)>, account: u64) -> (r: Vec<(u64, u64)>)
    ensures
        r@ == remove_edges_to(src@, account),
{
    let mut r: Vec<(u64, u64)> = Vec::new();
    let mut i: usize = 0;
    while i < src.len()
        invariant
            i <= src@.len(),
            r@ == remove_edges_to_prefix(src@, account, i as int),
        decreases src@.len() - i,
    {
        if src[i].1 != account {
            r.push(src[i]);
        }
        i = i + 1;
    }
    r
}

/// Everything of the state but the two edge tables and the child-change
/// history is the same.
pub open spec fn same_but_graph(a: Pallet, b: Pallet) -> bool {
    &&& a.subnets == b.subnets
    &&& a.hotkeys == b.hotkeys
    &&& a.stakes == b.stakes
    &&& a.owners == b.owners
    &&& a.total_issuance == b.total_issuance
    &&& a.hotkey_emission_tempo == b.hotkey_emission_tempo
    &&& a.tx_rate_limit == b.tx_rate_limit
    &&& a.network_min_lock == b.network_min_lock
    &&& a.network_last_lock == b.network_last_lock
    &&& a.network_last_lock_block == b.network_last_lock_block
    &&& a.lock_reduction_interval == b.lock_reduction_interval
}

/// The validation failure `do_set_children` reports, or `None` when the
/// request is valid; the checks run in this order and the first failure
/// wins.
pub open spec fn set_children_err(
    s: Pallet,
    coldkey: u64,
    hotkey: u64,
    netuid: u16,
    children: Seq<(u64, u64)>,
    block: u64,
) -> Option<ChildrenError> {
    if !rate_limit_ok(s, hotkey, block) {
        Some(ChildrenError::TxRateLimitExceeded)
    } else if netuid == ROOT_NETUID {
        Some(ChildrenError::RegistrationNotPermittedOnRootSubnet)
    } else if !crate::state::has_subnet(s.subnets@, netuid) {
        Some(ChildrenError::SubNetworkDoesNotExist)
    } else if !spec_owns(s.owners@, coldkey, hotkey) {
        Some(ChildrenError::NonAssociatedColdKey)
    } else if children.len() > MAX_CHILDREN {
        Some(ChildrenError::TooManyChildren)
    } else if prop_sum(children) > u64::MAX {
        Some(ChildrenError::ProportionOverflow)
    } else if children_contain(children, hotkey) {
        Some(ChildrenError::InvalidChild)
    } else if has_duplicate_child(children) {
        Some(ChildrenError::DuplicateChild)
    } else {
        None
    }
}

impl Pallet {
    /// Position of the child list declared by `(hotkey, netuid)`, if any.
    pub fn find_child_entry(&self, hotkey: u64, netuid: u16) -> (r: Option<usize>)
        requires
            self.wf(),
        ensures
            r is Some ==> {
                &&& (r->Some_0 as int) < self.child_keys@.len()
                &&& self.child_keys@[r->Some_0 as int].hotkey == hotkey
                &&& self.child_keys@[r->Some_0 as int].netuid == netuid
                &&& has_edges(self.child_keys@, hotkey, netuid)
                &&& self.child_keys@[r->Some_0 as int].edges@ == edges_of(
                    self.child_keys@,
                    hotkey,
                    netuid,
                )
            },
            r is None ==> !has_edges(self.child_keys@, hotkey, netuid),
    {
        let mut i: usize = 0;
        while i < self.child_keys.len()
            invariant
                self.wf(),
                i <= self.child_keys@.len(),
                forall|j: int|
                    0 <= j < i ==> !((#[trigger] self.child_keys@[j]).hotkey == hotkey
                        && self.child_keys@[j].netuid == netuid),
            decreases self.child_keys@.len() - i,
        {
            if self.child_keys[i].hotkey == hotkey && self.child_keys[i].netuid == netuid {
                proof {
                    let w = crate::state::edges_index(self.child_keys@, hotkey, netuid);
                    assert(0 <= w < self.child_keys@.len() && self.child_keys@[w].hotkey == hotkey
                        && self.child_keys@[w].netuid == netuid);
                    assert(w == i);
                }
                return Some(i);
            }
            i = i + 1;
        }
        None
    }

    /// Position of the parent list of `(hotkey, netuid)`, if any.
    pub fn find_parent_entry(&self, hotkey: u64, netuid: u16) -> (r: Option<usize>)
        requires
            self.wf(),
        ensures
            r is Some ==> {
                &&& (r->Some_0 as int) < self.parent_keys@.len()
                &&& self.parent_keys@[r->Some_0 as int].hotkey == hotkey
                &&& self.parent_keys@[r->Some_0 as int].netuid == netuid
                &&& has_edges(self.parent_keys@, hotkey, netuid)
                &&& self.parent_keys@[r->Some_0 as int].edges@ == edges_of(
                    self.parent_keys@,
                    hotkey,
                    netuid,
                )
            },
            r is None ==> !has_edges(self.parent_keys@, hotkey, netuid),
    {
        let mut i: usize = 0;
        while i < self.parent_keys.len()
            invariant
                self.wf(),
                i <= self.parent_keys@.len(),
                forall|j: int|
                    0 <= j < i ==> !((#[trigger] self.parent_keys@[j]).hotkey == hotkey
                        && self.parent_keys@[j].netuid == netuid),
            decreases self.parent_keys@.len() - i,
        {
            if self.parent_keys[i].hotkey == hotkey && self.parent_keys[i].netuid == netuid {
                proof {
                    let w = crate::state::edges_index(self.parent_keys@, hotkey, netuid);
                    assert(0 <= w < self.parent_keys@.len() && self.parent_keys@[w].hotkey == hotkey
                        && self.parent_keys@[w].netuid == netuid);
                    assert(w == i);
                }
                return Some(i);
            }
            i = i + 1;
        }
        None
    }

    /// The children declared by `hotkey` on `netuid`, as `(proportion,
    /// account)` pairs; empty when none were ever declared.
    pub fn get_children(&self, hotkey: u64, netuid: u16) -> (r: Vec<(u64, u64)>)
        requires
            self.wf(),
        ensures
            r@ == edges_of(self.child_keys@, hotkey, netuid),
    {
        match self.find_child_entry(hotkey, netuid) {
            Some(i) => copy_edges(&self.child_keys[i].edges),
            None => Vec::new(),
        }
    }

    /// The parents of `child` on `netuid`, as `(proportion, account)`
    /// pairs; empty when it has none.
    pub fn get_parents(&self, child: u64, netuid: u16) -> (r: Vec<(u64, u64)>)
        requires
            self.wf(),
        ensures
            r@ == edges_of(self.parent_keys@, child, netuid),
    {
        match self.find_parent_entry(child, netuid) {
            Some(i) => copy_edges(&self.parent_keys[i].edges),
            None => Vec::new(),
        }
    }

    /// Records `coldkey` as the owner of `hotkey`, unless the hotkey
    /// already has an owner, in which case nothing changes.
    pub(crate) fn ensure_owner(&mut self, hotkey: u64, coldkey: u64)
        requires
            old(self).wf(),
        ensures
            final(self).wf(),
            final(self).subnets == old(self).subnets,
            final(self).hotkeys == old(self).hotkeys,
            final(self).stakes == old(self).stakes,
            final(self).child_keys == old(self).child_keys,
            final(self).parent_keys == old(self).parent_keys,
            final(self).last_children_block == old(self).last_children_block,
            final(self).total_issuance == old(self).total_issuance,
            final(self).hotkey_emission_tempo == old(self).hotkey_emission_tempo,
            final(self).tx_rate_limit == old(self).tx_rate_limit,
            final(self).network_min_lock == old(self).network_min_lock,
            final(self).network_last_lock == old(self).network_last_lock,
            final(self).network_last_lock_block == old(self).network_last_lock_block,
            final(self).lock_reduction_interval == old(self).lock_reduction_interval,
            spec_owner_exists(old(self).owners@, hotkey) ==> final(self).owners == old(self).owners,
            !spec_owner_exists(old(self).owners@, hotkey) ==> final(self).owners@ == old(
                self,
            ).owners@.push(OwnerEntry { hotkey, coldkey }),
    {
        let mut i: usize = 0;
        while i < self.owners.len()
            invariant
                self.wf(),
                i <= self.owners@.len(),
                forall|j: int| 0 <= j < i ==> (#[trigger] self.owners@[j]).hotkey != hotkey,
            decreases self.owners@.len() - i,
        {
            if self.owners[i].hotkey == hotkey {
                proof {
                    assert(spec_owner_exists(self.owners@, hotkey));
                }
                return;
            }
            i = i + 1;
        }
        let ghost before = self.owners@;
        self.owners.push(OwnerEntry { hotkey, coldkey });
        proof {
            let last = before.len() as int;
            assert forall|j: int, k: int| 0 <= j < k < self.owners@.len()
                implies (#[trigger] self.owners@[j]).hotkey
                != (#[trigger] self.owners@[k]).hotkey by {
                if k == last {
                    assert(self.owners@[j] == before[j]);
                } else {
                    assert(self.owners@[j] == before[j] && self.owners@[k] == before[k]);
                }
            }
        }
    }

    /// Whether `coldkey` owns `hotkey`.
    pub fn coldkey_owns_hotkey(&self, coldkey: u64, hotkey: u64) -> (r: bool)
        ensures
            r == spec_owns(self.owners@, coldkey, hotkey),
    {
        let mut i: usize = 0;
        while i < self.owners.len()
            invariant
                i <= self.owners@.len(),
                forall|j: int|
                    0 <= j < i ==> !((#[trigger] self.owners@[j]).hotkey == hotkey
                        && self.owners@[j].coldkey == coldkey),
            decreases self.owners@.len() - i,
        {
            if self.owners[i].hotkey == hotkey && self.owners[i].coldkey == coldkey {
                return true;
            }
            i = i + 1;
        }
        false
    }

    /// Position of the child-change history entry of `hotkey`, if any.
    fn find_last_children_block(&self, hotkey: u64) -> (r: Option<usize>)
        requires
            self.wf(),
        ensures
            r is Some ==> {
                &&& (r->Some_0 as int) < self.last_children_block@.len()
                &&& self.last_children_block@[r->Some_0 as int].0 == hotkey
                &&& has_key(self.last_children_block@, hotkey)
                &&& self.last_children_block@[r->Some_0 as int].1 == value_of(
                    self.last_children_block@,
                    hotkey,
                )
            },
            r is None ==> !has_key(self.last_children_block@, hotkey),
    {
        let mut i: usize = 0;
        while i < self.last_children_block.len()
            invariant
                self.wf(),
                i <= self.last_children_block@.len(),
                forall|j: int|
                    0 <= j < i ==> (#[trigger] self.last_children_block@[j]).0 != hotkey,
            decreases self.last_children_block@.len() - i,
        {
            if self.last_children_block[i].0 == hotkey {
                proof {
                    let w = choose|j: int|
                        0 <= j < self.last_children_block@.len()
                            && self.last_children_block@[j].0 == hotkey;
                    assert(self.last_children_block@[i as int].0 == hotkey);
                    assert(0 <= w < self.last_children_block@.len()
                        && self.last_children_block@[w].0 == hotkey);
                    assert(w == i);
                }
                return Some(i);
            }
            i = i + 1;
        }
        None
    }

    /// Validates and atomically replaces the full child list of `hotkey` on
    /// `netuid`, declared by its owning `coldkey`.
    ///
    /// The checks run in order and each failure is distinct: the per-hotkey
    /// rate limit, the root subnet, subnet existence, ownership, the child
    /// count cap, proportion-sum overflow, a self-referential child, and a
    /// duplicate child. On any failure nothing changes. On success the new
    /// list replaces the old one verbatim, the hotkey disappears from the
    /// parent lists of its old children, every new child's parent list
    /// gains `(proportion, hotkey)`, and the change is recorded against the
    /// rate limit.
    #[verifier::loop_isolation(false)]
    #[verifier::rlimit(60)]
    #[verifier::spinoff_prover]
    pub fn do_set_children(
        &mut self,
        coldkey: u64,
        hotkey: u64,
        netuid: u16,
        children: &Vec<(u64, u64)>,
        current_block: u64,
    ) -> (r: Result<(), ChildrenError>)
        requires
            old(self).wf(),
        ensures
            final(self).wf(),
            ({ let err = set_children_err(*old(self), coldkey, hotkey, netuid, children@, current_block);
                err is Some ==> r == Err::<(), ChildrenError>(err->0) && *final(self) == *old(self) }),
            set_children_err(*old(self), coldkey, hotkey, netuid, children@, current_block) is None
                ==> r is Ok,
            r is Ok ==> set_children_err(*old(self), coldkey, hotkey, netuid, children@, current_block)
                is None,
            r is Ok ==> same_but_graph(*final(self), *old(self)),
            r is Ok ==> edges_of(final(self).child_keys@, hotkey, netuid) == children@,
            r is Ok ==> forall|a: u64, n: u16|
                !(a == hotkey && n == netuid) ==> #[trigger] edges_of(final(self).child_keys@, a, n)
                    == edges_of(old(self).child_keys@, a, n),
            r is Ok ==> forall|a: u64, n: u16|
                n != netuid ==> #[trigger] edges_of(final(self).parent_keys@, a, n) == edges_of(
                    old(self).parent_keys@,
                    a,
                    n,
                ),
            r is Ok ==> forall|j: int|
                0 <= j < children@.len() ==> #[trigger] edges_of(
                    final(self).parent_keys@,
                    children@[j].1,
                    netuid,
                ) == parent_base(*old(self), hotkey, netuid, children@[j].1).push(
                    (children@[j].0, hotkey),
                ),
            r is Ok ==> forall|a: u64|
                !children_contain(children@, a) ==> #[trigger] edges_of(
                    final(self).parent_keys@,
                    a,
                    netuid,
                ) == parent_base(*old(self), hotkey, netuid, a),
            r is Ok ==> has_key(final(self).last_children_block@, hotkey) && value_of(
                final(self).last_children_block@,
                hotkey,
            ) == current_block,
            r is Ok ==> forall|k: u64|
                k != hotkey ==> #[trigger] has_key(final(self).last_children_block@, k) == has_key(
                    old(self).last_children_block@,
                    k,
                ),
            r is Ok ==> forall|k: u64|
                k != hotkey && has_key(old(self).last_children_block@, k) ==> #[trigger] value_of(
                    final(self).last_children_block@,
                    k,
                ) == value_of(old(self).last_children_block@, k),
    {
        // The rate limit: a hotkey may change its children only so often.
        if self.tx_rate_limit != 0 {
            match self.find_last_children_block(hotkey) {
                Some(i) => {
                    let last: u64 = self.last_children_block[i].1;
                    if (last as u128) + (self.tx_rate_limit as u128) > (current_block as u128) {
                        return Err(ChildrenError::TxRateLimitExceeded);
                    }
                },
                None => {},
            }
        }
        // Children are not valid on the root subnet.
        if netuid == ROOT_NETUID {
            return Err(ChildrenError::RegistrationNotPermittedOnRootSubnet);
        }
        // The subnet must exist.
        if self.find_subnet(netuid).is_none() {
            return Err(ChildrenError::SubNetworkDoesNotExist);
        }
        // The caller must own the hotkey.
        if !self.coldkey_owns_hotkey(coldkey, hotkey) {
            return Err(ChildrenError::NonAssociatedColdKey);
        }
        // At most five children.
        if children.len() > MAX_CHILDREN {
            return Err(ChildrenError::TooManyChildren);
        }
        // The proportions must not overflow when summed.
        let mut acc: u64 = 0;
        let mut i: usize = 0;
        while i < children.len()
            invariant
                i <= children@.len(),
                acc == prop_sum_prefix(children@, i as int),
            decreases children@.len() - i,
        {
            match acc.checked_add(children[i].0) {
                Some(next) => {
                    acc = next;
                },
                None => {
                    proof {
                        lemma_prop_sum_mono(children@, i as int + 1, children@.len() as int);
                    }
                    return Err(ChildrenError::ProportionOverflow);
                },
            }
            i = i + 1;
        }
        proof {
            lemma_prop_sum_mono(children@, 0, children@.len() as int);
        }
        // No child may be the hotkey itself.
        let mut i: usize = 0;
        while i < children.len()
            invariant
                i <= children@.len(),
                forall|j: int| 0 <= j < i ==> (#[trigger] children@[j]).1 != hotkey,
            decreases children@.len() - i,
        {
            if children[i].1 == hotkey {
                return Err(ChildrenError::InvalidChild);
            }
            i = i + 1;
        }
        // No duplicate children.
        let mut i: usize = 0;
        while i < children.len()
            invariant
                i <= children@.len(),
                forall|a: int, b: int|
                    0 <= a < b < i ==> (#[trigger] children@[a]).1 != (#[trigger] children@[b]).1,
            decreases children@.len() - i,
        {
            let mut j: usize = 0;
            while j < i
                invariant
                    j <= i <= children@.len(),
                    forall|a: int, b: int|
                        0 <= a < b < i ==> (#[trigger] children@[a]).1
                            != (#[trigger] children@[b]).1,
                    forall|a: int| 0 <= a < j ==> (#[trigger] children@[a]).1 != children@[i as int].1,
                decreases i - j,
            {
                if children[j].1 == children[i].1 {
                    return Err(ChildrenError::DuplicateChild);
                }
                j = j + 1;
            }
            i = i + 1;
        }
        // All checks passed: mutate, atomically from the caller's view.
        let ghost s0 = *self;
        let old_children: Vec<(u64, u64)> = self.get_children(hotkey, netuid);
        // Erase the hotkey from its old children's parent lists.
        let mut i: usize = 0;
        while i < old_children.len()
            invariant
                self.wf(),
                old_children@ == edges_of(s0.child_keys@, hotkey, netuid),
                i <= old_children@.len(),
                same_but_graph(*self, s0),
                self.child_keys == s0.child_keys,
                self.last_children_block == s0.last_children_block,
                forall|a: u64, n: u16| #[trigger]
                    has_edges(self.parent_keys@, a, n) == has_edges(s0.parent_keys@, a, n),
                forall|a: u64, n: u16|
                    n != netuid ==> #[trigger] edges_of(self.parent_keys@, a, n) == edges_of(
                        s0.parent_keys@,
                        a,
                        n,
                    ),
                forall|a: u64|
                    children_contain(old_children@.take(i as int), a) ==> #[trigger] edges_of(
                        self.parent_keys@,
                        a,
                        netuid,
                    ) == remove_edges_to(edges_of(s0.parent_keys@, a, netuid), hotkey),
                forall|a: u64|
                    !children_contain(old_children@.take(i as int), a) ==> #[trigger] edges_of(
                        self.parent_keys@,
                        a,
                        netuid,
                    ) == edges_of(s0.parent_keys@, a, netuid),
            decreases old_children@.len() - i,
        {
            let ghost pre = *self;
            let child: u64 = old_children[i].1;
            match self.find_parent_entry(child, netuid) {
                Some(p) => {
                    let filtered: Vec<(u64, u64)> = filter_edges(&self.parent_keys[p].edges, hotkey);
                    proof {
                        assert(filtered@ == remove_edges_to(
                            edges_of(pre.parent_keys@, child, netuid),
                            hotkey,
                        ));
                    }
                    self.parent_keys[p].edges = filtered;
                    proof {
                        let e = self.parent_keys@[p as int];
                        assert(self.parent_keys@ == pre.parent_keys@.update(p as int, e));
                        assert forall|a: u64, n: u16| #[trigger] edges_of(
                            self.parent_keys@,
                            a,
                            n,
                        ) == (if a == child && n == netuid {
                            filtered@
                        } else {
                            edges_of(pre.parent_keys@, a, n)
                        }) by {
                            lemma_edges_update(pre.parent_keys@, p as int, e, a, n);
                        }
                        assert forall|a: u64, n: u16| #[trigger] has_edges(
                            self.parent_keys@,
                            a,
                            n,
                        ) == has_edges(pre.parent_keys@, a, n) by {
                            lemma_edges_update(pre.parent_keys@, p as int, e, a, n);
                        }
                    }
                },
                None => {},
            }
            proof {
                // The value now stored for the child is the starting list
                // cleaned of the hotkey, whether or not it was cleaned
                // before.
                if children_contain(old_children@.take(i as int), child) {
                    lemma_remove_idempotent(edges_of(s0.parent_keys@, child, netuid), hotkey);
                }
                if !has_edges(pre.parent_keys@, child, netuid) {
                    assert(!has_edges(s0.parent_keys@, child, netuid));
                    assert(remove_edges_to(
                        edges_of(s0.parent_keys@, child, netuid),
                        hotkey,
                    ) =~= Seq::<(u64, u64)>::empty());
                }
                assert(edges_of(self.parent_keys@, child, netuid) == remove_edges_to(
                    edges_of(s0.parent_keys@, child, netuid),
                    hotkey,
                ));
                // Membership in the processed prefix only grows, and the
                // account processed now is in the longer prefix.
                assert(old_children@.take(i as int + 1) =~= old_children@.take(i as int).push(
                    old_children@[i as int],
                ));
                assert(children_contain(old_children@.take(i as int + 1), child)) by {
                    assert(old_children@.take(i as int + 1)[i as int].1 == child);
                }
                assert forall|a: u64|
                    children_contain(old_children@.take(i as int), a) implies children_contain(
                    old_children@.take(i as int + 1),
                    a,
                ) by {
                    let w = choose|m: int|
                        0 <= m < old_children@.take(i as int).len() && (#[trigger] old_children@.take(
                            i as int,
                        )[m]).1 == a;
                    assert(old_children@.take(i as int + 1)[w].1 == a);
                }
                assert forall|a: u64|
                    children_contain(old_children@.take(i as int + 1), a) && a != child
                    implies children_contain(old_children@.take(i as int), a) by {
                    let w = choose|m: int|
                        0 <= m < old_children@.take(i as int + 1).len() && (#[trigger] old_children@.take(
                            i as int + 1,
                        )[m]).1 == a;
                    assert(old_children@.take(i as int + 1)[i as int].1 == child);
                    assert(w < i as int);
                    assert(old_children@.take(i as int)[w].1 == a);
                }
            }
            i = i + 1;
        }
        proof {
            assert(old_children@.take(old_children@.len() as int) =~= old_children@);
        }
        let ghost s1 = *self;
        // Install the new child list verbatim.
        let new_list: Vec<(u64, u64)> = copy_edges(children);
        match self.find_child_entry(hotkey, netuid) {
            Some(ci) => {
                let ghost before = self.child_keys@;
                self.child_keys[ci].edges = new_list;
                proof {
                    let e = self.child_keys@[ci as int];
                    assert forall|a: u64, n: u16| true implies #[trigger] edges_of(
                        self.child_keys@,
                        a,
                        n,
                    ) == if a == hotkey && n == netuid {
                        children@
                    } else {
                        edges_of(before, a, n)
                    } by {
                        lemma_edges_update(before, ci as int, e, a, n);
                    }
                }
            },
            None => {
                let ghost before = self.child_keys@;
                let entry = EdgeList { hotkey, netuid, edges: new_list };
                self.child_keys.push(entry);
                proof {
                    let e = self.child_keys@[before.len() as int];
                    assert forall|a: u64, n: u16| true implies #[trigger] edges_of(
                        self.child_keys@,
                        a,
                        n,
                    ) == if a == hotkey && n == netuid {
                        children@
                    } else {
                        edges_of(before, a, n)
                    } by {
                        lemma_edges_push(before, e, a, n);
                    }
                }
            },
        }
        let ghost s2 = *self;
        // Append the hotkey to each new child's parent list.
        let mut i: usize = 0;
        while i < children.len()
            invariant
                self.wf(),
                i <= children@.len(),
                forall|a: int, b: int|
                    0 <= a < b < children@.len() ==> (#[trigger] children@[a]).1
                        != (#[trigger] children@[b]).1,
                same_but_graph(*self, s2),
                self.child_keys == s2.child_keys,
                self.last_children_block == s2.last_children_block,
                forall|a: u64, n: u16|
                    n != netuid ==> #[trigger] edges_of(self.parent_keys@, a, n) == edges_of(
                        s2.parent_keys@,
                        a,
                        n,
                    ),
                forall|j: int|
                    0 <= j < i ==> #[trigger] edges_of(self.parent_keys@, children@[j].1, netuid)
                        == edges_of(s2.parent_keys@, children@[j].1, netuid).push(
                        (children@[j].0, hotkey),
                    ),
                forall|a: u64|
                    !children_contain(children@.take(i as int), a) ==> #[trigger] edges_of(
                        self.parent_keys@,
                        a,
                        netuid,
                    ) == edges_of(s2.parent_keys@, a, netuid),
            decreases children@.len() - i,
        {
            let prop: u64 = children[i].0;
            let child: u64 = children[i].1;
            proof {
                assert(!children_contain(children@.take(i as int), child));
                assert(children_contain(children@.take(i as int + 1), child)) by {
                    assert(children@.take(i as int + 1)[i as int] == children@[i as int]);
                }
            }
            match self.find_parent_entry(child, netuid) {
                Some(p) => {
                    let ghost before = self.parent_keys@;
                    let mut appended: Vec<(u64, u64)> = copy_edges(&self.parent_keys[p].edges);
                    appended.push((prop, hotkey));
                    self.parent_keys[p].edges = appended;
                    proof {
                        let e = self.parent_keys@[p as int];
                        assert(e.edges@ == before[p as int].edges@.push((prop, hotkey)));
                        assert forall|a: u64, n: u16| true implies #[trigger] edges_of(
                            self.parent_keys@,
                            a,
                            n,
                        ) == if a == child && n == netuid {
                            e.edges@
                        } else {
                            edges_of(before, a, n)
                        } by {
                            lemma_edges_update(before, p as int, e, a, n);
                        }
                    }
                },
                None => {
                    let ghost before = self.parent_keys@;
                    let mut fresh: Vec<(u64, u64)> = Vec::new();
                    fresh.push((prop, hotkey));
                    let entry = EdgeList { hotkey: child, netuid, edges: fresh };
                    self.parent_keys.push(entry);
                    proof {
                        let e = self.parent_keys@[before.len() as int];
                        assert(edges_of(before, child, netuid) =~= Seq::<(u64, u64)>::empty());
                        assert(e.edges@ =~= edges_of(before, child, netuid).push((prop, hotkey)));
                        assert forall|a: u64, n: u16| true implies #[trigger] edges_of(
                            self.parent_keys@,
                            a,
                            n,
                        ) == if a == child && n == netuid {
                            e.edges@
                        } else {
                            edges_of(before, a, n)
                        } by {
                            lemma_edges_push(before, e, a, n);
                        }
                    }
                },
            }
            proof {
                assert forall|a: u64| !children_contain(children@.take(i as int + 1), a)
                    implies #[trigger] edges_of(self.parent_keys@, a, netuid) == edges_of(
                    s2.parent_keys@,
                    a,
                    netuid,
                ) by {
                    assert(!children_contain(children@.take(i as int), a)) by {
                        if children_contain(children@.take(i as int), a) {
                            let w = choose|m: int|
                                0 <= m < children@.take(i as int).len() && (#[trigger] children@.take(
                                    i as int,
                                )[m]).1 == a;
                            assert(children@.take(i as int + 1)[w] == children@.take(i as int)[w]);
                        }
                    }
                    assert(a != child) by {
                        assert(children@.take(i as int + 1)[i as int].1 == child);
                    }
                }
            }
            i = i + 1;
        }
        proof {
            assert(children@.take(children@.len() as int) =~= children@);
        }
        // Record the change against the rate limit.
        match self.find_last_children_block(hotkey) {
            Some(li) => {
                let ghost before = self.last_children_block@;
                self.last_children_block[li] = (hotkey, current_block);
                proof {
                    assert forall|k: u64| k != hotkey implies #[trigger] has_key(
                        self.last_children_block@,
                        k,
                    ) == has_key(before, k) by {
                        lemma_key_update(before, li as int, current_block, k);
                    }
                    assert forall|k: u64| k != hotkey && has_key(before, k)
                        implies #[trigger] value_of(self.last_children_block@, k) == value_of(
                        before,
                        k,
                    ) by {
                        lemma_key_update(before, li as int, current_block, k);
                    }
                    lemma_key_update(before, li as int, current_block, hotkey);
                }
            },
            None => {
                let ghost before = self.last_children_block@;
                self.last_children_block.push((hotkey, current_block));
                proof {
                    assert forall|k: u64| k != hotkey implies #[trigger] has_key(
                        self.last_children_block@,
                        k,
                    ) == has_key(before, k) by {
                        lemma_key_push(before, (hotkey, current_block), k);
                    }
                    assert forall|k: u64| k != hotkey && has_key(before, k)
                        implies #[trigger] value_of(self.last_children_block@, k) == value_of(
                        before,
                        k,
                    ) by {
                        lemma_key_push(before, (hotkey, current_block), k);
                    }
                    lemma_key_push(before, (hotkey, current_block), hotkey);
                }
            },
        }
        proof {
            assert forall|j: int| 0 <= j < children@.len() implies #[trigger] edges_of(
                self.parent_keys@,
                children@[j].1,
                netuid,
            ) == parent_base(s0, hotkey, netuid, children@[j].1).push((children@[j].0, hotkey)) by {
                assert(edges_of(s2.parent_keys@, children@[j].1, netuid) == parent_base(
                    s0,
                    hotkey,
                    netuid,
                    children@[j].1,
                ));
            }
        }
        Ok(())
    }
}

} // verus!
