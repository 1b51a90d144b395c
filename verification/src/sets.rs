//! The validator-set manager: session rotation, allocation changes, pending
//! deallocations, and slashing, over an explicit state object.

use vstd::prelude::*;
use crate::ledger::{cutoff, sum_amounts, IndexEntry, StakeLedger};
use crate::primitives::{
    round_robin_decrements, sat_sub, sum_shares, Session, Validator, MAX_KEY_SHARES_PER_SET,
};

verus! {

/// The typed rejections of the validator-set manager.
#[derive(Clone, Copy, PartialEq, Eq, Structural, Debug)]
pub enum Error {
    /// Not enough allocation to obtain a key share in the set.
    InsufficientAllocation,
    /// Trying to deallocate more than allocated.
    NotEnoughAllocated,
    /// Allocation would cause the validator set to no longer achieve fault
    /// tolerance.
    AllocationWouldRemoveFaultTolerance,
    /// Allocation would cause the validator set to never be able to achieve
    /// fault tolerance.
    AllocationWouldPreventFaultTolerance,
    /// Deallocation would remove the participant from the set, despite the
    /// validator not specifying so.
    DeallocationWouldRemoveParticipant,
    /// Deallocation would cause the validator set to no longer achieve fault
    /// tolerance.
    DeallocationWouldRemoveFaultTolerance,
    /// Deallocation to be claimed doesn't exist.
    NonExistentDeallocation,
    /// Validator wasn't registered or active.
    NonExistentValidator,
}

/// What a session rotation hands to the consensus authority sinks.
pub struct SessionHandoff {
    /// The session the incoming set serves.
    pub session: Session,
    /// The set that served until this rotation.
    pub outgoing: Vec<(Validator, u64)>,
    /// The freshly decided set.
    pub incoming: Vec<(Validator, u64)>,
}

/// The share count a single index row contributes: its amount in key shares,
/// capped at the set-wide maximum.
pub open spec fn sel_shares(amount: u64, aps: u64) -> int {
    let q = amount as int / aps as int;
    if q < MAX_KEY_SHARES_PER_SET as int {
        q
    } else {
        MAX_KEY_SHARES_PER_SET as int
    }
}

/// The raw participant list the session decision walks off the sorted index,
/// starting at row `k` with `shares` already accumulated: rows are taken
/// while the accumulated key shares stay under the cap and the row holds at
/// least one key share's stake.
pub open spec fn selected_from(s: Seq<IndexEntry>, aps: u64, k: int, shares: int) -> Seq<
    (Validator, u64),
>
    decreases s.len() - k,
{
    if k < 0 || k >= s.len() || k >= cutoff(s, aps) || shares >= MAX_KEY_SHARES_PER_SET as int {
        Seq::empty()
    } else {
        seq![(s[k].validator, sel_shares(s[k].amount, aps) as u64)] + selected_from(
            s,
            aps,
            k + 1,
            shares + sel_shares(s[k].amount, aps),
        )
    }
}

/// The raw participant list of a session decision.
pub open spec fn spec_selected(s: Seq<IndexEntry>, aps: u64) -> Seq<(Validator, u64)> {
    selected_from(s, aps, 0, 0)
}

/// The stake the selected rows carry, starting at row `k` with `shares`
/// accumulated.
pub open spec fn selected_stake_from(s: Seq<IndexEntry>, aps: u64, k: int, shares: int) -> int
    decreases s.len() - k,
{
    if k < 0 || k >= s.len() || k >= cutoff(s, aps) || shares >= MAX_KEY_SHARES_PER_SET as int {
        0
    } else {
        s[k].amount + selected_stake_from(s, aps, k + 1, shares + sel_shares(s[k].amount, aps))
    }
}

/// The stake backing a session decision.
pub open spec fn spec_selected_stake(s: Seq<IndexEntry>, aps: u64) -> int {
    selected_stake_from(s, aps, 0, 0)
}

/// The exact round-robin amortization, as a whole: each entry keeps its
/// validator and loses its share of the excess.
pub open spec fn spec_amortize(ps: Seq<(Validator, u64)>) -> Seq<(Validator, u64)> {
    if ps.len() == 0 {
        ps
    } else {
        Seq::new(
            ps.len(),
            |j: int|
                (
                    ps[j].0,
                    (ps[j].1 - round_robin_decrements(
                        sat_sub(sum_shares(ps), MAX_KEY_SHARES_PER_SET as int),
                        ps.len() as int,
                        j,
                    )) as u64,
                ),
        )
    }
}

/// The participant list a session decision yields for a given ledger.
pub open spec fn spec_decided(s: Seq<IndexEntry>, aps: u64) -> Seq<(Validator, u64)> {
    spec_amortize(spec_selected(s, aps))
}

/// The validator-set manager's state: the stake ledger plus the session
/// machinery that rotates, retires and slashes around it.
#[verifier::ext_equal]
pub struct ValidatorSets {
    /// The stake ledger.
    pub ledger: StakeLedger,
    /// The stake that buys one key share; fixed at genesis, always nonzero.
    pub allocation_per_key_share: u64,
    /// The latest decided session.
    pub session: u32,
    /// The participants of the latest decided session, with their key
    /// shares; doubles as the in-set lookup.
    pub participants: Vec<(Validator, u64)>,
    /// The authority list last handed to consensus: the active set.
    pub active: Vec<(Validator, u64)>,
    /// The stake backing the tracked set.
    pub total_allocated_stake: u64,
    /// Pending deallocations: validator, unlock session, amount.
    pub pending: Vec<(Validator, u32, u64)>,
    /// Disabled validators by their position in the active authority list.
    pub disabled: Vec<(u32, Validator)>,
    /// Each session's starting block height.
    pub begin_blocks: Vec<(u32, u64)>,
}

/// The total amount a validator holds across a pending-deallocation list.
pub open spec fn pending_sum(p: Seq<(Validator, u32, u64)>, v: Seq<u8>) -> int
    decreases p.len(),
{
    if p.len() == 0 {
        0
    } else {
        pending_sum(p.drop_last(), v) + if p.last().0@ == v {
            p.last().2 as int
        } else {
            0
        }
    }
}

/// A pending-deallocation list with every row of one validator removed.
pub open spec fn pending_without(p: Seq<(Validator, u32, u64)>, v: Seq<u8>) -> Seq<
    (Validator, u32, u64),
>
    decreases p.len(),
{
    if p.len() == 0 {
        p
    } else {
        pending_without(p.drop_last(), v) + if p.last().0@ == v {
            Seq::empty()
        } else {
            seq![p.last()]
        }
    }
}

/// Pending sums are never negative and never shrink as the list grows.
proof fn lemma_pending_sum_take_le(p: Seq<(Validator, u32, u64)>, v: Seq<u8>, n: int)
    requires
        0 <= n <= p.len(),
    ensures
        0 <= pending_sum(p.take(n), v) <= pending_sum(p, v),
    decreases p.len(),
{
    if p.len() == 0 {
        assert(p.take(n) =~= p);
    } else if n == p.len() {
        assert(p.take(n) =~= p);
        lemma_pending_sum_take_le(p.drop_last(), v, p.len() - 1);
        assert(p.drop_last().take(p.len() - 1) =~= p.drop_last());
    } else {
        assert(p.take(n) =~= p.drop_last().take(n));
        lemma_pending_sum_take_le(p.drop_last(), v, n);
    }
}

/// One row of a validator never outweighs that validator's pending total.
proof fn lemma_pending_entry_le_sum(p: Seq<(Validator, u32, u64)>, i: int)
    requires
        0 <= i < p.len(),
    ensures
        pending_sum(p, p[i].0@) >= p[i].2,
    decreases p.len(),
{
    if i == p.len() - 1 {
        lemma_pending_sum_take_le(p.drop_last(), p[i].0@, p.len() - 1);
        assert(p.drop_last().take(p.len() - 1) =~= p.drop_last());
    } else {
        lemma_pending_entry_le_sum(p.drop_last(), i);
    }
}

/// Dropping one validator's rows keeps every other row, keeps keys unique,
/// and leaves no row of that validator behind.
proof fn lemma_pending_without_props(p: Seq<(Validator, u32, u64)>, v: Seq<u8>)
    requires
        forall|a: int, b: int|
            0 <= a < b < p.len() ==> !((#[trigger] p[a]).0@ == (#[trigger] p[b]).0@ && p[a].1
                == p[b].1),
    ensures
        forall|j: int|
            0 <= j < pending_without(p, v).len() ==> (#[trigger] pending_without(p, v)[j]).0@ != v,
        forall|j: int|
            0 <= j < pending_without(p, v).len() ==> exists|i: int|
                0 <= i < p.len() && #[trigger] pending_without(p, v)[j] == p[i],
        forall|a: int, b: int|
            0 <= a < b < pending_without(p, v).len() ==> !((#[trigger] pending_without(
                p,
                v,
            )[a]).0@ == (#[trigger] pending_without(p, v)[b]).0@ && pending_without(p, v)[a].1
                == pending_without(p, v)[b].1),
    decreases p.len(),
{
    if p.len() > 0 {
        let dl = p.drop_last();
        lemma_pending_without_props(dl, v);
        let r = pending_without(p, v);
        let rd = pending_without(dl, v);
        assert forall|j: int|
            0 <= j < r.len() implies (#[trigger] r[j]).0@ != v && exists|i: int|
            0 <= i < p.len() && r[j] == p[i] by {
            if j < rd.len() {
                assert(r[j] == rd[j]);
                let i = choose|i: int| 0 <= i < dl.len() && rd[j] == dl[i];
                assert(p[i] == dl[i]);
                assert(0 <= i < p.len() && r[j] == p[i]);
            } else {
                assert(r[j] == p.last());
                assert(0 <= p.len() - 1 < p.len() && r[j] == p[p.len() - 1]);
            }
        }
        assert forall|a: int, b: int|
            0 <= a < b < r.len() implies !((#[trigger] r[a]).0@ == (#[trigger] r[b]).0@ && r[a].1
            == r[b].1) by {
            if b < rd.len() {
                assert(r[a] == rd[a] && r[b] == rd[b]);
            } else {
                assert(r[a] == rd[a]);
                let i = choose|i: int| 0 <= i < dl.len() && rd[a] == dl[i];
                assert(r[b] == p.last());
                assert(p[i] == dl[i]);
                assert(!(p[i].0@ == p[p.len() - 1].0@ && p[i].1 == p[p.len() - 1].1));
            }
        }
    }
}

/// Law: a pending deallocation is claimable exactly once. Its key appears
/// at most once in the queue, a claim succeeds precisely when the key is
/// present, and a successful claim removes the claimed row — so an
/// immediate second claim for the same validator and session finds nothing
/// and is refused.
pub proof fn lemma_claim_exactly_once(p: Seq<(Validator, u32, u64)>, i: int, v: Seq<u8>, s: u32)
    requires
        forall|a: int, b: int|
            0 <= a < b < p.len() ==> !((#[trigger] p[a]).0@ == (#[trigger] p[b]).0@ && p[a].1
                == p[b].1),
        0 <= i < p.len(),
        p[i].0@ == v,
        p[i].1 == s,
    ensures
        !(exists|j: int|
            0 <= j < p.remove(i).len() && (#[trigger] p.remove(i)[j]).0@ == v && p.remove(i)[j].1
                == s),
{
    p.remove_ensures(i);
    let r = p.remove(i);
    if exists|j: int| 0 <= j < r.len() && (#[trigger] r[j]).0@ == v && r[j].1 == s {
        let j = choose|j: int| 0 <= j < r.len() && (#[trigger] r[j]).0@ == v && r[j].1 == s;
        let jo = if j < i {
            j
        } else {
            j + 1
        };
        assert(r[j] == p[jo]);
        if jo < i {
            assert(!(p[jo].0@ == p[i].0@ && p[jo].1 == p[i].1));
        } else {
            assert(!(p[i].0@ == p[jo].0@ && p[i].1 == p[jo].1));
        }
    }
}

/// Whether an indexed validator list holds a validator.
pub open spec fn in_indexed_list(list: Seq<(u32, Validator)>, v: Seq<u8>) -> bool {
    exists|k: int| 0 <= k < list.len() && (#[trigger] list[k]).1@ == v
}

/// Whether a drained disabled list holds a validator.
fn list_holds_validator(list: &Vec<(u32, Validator)>, v: &Validator) -> (r: bool)
    ensures
        r == in_indexed_list(list@, v@),
{
    let n = list.len();
    let mut i: usize = 0;
    while i < n
        invariant
            i <= n,
            n == list@.len(),
            forall|k: int| 0 <= k < i ==> (#[trigger] list@[k]).1@ != v@,
        decreases n - i,
    {
        if list[i].1.eq_id(v) {
            return true;
        }
        i += 1;
    }
    false
}

impl ValidatorSets {
    /// Whether a validator is in the latest decided set.
    pub open spec fn in_participants(&self, v: Seq<u8>) -> bool {
        exists|i: int| 0 <= i < self.participants@.len() && self.participants@[i].0@ == v
    }

    /// Whether a validator is in the active authority list.
    pub open spec fn in_active(&self, v: Seq<u8>) -> bool {
        exists|i: int| 0 <= i < self.active@.len() && self.active@[i].0@ == v
    }

    /// Whether a validator is in an active or upcoming set.
    pub open spec fn spec_in_set(&self, v: Seq<u8>) -> bool {
        self.in_participants(v) || self.in_active(v)
    }

    /// Whether a pending deallocation exists for a validator and session.
    pub open spec fn pending_has(&self, v: Seq<u8>, s: u32) -> bool {
        exists|i: int|
            0 <= i < self.pending@.len() && self.pending@[i].0@ == v && self.pending@[i].1 == s
    }

    /// The amount of a pending deallocation; zero when none exists.
    pub open spec fn pending_amount(&self, v: Seq<u8>, s: u32) -> u64 {
        if self.pending_has(v, s) {
            self.pending@[choose|i: int|
                0 <= i < self.pending@.len() && self.pending@[i].0@ == v && self.pending@[i].1
                    == s].2
        } else {
            0
        }
    }

    /// Whether any pending deallocation exists for a validator.
    pub open spec fn pending_any(&self, v: Seq<u8>) -> bool {
        exists|i: int| 0 <= i < self.pending@.len() && self.pending@[i].0@ == v
    }

    /// The recorded begin block of a session; zero when none is recorded.
    pub open spec fn begin_block_of(&self, s: u32) -> u64 {
        if exists|i: int| 0 <= i < self.begin_blocks@.len() && self.begin_blocks@[i].0 == s {
            self.begin_blocks@[choose|i: int|
                0 <= i < self.begin_blocks@.len() && self.begin_blocks@[i].0 == s].1
        } else {
            0
        }
    }

    /// Whether two states hold the same observable content, field by
    /// field, with collections compared by their views.
    pub open spec fn same_state(a: &ValidatorSets, b: &ValidatorSets) -> bool {
        &&& a.ledger.rows() == b.ledger.rows()
        &&& a.ledger.index() == b.ledger.index()
        &&& a.allocation_per_key_share == b.allocation_per_key_share
        &&& a.session == b.session
        &&& a.participants@ == b.participants@
        &&& a.active@ == b.active@
        &&& a.total_allocated_stake == b.total_allocated_stake
        &&& a.pending@ == b.pending@
        &&& a.disabled@ == b.disabled@
        &&& a.begin_blocks@ == b.begin_blocks@
    }

    /// Well-formedness of the whole state.
    pub open spec fn wf(&self) -> bool {
        &&& self.ledger.wf()
        &&& self.allocation_per_key_share >= 1
        &&& sum_amounts(self.ledger.index()) <= u64::MAX
        &&& (forall|i: int, j: int|
            0 <= i < j < self.participants@.len() ==> (#[trigger] self.participants@[i]).0@ != (
            #[trigger] self.participants@[j]).0@)
        &&& sum_shares(self.participants@) <= MAX_KEY_SHARES_PER_SET as int
        &&& self.participants@.len() <= MAX_KEY_SHARES_PER_SET as int
        &&& (forall|i: int, j: int|
            0 <= i < j < self.active@.len() ==> (#[trigger] self.active@[i]).0@ != (
            #[trigger] self.active@[j]).0@)
        &&& self.active@.len() <= MAX_KEY_SHARES_PER_SET as int
        &&& (forall|i: int, j: int|
            0 <= i < j < self.pending@.len() ==> !((#[trigger] self.pending@[i]).0@ == (
            #[trigger] self.pending@[j]).0@ && self.pending@[i].1 == self.pending@[j].1))
        &&& (forall|i: int|
            0 <= i < self.disabled@.len() ==> (#[trigger] self.disabled@[i]).0 < self.active@.len()
                && self.active@[self.disabled@[i].0 as int].0@ == self.disabled@[i].1@)
        &&& (forall|i: int, j: int|
            0 <= i < j < self.disabled@.len() ==> (#[trigger] self.disabled@[i]).0 != (
            #[trigger] self.disabled@[j]).0)
        &&& (forall|i: int, j: int|
            0 <= i < j < self.begin_blocks@.len() ==> (#[trigger] self.begin_blocks@[i]).0 != (
            #[trigger] self.begin_blocks@[j]).0)
        &&& (forall|i: int|
            0 <= i < self.begin_blocks@.len() ==> (#[trigger] self.begin_blocks@[i]).0
                <= self.session)
    }
}

/// A list whose entries all hold at least one share sums to at least its
/// length.
proof fn lemma_sum_shares_at_least_len(ps: Seq<(Validator, u64)>)
    requires
        forall|j: int| 0 <= j < ps.len() ==> (#[trigger] ps[j]).1 >= 1,
    ensures
        sum_shares(ps) >= ps.len(),
    decreases ps.len(),
{
    if ps.len() > 0 {
        lemma_sum_shares_at_least_len(ps.drop_last());
    }
}

/// No single entry's round-robin decrement count exceeds the excess itself.
proof fn lemma_rr_le_excess(e: int, len: int, j: int)
    requires
        0 <= e,
        1 <= len,
        0 <= j < len,
    ensures
        round_robin_decrements(e, len, j) <= e,
{
    vstd::arithmetic::div_mod::lemma_mod_bound(e, len);
    vstd::arithmetic::div_mod::lemma_div_pos_is_pos(e, len);
    vstd::arithmetic::div_mod::lemma_div_nonincreasing(e, len);
    if len - 1 - j < e % len {
        // the entry takes one extra hit, so the remainder is positive and
        // the quotient leaves room for it
        vstd::arithmetic::div_mod::lemma_mod_decreases(e as nat, len as nat);
        assert(e >= 1);
        if len == 1 {
            assert(e % 1 == 0) by {
                vstd::arithmetic::div_mod::lemma_mod_bound(e, 1);
            }
        } else {
            vstd::arithmetic::div_mod::lemma_div_is_ordered_by_denominator(e, 2, len);
            let q = e / 2;
            vstd::arithmetic::div_mod::lemma_fundamental_div_mod(e, 2);
            vstd::arithmetic::div_mod::lemma_mod_bound(e, 2);
            vstd::arithmetic::div_mod::lemma_div_pos_is_pos(e, 2);
            assert(2 * q + e % 2 == e);
            assert(q <= e - 1);
        }
    }
}

/// The round-robin decrements of a freshly selected list are safe: every
/// entry keeps at least one share.
#[verifier::spinoff_prover]
proof fn lemma_amortize_safe(s: Seq<IndexEntry>, aps: u64, raw: Seq<(Validator, u64)>)
    requires
        aps >= 1,
        raw.len() <= s.len(),
        forall|i: int, j: int|
            0 <= i <= j < s.len() ==> (#[trigger] s[i]).amount >= (#[trigger] s[j]).amount,
        forall|j: int| 0 <= j < raw.len() ==> (#[trigger] s[j]).amount >= aps,
        forall|j: int|
            0 <= j < raw.len() ==> (#[trigger] raw[j]).1 == sel_shares(s[j].amount, aps) as u64,
        forall|j: int|
            0 <= j < raw.len() ==> sum_shares(#[trigger] raw.take(j))
                < MAX_KEY_SHARES_PER_SET as int,
    ensures
        forall|j: int| 0 <= j < raw.len() ==> (#[trigger] raw[j]).1 >= 1,
        forall|j: int|
            0 <= j < raw.len() ==> round_robin_decrements(
                sat_sub(sum_shares(raw), MAX_KEY_SHARES_PER_SET as int),
                raw.len() as int,
                j,
            ) < (#[trigger] raw[j]).1 || round_robin_decrements(
                sat_sub(sum_shares(raw), MAX_KEY_SHARES_PER_SET as int),
                raw.len() as int,
                j,
            ) == 0,
{
    let len = raw.len() as int;
    let excess = sat_sub(sum_shares(raw), MAX_KEY_SHARES_PER_SET as int);
    assert forall|j: int| 0 <= j < len implies (#[trigger] raw[j]).1 >= 1 by {
        vstd::arithmetic::div_mod::lemma_div_non_zero(s[j].amount as int, aps as int);
    }
    assert forall|j: int|
        0 <= j < len implies round_robin_decrements(excess, len, j) < (#[trigger] raw[j]).1
        || round_robin_decrements(excess, len, j) == 0 by {
        if excess > 0 {
            // the excess is under the last entry's shares, which every
            // entry matches or beats
            assert(len > 0);
            let last = len - 1;
            assert(raw.take(last) =~= raw.drop_last());
            assert(sum_shares(raw) == sum_shares(raw.take(last)) + raw[last].1);
            assert(excess <= raw[last].1 - 1);
            vstd::arithmetic::div_mod::lemma_div_is_ordered(
                s[last].amount as int,
                s[j].amount as int,
                aps as int,
            );
            assert(raw[j].1 >= raw[last].1);
            lemma_rr_le_excess(excess, len, j);
        } else {
            vstd::arithmetic::div_mod::lemma_mod_bound(excess, len);
            vstd::arithmetic::div_mod::lemma_div_pos_is_pos(excess, len);
            vstd::arithmetic::div_mod::lemma_div_nonincreasing(excess, len);
            vstd::arithmetic::div_mod::lemma_small_mod(0nat, len as nat);
        }
    }
}

/// Decides the next session's participants: walks the sorted index while
/// the accumulated key shares stay under the cap, then amortizes any excess.
/// Returns the participant list and the total stake it carries.
fn decide_participants(ledger: &StakeLedger, aps: u64) -> (r: (Vec<(Validator, u64)>, u64))
    requires
        ledger.wf(),
        aps >= 1,
        sum_amounts(ledger.index()) <= u64::MAX,
    ensures
        r.0@ == spec_decided(ledger.index(), aps),
        r.1 as int == spec_selected_stake(ledger.index(), aps),
        forall|i: int, j: int|
            0 <= i < j < r.0@.len() ==> (#[trigger] r.0@[i]).0@ != (#[trigger] r.0@[j]).0@,
        sum_shares(r.0@) <= MAX_KEY_SHARES_PER_SET as int,
        sum_shares(spec_selected(ledger.index(), aps)) > MAX_KEY_SHARES_PER_SET as int
            ==> sum_shares(r.0@) == MAX_KEY_SHARES_PER_SET as int,
        r.0@.len() <= MAX_KEY_SHARES_PER_SET as int,
        forall|j: int| 0 <= j < r.0@.len() ==> (#[trigger] r.0@[j]).1 >= 1,
{
    let ghost s = ledger.index();
    proof {
        crate::ledger::lemma_cutoff_properties(s, aps);
        ledger.lemma_amounts_nonincreasing();
    }
    let n = ledger.num_index_rows();
    let mut participants: Vec<(Validator, u64)> = Vec::new();
    let mut total: u64 = 0;
    let mut shares: u64 = 0;
    let mut i: usize = 0;
    while shares < MAX_KEY_SHARES_PER_SET as u64
        invariant_except_break
            s == ledger.index(),
            ledger.wf(),
            aps >= 1,
            sum_amounts(s) <= u64::MAX,
            n == s.len(),
            0 <= i <= n,
            (i as int) <= cutoff(s, aps),
            participants@.len() == i,
            shares == sum_shares(participants@),
            shares <= MAX_KEY_SHARES_PER_SET as u64 + 150,
            total == sum_amounts(s.take(i as int)),
            forall|j: int|
                0 <= j < i ==> #[trigger] participants@[j] == (
                    s[j].validator,
                    sel_shares(s[j].amount, aps) as u64,
                ),
            forall|j: int|
                0 <= j < i ==> sum_shares(#[trigger] participants@.take(j)) < (
                MAX_KEY_SHARES_PER_SET as int),
            spec_selected(s, aps) == participants@ + selected_from(s, aps, i as int, shares as int),
            spec_selected_stake(s, aps) == total + selected_stake_from(
                s,
                aps,
                i as int,
                shares as int,
            ),
        ensures
            s == ledger.index(),
            participants@.len() == i,
            i <= n,
            shares == sum_shares(participants@),
            total == sum_amounts(s.take(i as int)),
            forall|j: int|
                0 <= j < i ==> #[trigger] participants@[j] == (
                    s[j].validator,
                    sel_shares(s[j].amount, aps) as u64,
                ),
            forall|j: int|
                0 <= j < i ==> sum_shares(#[trigger] participants@.take(j)) < (
                MAX_KEY_SHARES_PER_SET as int),
            (i as int) <= cutoff(s, aps),
            i as int >= s.len() || (i as int) >= cutoff(s, aps) || shares as int
                >= MAX_KEY_SHARES_PER_SET as int,
            participants@ == spec_selected(s, aps),
            total as int == spec_selected_stake(s, aps),
        decreases n - i,
    {
        if i >= n {
            break ;
        }
        let entry = ledger.index_row(i);
        if entry.amount < aps {
            proof {
                crate::ledger::lemma_cutoff_properties(s, aps);
                assert(cutoff(s, aps) == i as int);
            }
            break ;
        }
        proof {
            crate::ledger::lemma_cutoff_properties(s, aps);
            assert((i as int) < cutoff(s, aps));
            crate::ledger::lemma_sum_amounts_take_le(s, i as int + 1);
            assert(s.take(i as int + 1).drop_last() =~= s.take(i as int));
            assert(s.take(i as int + 1).last() == s[i as int]);
            vstd::arithmetic::div_mod::lemma_div_pos_is_pos(entry.amount as int, aps as int);
        }
        let mut these = entry.amount / aps;
        if these > MAX_KEY_SHARES_PER_SET as u64 {
            these = MAX_KEY_SHARES_PER_SET as u64;
        }
        let ghost old_participants = participants@;
        let ghost old_shares = shares as int;
        participants.push((entry.validator, these));
        total = total + entry.amount;
        shares = shares + these;
        i += 1;
        proof {
            assert(these as int == sel_shares(s[i as int - 1].amount, aps));
            assert(participants@.drop_last() =~= old_participants);
            assert(sum_shares(participants@) == sum_shares(old_participants) + these);
            assert(participants@ + selected_from(s, aps, i as int, shares as int)
                =~= old_participants + (seq![(s[i as int - 1].validator, these)] + selected_from(
                s,
                aps,
                i as int,
                shares as int,
            )));
            assert forall|j: int|
                0 <= j < i implies sum_shares(#[trigger] participants@.take(j)) < (
            MAX_KEY_SHARES_PER_SET as int) by {
                assert(participants@.take(j) =~= old_participants.take(j));
                if j < i - 1 {
                } else {
                    assert(old_participants.take(i - 1) =~= old_participants);
                }
            }
        }
    }
    proof {
        assert(selected_from(s, aps, i as int, shares as int) =~= Seq::<(Validator, u64)>::empty());
        assert(participants@ + selected_from(s, aps, i as int, shares as int) =~= participants@);
        assert(selected_stake_from(s, aps, i as int, shares as int) == 0);
    }
    let ghost raw = participants@;
    let ghost len = raw.len() as int;
    let ghost excess = sat_sub(sum_shares(raw), MAX_KEY_SHARES_PER_SET as int);
    proof {
        crate::ledger::lemma_cutoff_properties(s, aps);
        ledger.lemma_amounts_nonincreasing();
        assert forall|j: int| 0 <= j < len implies (#[trigger] s[j]).amount >= aps by {
            assert(j < cutoff(s, aps));
        }
        lemma_amortize_safe(s, aps, raw);
    }
    crate::primitives::amortize_excess_key_shares(&mut participants);
    proof {
        if len > 0 {
            assert(participants@ =~= spec_amortize(raw));
        } else {
            assert(participants@ =~= spec_amortize(raw));
        }
        // the amortized list keeps distinct validators and short length
        assert forall|i2: int, j2: int|
            0 <= i2 < j2 < participants@.len() implies (#[trigger] participants@[i2]).0@ != (
        #[trigger] participants@[j2]).0@ by {
            assert(raw[i2].0 == s[i2].validator && raw[j2].0 == s[j2].validator);
            assert(s[i2].validator@ != s[j2].validator@);
        }
        if participants@.len() > 0 {
            // prefix sums below the cap bound the length by the cap
            assert(sum_shares(raw.take(len - 1)) < MAX_KEY_SHARES_PER_SET as int);
            assert forall|j: int| 0 <= j < len - 1 implies (#[trigger] raw.take(len - 1)[j]).1
                >= 1 by {
                assert(raw.take(len - 1)[j] == raw[j]);
            }
            lemma_sum_shares_at_least_len(raw.take(len - 1));
        }
    }
    (participants, total)
}

impl ValidatorSets {
    /// Builds the state at genesis: writes every initial stake to the
    /// ledger, decides session zero's participants, and hands that same set
    /// off as the initial active authority list.
    pub fn new(
        allocation_per_key_share: u64,
        stakes: Vec<(Validator, u64)>,
        genesis_block: u64,
    ) -> (r: ValidatorSets)
        requires
            allocation_per_key_share >= 1,
            forall|i: int, j: int|
                0 <= i < j < stakes@.len() ==> (#[trigger] stakes@[i]).0@ != (
                #[trigger] stakes@[j]).0@,
            sum_shares(stakes@) <= u64::MAX,
        ensures
            r.wf(),
            r.session == 0,
            r.allocation_per_key_share == allocation_per_key_share,
            forall|i: int|
                0 <= i < stakes@.len() ==> r.ledger.alloc_of((#[trigger] stakes@[i]).0@)
                    == stakes@[i].1,
            r.participants@ == spec_decided(r.ledger.index(), allocation_per_key_share),
            r.active@ == r.participants@,
            r.total_allocated_stake as int == spec_selected_stake(
                r.ledger.index(),
                allocation_per_key_share,
            ),
            r.pending@.len() == 0,
            r.disabled@.len() == 0,
            r.begin_blocks@ =~= seq![(0u32, genesis_block)],
    {
        let ghost input = stakes@;
        let mut ledger = StakeLedger::new();
        let n = stakes.len();
        let mut i: usize = 0;
        while i < n
            invariant
                i <= n,
                n == input.len(),
                stakes@ == input,
                forall|a: int, b: int|
                    0 <= a < b < input.len() ==> (#[trigger] input[a]).0@ != (
                    #[trigger] input[b]).0@,
                sum_shares(input) <= u64::MAX,
                ledger.wf(),
                sum_amounts(ledger.index()) == sum_shares(input.take(i as int)),
                forall|j: int|
                    0 <= j < i ==> ledger.alloc_of((#[trigger] input[j]).0@) == input[j].1,
                forall|j: int| i <= j < n ==> !ledger.has_row((#[trigger] input[j]).0@),
            decreases n - i,
        {
            let (v, stake) = stakes[i];
            proof {
                crate::primitives::lemma_sum_shares_take_le(input, i as int + 1);
                assert(input.take(i as int + 1).drop_last() =~= input.take(i as int));
                assert(!ledger.has_row(v@));
            }
            ledger.set_allocation(v, stake);
            i += 1;
        }
        proof {
            assert(input.take(n as int) =~= input);
        }
        let (participants, total) = decide_participants(&ledger, allocation_per_key_share);
        let active = crate::primitives::copy_vec(&participants);
        let mut begin_blocks: Vec<(u32, u64)> = Vec::new();
        begin_blocks.push((0, genesis_block));
        ValidatorSets {
            ledger,
            allocation_per_key_share,
            session: 0,
            participants,
            active,
            total_allocated_stake: total,
            pending: Vec::new(),
            disabled: Vec::new(),
            begin_blocks,
        }
    }

    /// Starts the next session: bumps the session counter, decides the new
    /// participant set from the current stake, caches the stake it carries,
    /// and records the session's starting block height. The prior set stays
    /// active until the handoff.
    pub fn new_session(&mut self, block_number: u64)
        requires
            old(self).wf(),
            old(self).session < u32::MAX,
        ensures
            final(self).wf(),
            final(self).session == old(self).session + 1,
            final(self).participants@ == spec_decided(
                old(self).ledger.index(),
                old(self).allocation_per_key_share,
            ),
            final(self).total_allocated_stake as int == spec_selected_stake(
                old(self).ledger.index(),
                old(self).allocation_per_key_share,
            ),
            final(self).ledger == old(self).ledger,
            final(self).active == old(self).active,
            final(self).pending == old(self).pending,
            final(self).disabled == old(self).disabled,
            final(self).allocation_per_key_share == old(self).allocation_per_key_share,
            final(self).begin_blocks@ == old(self).begin_blocks@.push(
                ((old(self).session + 1) as u32, block_number),
            ),
            sum_shares(final(self).participants@) <= MAX_KEY_SHARES_PER_SET as int,
            sum_shares(spec_selected(old(self).ledger.index(), old(self).allocation_per_key_share))
                > MAX_KEY_SHARES_PER_SET as int ==> sum_shares(final(self).participants@)
                == MAX_KEY_SHARES_PER_SET as int,
    {
        let (participants, total) = decide_participants(&self.ledger, self.allocation_per_key_share);
        self.session = self.session + 1;
        self.participants = participants;
        self.total_allocated_stake = total;
        self.begin_blocks.push((self.session, block_number));
        proof {
            assert forall|a: int, b: int|
                0 <= a < b < self.begin_blocks@.len() implies (#[trigger] self.begin_blocks@[a]).0
                != (#[trigger] self.begin_blocks@[b]).0 by {
                if b < self.begin_blocks@.len() - 1 {
                    assert(old(self).begin_blocks@[a].0 != old(self).begin_blocks@[b].0);
                } else {
                    assert(old(self).begin_blocks@[a].0 <= old(self).session);
                }
            }
        }
    }

    /// The stake the participants of the latest decided set currently hold
    /// in the ledger.
    pub open spec fn participants_stake(&self) -> int {
        crate::ledger::stake_list(self.ledger.index(), self.participants@)
    }

    /// Begins retiring a set: recomputes the cached total allocated stake
    /// as the sum of the current allocations of every participant in the
    /// snapshot, so the cache reflects exactly the set being handed off.
    pub fn retire_set(&mut self, session: Session)
        requires
            old(self).wf(),
        ensures
            final(self).wf(),
            final(self).total_allocated_stake as int == old(self).participants_stake(),
            final(self).ledger == old(self).ledger,
            final(self).participants == old(self).participants,
            final(self).active == old(self).active,
            final(self).pending == old(self).pending,
            final(self).disabled == old(self).disabled,
            final(self).begin_blocks == old(self).begin_blocks,
            final(self).session == old(self).session,
            final(self).allocation_per_key_share == old(self).allocation_per_key_share,
    {
        let ghost s = self.ledger.index();
        let ghost ps = self.participants@;
        let n = self.participants.len();
        let mut total: u64 = 0;
        let mut i: usize = 0;
        while i < n
            invariant
                i <= n,
                n == ps.len(),
                self.wf(),
                self.participants@ == ps,
                s == self.ledger.index(),
                total as int == crate::ledger::stake_list(s, ps.take(i as int)),
                forall|a: int, b: int|
                    0 <= a < b < ps.len() ==> (#[trigger] ps[a]).0@ != (#[trigger] ps[b]).0@,
            decreases n - i,
        {
            proof {
                assert(ps.take(i as int + 1).drop_last() =~= ps.take(i as int));
                assert(ps.take(i as int + 1).last() == ps[i as int]);
                self.ledger.lemma_alloc_is_index_alloc(ps[i as int].0@);
                assert forall|a: int, b: int|
                    0 <= a < b < ps.take(i as int + 1).len() implies (#[trigger] ps.take(
                    i as int + 1,
                )[a]).0@ != (#[trigger] ps.take(i as int + 1)[b]).0@ by {
                    assert(ps.take(i as int + 1)[a] == ps[a] && ps.take(i as int + 1)[b] == ps[b]);
                }
                crate::ledger::lemma_stake_list_le_sum(s, ps.take(i as int + 1));
            }
            let entry = self.participants[i];
            let stake = self.ledger.get_allocation(&entry.0);
            total = total + stake;
            i += 1;
        }
        proof {
            assert(ps.take(n as int) =~= ps);
        }
        self.total_allocated_stake = total;
        // the argument names the retiring session for the caller's event
        // log; the state keeps no per-session retirement record
        let _ = session;
    }

    /// Rotates the sessions at an epoch boundary: the latest decided set
    /// retires (the stake cache now tracks it as the active set), a new
    /// session is decided, the decided set becomes the active authority
    /// list, and the disabled positions are recomputed against it, keeping
    /// only validators still present. Returns what the consensus authority
    /// sinks must learn.
    #[verifier::rlimit(100)]
    pub fn rotate_session(&mut self, block_number: u64) -> (r: SessionHandoff)
        requires
            old(self).wf(),
            old(self).session < u32::MAX,
        ensures
            final(self).wf(),
            r.session.0 == old(self).session + 1,
            final(self).session == old(self).session + 1,
            r.outgoing@ == old(self).participants@,
            r.incoming@ == final(self).participants@,
            final(self).participants@ == spec_decided(
                old(self).ledger.index(),
                old(self).allocation_per_key_share,
            ),
            final(self).active@ == old(self).participants@,
            final(self).ledger == old(self).ledger,
            final(self).pending == old(self).pending,
            final(self).allocation_per_key_share == old(self).allocation_per_key_share,
            final(self).total_allocated_stake as int == spec_selected_stake(
                old(self).ledger.index(),
                old(self).allocation_per_key_share,
            ),
            final(self).begin_blocks@ == old(self).begin_blocks@.push(
                ((old(self).session + 1) as u32, block_number),
            ),
            // the disabled positions carry over exactly the still-present
            // validators, re-indexed against the new active list
            forall|j: int|
                0 <= j < final(self).disabled@.len() ==> in_indexed_list(
                    old(self).disabled@,
                    (#[trigger] final(self).disabled@[j]).1@,
                ),
            forall|i: int|
                0 <= i < old(self).disabled@.len() && final(self).in_active(
                    (#[trigger] old(self).disabled@[i]).1@,
                ) ==> in_indexed_list(final(self).disabled@, old(self).disabled@[i].1@),
    {
        let outgoing = crate::primitives::copy_vec(&self.participants);
        self.retire_set(Session(self.session));
        self.new_session(block_number);
        let incoming = crate::primitives::copy_vec(&self.participants);
        let old_disabled = crate::primitives::copy_vec(&self.disabled);
        self.active = crate::primitives::copy_vec(&outgoing);
        self.disabled = Vec::new();
        proof {
            assert(self.wf());
        }
        self.rebuild_disabled(&old_disabled);
        proof {
            assert(old_disabled@ == old(self).disabled@);
            assert forall|k: int|
                0 <= k < old(self).disabled@.len() && self.in_active(
                (#[trigger] old(self).disabled@[k]).1@,
            ) implies in_indexed_list(self.disabled@, old(self).disabled@[k].1@) by {
                assert(old_disabled@[k].1@ == old(self).disabled@[k].1@);
            }
        }
        SessionHandoff { session: Session(self.session), outgoing, incoming }
    }

    /// Re-disables the still-present validators of a drained disabled list
    /// at their positions in the current active authority list.
    fn rebuild_disabled(&mut self, old_disabled: &Vec<(u32, Validator)>)
        requires
            old(self).wf(),
            old(self).disabled@.len() == 0,
        ensures
            final(self).wf(),
            final(self).ledger == old(self).ledger,
            final(self).participants == old(self).participants,
            final(self).active == old(self).active,
            final(self).pending == old(self).pending,
            final(self).begin_blocks == old(self).begin_blocks,
            final(self).session == old(self).session,
            final(self).allocation_per_key_share == old(self).allocation_per_key_share,
            final(self).total_allocated_stake == old(self).total_allocated_stake,
            forall|j: int|
                0 <= j < final(self).disabled@.len() ==> in_indexed_list(
                    old_disabled@,
                    (#[trigger] final(self).disabled@[j]).1@,
                ),
            forall|k: int|
                0 <= k < old_disabled@.len() && final(self).in_active(
                    (#[trigger] old_disabled@[k]).1@,
                ) ==> in_indexed_list(final(self).disabled@, old_disabled@[k].1@),
    {
        let n = self.active.len();
        let mut p: usize = 0;
        while p < n
            invariant
                p <= n,
                n == self.active@.len(),
                self.active@.len() <= MAX_KEY_SHARES_PER_SET as int,
                self.ledger == old(self).ledger,
                self.participants == old(self).participants,
                self.active == old(self).active,
                self.pending == old(self).pending,
                self.begin_blocks == old(self).begin_blocks,
                self.session == old(self).session,
                self.allocation_per_key_share == old(self).allocation_per_key_share,
                self.total_allocated_stake == old(self).total_allocated_stake,
                forall|j: int| 0 <= j < self.disabled@.len() ==> (#[trigger] self.disabled@[j]).0 < p,
                forall|a: int, b: int|
                    0 <= a < b < self.disabled@.len() ==> (#[trigger] self.disabled@[a]).0 < (
                    #[trigger] self.disabled@[b]).0,
                forall|j: int|
                    0 <= j < self.disabled@.len() ==> (#[trigger] self.disabled@[j]).0
                        < self.active@.len() && self.active@[self.disabled@[j].0 as int].0@
                        == self.disabled@[j].1@,
                forall|j: int|
                    0 <= j < self.disabled@.len() ==> in_indexed_list(
                        old_disabled@,
                        (#[trigger] self.disabled@[j]).1@,
                    ),
                forall|q: int|
                    0 <= q < p && in_indexed_list(old_disabled@, (#[trigger] self.active@[q]).0@)
                        ==> in_indexed_list(self.disabled@, self.active@[q].0@),
            decreases n - p,
        {
            let candidate = self.active[p].0;
            let ghost before = self.disabled@;
            let hit = list_holds_validator(old_disabled, &candidate);
            if hit {
                self.disabled.push((p as u32, candidate));
            }
            proof {
                let d = self.disabled@;
                assert forall|j: int|
                    0 <= j < d.len() implies in_indexed_list(
                    old_disabled@,
                    (#[trigger] d[j]).1@,
                ) by {
                    if j < before.len() {
                        assert(d[j] == before[j]);
                        assert(in_indexed_list(old_disabled@, before[j].1@));
                    } else {
                        assert(d[j].1@ == candidate@);
                    }
                }
                assert forall|q: int|
                    0 <= q < p + 1 && in_indexed_list(
                    old_disabled@,
                    (#[trigger] self.active@[q]).0@,
                ) implies in_indexed_list(d, self.active@[q].0@) by {
                    if q < p {
                        assert(in_indexed_list(before, self.active@[q].0@));
                        let j = choose|j: int|
                            0 <= j < before.len() && before[j].1@ == self.active@[q].0@;
                        assert(d[j] == before[j]);
                        assert(0 <= j < d.len() && d[j].1@ == self.active@[q].0@);
                    } else {
                        assert(self.active@[q].0@ == candidate@);
                        assert(hit);
                        assert(0 <= d.len() - 1 < d.len() && d[d.len() - 1].1@ == candidate@);
                    }
                }
            }
            p += 1;
        }
        proof {
            assert(self.wf());
            assert forall|k: int|
                0 <= k < old_disabled@.len() && self.in_active(
                (#[trigger] old_disabled@[k]).1@,
            ) implies in_indexed_list(self.disabled@, old_disabled@[k].1@) by {
                let q = choose|q: int|
                    0 <= q < self.active@.len() && self.active@[q].0@ == old_disabled@[k].1@;
                assert(0 <= k < old_disabled@.len() && old_disabled@[k].1@
                    == self.active@[q].0@);
                assert(in_indexed_list(old_disabled@, self.active@[q].0@));
                assert(in_indexed_list(self.disabled@, self.active@[q].0@));
            }
        }
    }

    /// Finds a validator's position in the active authority list.
    fn find_active_pos(&self, v: &Validator) -> (r: Option<usize>)
        ensures
            match r {
                Some(p) => p < self.active@.len() && self.active@[p as int].0@ == v@,
                None => !self.in_active(v@),
            },
    {
        let n = self.active.len();
        let mut i: usize = 0;
        while i < n
            invariant
                i <= n,
                n == self.active@.len(),
                forall|j: int| 0 <= j < i ==> (#[trigger] self.active@[j]).0@ != v@,
            decreases n - i,
        {
            if self.active[i].0.eq_id(v) {
                return Some(i);
            }
            i += 1;
        }
        None
    }

    /// The per-block lifecycle hook: when the external session-end trigger
    /// says the epoch is over, rotates the sessions and returns the handoff
    /// for the consensus authority sinks.
    pub fn on_block_start(&mut self, height: u64, end_session: bool) -> (r: Option<SessionHandoff>)
        requires
            old(self).wf(),
            end_session ==> old(self).session < u32::MAX,
        ensures
            final(self).wf(),
            !end_session ==> r.is_none() && ValidatorSets::same_state(old(self), final(self)),
            end_session ==> {
                &&& r.is_some()
                &&& final(self).session == old(self).session + 1
                &&& final(self).participants@ == spec_decided(
                    old(self).ledger.index(),
                    old(self).allocation_per_key_share,
                )
                &&& final(self).active@ == old(self).participants@
                &&& r.unwrap().session.0 == old(self).session + 1
                &&& r.unwrap().outgoing@ == old(self).participants@
                &&& r.unwrap().incoming@ == final(self).participants@
            },
    {
        if end_session {
            Some(self.rotate_session(height))
        } else {
            None
        }
    }

    /// Whether a validator can still be slashed: it is a member of the
    /// active authority set, or it still has a pending deallocation
    /// outstanding.
    pub fn can_slash_validator(&self, validator: &Validator) -> (r: bool)
        ensures
            r == (self.in_active(validator@) || self.pending_any(validator@)),
    {
        let n = self.active.len();
        let mut i: usize = 0;
        while i < n
            invariant
                i <= n,
                n == self.active@.len(),
                forall|j: int| 0 <= j < i ==> (#[trigger] self.active@[j]).0@ != validator@,
            decreases n - i,
        {
            if self.active[i].0.eq_id(validator) {
                return true;
            }
            i += 1;
        }
        let m = self.pending.len();
        let mut k: usize = 0;
        while k < m
            invariant
                k <= m,
                m == self.pending@.len(),
                !self.in_active(validator@),
                forall|j: int| 0 <= j < k ==> (#[trigger] self.pending@[j]).0@ != validator@,
            decreases m - k,
        {
            if self.pending[k].0.eq_id(validator) {
                return true;
            }
            k += 1;
        }
        false
    }

    /// Slashes a validator: zeroes its allocation, drains every pending
    /// deallocation it still has, and returns the total amount forfeited,
    /// which the caller burns from custody. The tracked stake drops by the
    /// slashed validator's still-tracked share when it is in-set.
    pub fn slash_validator(&mut self, validator: Validator) -> (burned: u64)
        requires
            old(self).wf(),
            old(self).session + 3 <= u32::MAX,
            old(self).ledger.alloc_of(validator@) + pending_sum(old(self).pending@, validator@)
                <= u64::MAX,
            old(self).in_participants(validator@) ==> old(self).total_allocated_stake >= old(
                self,
            ).ledger.alloc_of(validator@) + old(self).pending_amount(
                validator@,
                (old(self).session + 3) as u32,
            ),
        ensures
            final(self).wf(),
            burned as int == old(self).ledger.alloc_of(validator@) + pending_sum(
                old(self).pending@,
                validator@,
            ),
            final(self).ledger.alloc_of(validator@) == 0,
            !final(self).ledger.has_row(validator@),
            forall|w: Seq<u8>|
                w != validator@ ==> final(self).ledger.has_row(w) == old(self).ledger.has_row(w)
                    && final(self).ledger.alloc_of(w) == old(self).ledger.alloc_of(w),
            final(self).ledger.index() == crate::ledger::spec_set_index(
                old(self).ledger.index(),
                validator,
                0,
            ),
            old(self).ledger.tags_valid() ==> final(self).ledger.tags_valid(),
            final(self).pending@ == pending_without(old(self).pending@, validator@),
            !final(self).pending_any(validator@),
            final(self).total_allocated_stake == if old(self).in_participants(validator@) {
                (old(self).total_allocated_stake - (old(self).ledger.alloc_of(validator@) + old(
                    self,
                ).pending_amount(validator@, (old(self).session + 3) as u32))) as u64
            } else {
                old(self).total_allocated_stake
            },
            final(self).participants == old(self).participants,
            final(self).active == old(self).active,
            final(self).disabled == old(self).disabled,
            final(self).begin_blocks == old(self).begin_blocks,
            final(self).session == old(self).session,
            final(self).allocation_per_key_share == old(self).allocation_per_key_share,
    {
        let allocation = self.ledger.get_allocation(&validator);
        self.ledger.set_allocation(validator, 0);
        let unlock = self.session_to_unlock_on();
        if self.is_participant(&validator) {
            let current = match self.find_pending(&validator, unlock) {
                Some(i) => {
                    proof {
                        self.lemma_pending_at(i as int);
                        lemma_pending_entry_le_sum(self.pending@, i as int);
                    }
                    self.pending[i].2
                },
                None => 0,
            };
            proof {
                lemma_pending_sum_take_le(self.pending@, validator@, 0);
            }
            self.total_allocated_stake = self.total_allocated_stake - (allocation + current);
        }
        let ghost old_p = self.pending@;
        let mut burned = allocation;
        let mut kept: Vec<(Validator, u32, u64)> = Vec::new();
        let n = self.pending.len();
        let mut i: usize = 0;
        while i < n
            invariant
                i <= n,
                n == old_p.len(),
                self.pending@ == old_p,
                allocation + pending_sum(old_p, validator@) <= u64::MAX,
                burned as int == allocation + pending_sum(old_p.take(i as int), validator@),
                kept@ == pending_without(old_p.take(i as int), validator@),
            decreases n - i,
        {
            proof {
                assert(old_p.take(i as int + 1).drop_last() =~= old_p.take(i as int));
                assert(old_p.take(i as int + 1).last() == old_p[i as int]);
                lemma_pending_sum_take_le(old_p, validator@, i as int + 1);
            }
            let entry = self.pending[i];
            if entry.0.eq_id(&validator) {
                burned = burned + entry.2;
                proof {
                    assert(kept@ =~= pending_without(old_p.take(i as int + 1), validator@));
                }
            } else {
                kept.push(entry);
                proof {
                    assert(kept@ =~= pending_without(old_p.take(i as int + 1), validator@));
                }
            }
            i += 1;
        }
        proof {
            assert(old_p.take(n as int) =~= old_p);
        }
        self.pending = kept;
        proof {
            lemma_pending_without_props(old_p, validator@);
            assert(self.wf());
            if self.pending_any(validator@) {
                let j = choose|j: int|
                    0 <= j < self.pending@.len() && self.pending@[j].0@ == validator@;
            }
        }
        burned
    }

    /// Disables a validator, preventing it from further authoring blocks:
    /// records it at its position in the active authority list. Returns
    /// whether the validator actually was an active authority; otherwise
    /// nothing changes.
    pub fn disable_validator(&mut self, validator: Validator) -> (r: bool)
        requires
            old(self).wf(),
        ensures
            final(self).wf(),
            r == old(self).in_active(validator@),
            !r ==> ValidatorSets::same_state(old(self), final(self)),
            r ==> {
                &&& in_indexed_list(final(self).disabled@, validator@)
                &&& (forall|j: int|
                    0 <= j < final(self).disabled@.len()
                        ==> (#[trigger] final(self).disabled@[j]).1@ == validator@
                        || in_indexed_list(old(self).disabled@, final(self).disabled@[j].1@))
                &&& (forall|i: int|
                    0 <= i < old(self).disabled@.len() && (#[trigger] old(self).disabled@[i]).1@
                        != validator@ ==> in_indexed_list(
                        final(self).disabled@,
                        old(self).disabled@[i].1@,
                    ))
                &&& final(self).ledger == old(self).ledger
                &&& final(self).participants == old(self).participants
                &&& final(self).active == old(self).active
                &&& final(self).pending == old(self).pending
                &&& final(self).begin_blocks == old(self).begin_blocks
                &&& final(self).session == old(self).session
                &&& final(self).total_allocated_stake == old(self).total_allocated_stake
                &&& final(self).allocation_per_key_share == old(self).allocation_per_key_share
            },
    {
        match self.find_active_pos(&validator) {
            None => false,
            Some(p) => {
                let ghost before = self.disabled@;
                let n = self.disabled.len();
                let mut k: usize = 0;
                while k < n
                    invariant
                        k <= n,
                        n == self.disabled@.len(),
                        self.wf(),
                        p < self.active@.len(),
                        self.active@[p as int].0@ == validator@,
                        self.ledger == old(self).ledger,
                        self.participants == old(self).participants,
                        self.active == old(self).active,
                        self.pending == old(self).pending,
                        self.begin_blocks == old(self).begin_blocks,
                        self.session == old(self).session,
                        self.total_allocated_stake == old(self).total_allocated_stake,
                        self.allocation_per_key_share == old(self).allocation_per_key_share,
                        before == old(self).disabled@,
                        self.disabled@ == before,
                        forall|j: int| 0 <= j < k ==> (#[trigger] self.disabled@[j]).0 != p as u32,
                    decreases n - k,
                {
                    if self.disabled[k].0 == p as u32 {
                        // the slot already names this validator: positions
                        // and the active list pin each other
                        proof {
                            assert(self.active@[p as int].0@ == validator@);
                            assert(self.active@[self.disabled@[k as int].0 as int].0@
                                == self.disabled@[k as int].1@);
                        }
                        self.disabled.set(k, (p as u32, validator));
                        proof {
                            assert forall|a: int, b: int|
                                0 <= a < b < self.disabled@.len() implies (
                            #[trigger] self.disabled@[a]).0 != (#[trigger] self.disabled@[b]).0 by {
                                assert(before[a].0 != before[b].0);
                            }
                            assert(self.wf());
                            assert(0 <= k < self.disabled@.len() && self.disabled@[k as int].1@
                                == validator@);
                            assert(in_indexed_list(self.disabled@, validator@));
                            assert forall|i: int|
                                0 <= i < before.len() && (#[trigger] before[i]).1@
                                    != validator@ implies in_indexed_list(
                                self.disabled@,
                                before[i].1@,
                            ) by {
                                assert(i != k as int);
                                assert(self.disabled@[i] == before[i]);
                                assert(0 <= i < self.disabled@.len() && self.disabled@[i].1@
                                    == before[i].1@);
                            }
                            assert forall|j: int|
                                0 <= j < self.disabled@.len() implies (
                            #[trigger] self.disabled@[j]).1@ == validator@ || in_indexed_list(
                                before,
                                self.disabled@[j].1@,
                            ) by {
                                if j != k as int {
                                    assert(self.disabled@[j] == before[j]);
                                }
                            }
                        }
                        return true;
                    }
                    k += 1;
                }
                self.disabled.push((p as u32, validator));
                proof {
                    assert forall|a: int, b: int|
                        0 <= a < b < self.disabled@.len() implies (#[trigger] self.disabled@[a]).0
                        != (#[trigger] self.disabled@[b]).0 by {
                        if b == self.disabled@.len() - 1 {
                            assert(self.disabled@[a] == before[a]);
                        } else {
                            assert(self.disabled@[a] == before[a] && self.disabled@[b]
                                == before[b]);
                        }
                    }
                    assert(self.wf());
                    assert(0 <= self.disabled@.len() - 1 < self.disabled@.len()
                        && self.disabled@[self.disabled@.len() - 1].1@ == validator@);
                    assert(in_indexed_list(self.disabled@, validator@));
                    assert forall|i: int|
                        0 <= i < before.len() && (#[trigger] before[i]).1@
                            != validator@ implies in_indexed_list(
                        self.disabled@,
                        before[i].1@,
                    ) by {
                        assert(self.disabled@[i] == before[i]);
                        assert(0 <= i < self.disabled@.len() && self.disabled@[i].1@
                            == before[i].1@);
                    }
                    assert forall|j: int|
                        0 <= j < self.disabled@.len() implies (#[trigger] self.disabled@[j]).1@
                        == validator@ || in_indexed_list(before, self.disabled@[j].1@) by {
                        if j < before.len() {
                            assert(self.disabled@[j] == before[j]);
                        }
                    }
                }
                true
            },
        }
    }

    /// Whether the authority at a position in the active list is disabled.
    pub fn is_disabled(&self, index: u32) -> (r: bool)
        ensures
            r == exists|j: int|
                0 <= j < self.disabled@.len() && (#[trigger] self.disabled@[j]).0 == index,
    {
        let n = self.disabled.len();
        let mut i: usize = 0;
        while i < n
            invariant
                i <= n,
                n == self.disabled@.len(),
                forall|j: int| 0 <= j < i ==> (#[trigger] self.disabled@[j]).0 != index,
            decreases n - i,
        {
            if self.disabled[i].0 == index {
                return true;
            }
            i += 1;
        }
        false
    }

    /// Handles a reported offence: unconditionally slashes the offender,
    /// then disables it. Returns the amount forfeited, which the caller
    /// burns from custody.
    pub fn report_offence(&mut self, offender: Validator) -> (burned: u64)
        requires
            old(self).wf(),
            old(self).session + 3 <= u32::MAX,
            old(self).ledger.alloc_of(offender@) + pending_sum(old(self).pending@, offender@)
                <= u64::MAX,
            old(self).in_participants(offender@) ==> old(self).total_allocated_stake >= old(
                self,
            ).ledger.alloc_of(offender@) + old(self).pending_amount(
                offender@,
                (old(self).session + 3) as u32,
            ),
        ensures
            final(self).wf(),
            burned as int == old(self).ledger.alloc_of(offender@) + pending_sum(
                old(self).pending@,
                offender@,
            ),
            final(self).ledger.alloc_of(offender@) == 0,
            !final(self).pending_any(offender@),
            old(self).in_active(offender@) ==> in_indexed_list(final(self).disabled@, offender@),
    {
        let burned = self.slash_validator(offender);
        self.disable_validator(offender);
        burned
    }

    /// An offence is already known, and no longer actionable, once none of
    /// its offenders can still be slashed.
    pub fn is_known_offence(&self, offenders: &[Validator]) -> (r: bool)
        ensures
            r == (forall|i: int|
                0 <= i < offenders@.len() ==> !(self.in_active((#[trigger] offenders@[i])@)
                    || self.pending_any(offenders@[i]@))),
    {
        let n = offenders.len();
        let mut i: usize = 0;
        while i < n
            invariant
                i <= n,
                n == offenders@.len(),
                forall|j: int|
                    0 <= j < i ==> !(self.in_active((#[trigger] offenders@[j])@)
                        || self.pending_any(offenders@[j]@)),
            decreases n - i,
        {
            if self.can_slash_validator(&offenders[i]) {
                return false;
            }
            i += 1;
        }
        true
    }

    /// The latest decided session.
    pub fn session(&self) -> (r: Session)
        ensures
            r.0 == self.session,
    {
        Session(self.session)
    }

    /// The allocation required per key share.
    pub fn allocation_per_key_share(&self) -> (r: u64)
        ensures
            r == self.allocation_per_key_share,
    {
        self.allocation_per_key_share
    }

    /// The total stake allocated by the tracked set.
    pub fn total_allocated_stake(&self) -> (r: u64)
        ensures
            r == self.total_allocated_stake,
    {
        self.total_allocated_stake
    }

    /// The current amount allocated by a validator, if any.
    pub fn allocation(&self, v: &Validator) -> (r: Option<u64>)
        requires
            self.wf(),
        ensures
            r == if self.ledger.has_row(v@) {
                Some(self.ledger.alloc_of(v@))
            } else {
                None::<u64>
            },
    {
        self.ledger.allocation(v)
    }

    /// The participants of the latest decided set, with their key shares.
    pub fn participants(&self) -> (r: Vec<(Validator, u64)>)
        ensures
            r@ == self.participants@,
    {
        crate::primitives::copy_vec(&self.participants)
    }

    /// The active authority list, as last handed to consensus.
    pub fn active_authorities(&self) -> (r: Vec<(Validator, u64)>)
        ensures
            r@ == self.active@,
    {
        crate::primitives::copy_vec(&self.active)
    }

    /// The block height a session began at; zero when it never began.
    pub fn session_begin_block(&self, session: Session) -> (r: u64)
        requires
            self.wf(),
        ensures
            r == self.begin_block_of(session.0),
    {
        let n = self.begin_blocks.len();
        let mut i: usize = 0;
        while i < n
            invariant
                i <= n,
                self.wf(),
                n == self.begin_blocks@.len(),
                forall|j: int| 0 <= j < i ==> (#[trigger] self.begin_blocks@[j]).0 != session.0,
            decreases n - i,
        {
            let (key, height) = self.begin_blocks[i];
            if key == session.0 {
                proof {
                    let k = choose|k: int|
                        0 <= k < self.begin_blocks@.len() && self.begin_blocks@[k].0 == session.0;
                    if k != i as int {
                        if k < i as int {
                            assert(self.begin_blocks@[k].0 != self.begin_blocks@[i as int].0);
                        } else {
                            assert(self.begin_blocks@[i as int].0 != self.begin_blocks@[k].0);
                        }
                    }
                }
                return height;
            }
            i += 1;
        }
        0
    }

    /// The pending deallocation of a validator for a session, if any.
    pub fn pending_deallocations(&self, v: &Validator, session: Session) -> (r: Option<u64>)
        requires
            self.wf(),
        ensures
            r == if self.pending_has(v@, session.0) {
                Some(self.pending_amount(v@, session.0))
            } else {
                None::<u64>
            },
    {
        let n = self.pending.len();
        let mut i: usize = 0;
        while i < n
            invariant
                i <= n,
                self.wf(),
                n == self.pending@.len(),
                forall|j: int|
                    0 <= j < i ==> !((#[trigger] self.pending@[j]).0@ == v@ && self.pending@[j].1
                        == session.0),
            decreases n - i,
        {
            let entry = self.pending[i];
            if entry.0.eq_id(v) && entry.1 == session.0 {
                proof {
                    let k = choose|k: int|
                        0 <= k < self.pending@.len() && self.pending@[k].0@ == v@
                            && self.pending@[k].1 == session.0;
                    if k != i as int {
                        if k < i as int {
                            assert(!(self.pending@[k].0@ == self.pending@[i as int].0@
                                && self.pending@[k].1 == self.pending@[i as int].1));
                        } else {
                            assert(!(self.pending@[i as int].0@ == self.pending@[k].0@
                                && self.pending@[i as int].1 == self.pending@[k].1));
                        }
                    }
                }
                return Some(entry.2);
            }
            i += 1;
        }
        None
    }

    /// Whether a validator is among the latest decided participants.
    fn is_participant(&self, v: &Validator) -> (r: bool)
        ensures
            r == self.in_participants(v@),
    {
        let n = self.participants.len();
        let mut i: usize = 0;
        while i < n
            invariant
                i <= n,
                n == self.participants@.len(),
                forall|j: int| 0 <= j < i ==> (#[trigger] self.participants@[j]).0@ != v@,
            decreases n - i,
        {
            if self.participants[i].0.eq_id(v) {
                return true;
            }
            i += 1;
        }
        false
    }

    /// Increases a validator's allocation, enforcing the fault-tolerance
    /// gates: the result must still buy a key share (unless it is a block
    /// reward), must not break an already fault-tolerant distribution, and
    /// must not hand one validator a third of the key-share cap. A rejected
    /// call leaves the state untouched.
    pub fn increase_allocation(
        &mut self,
        validator: Validator,
        amount: u64,
        block_reward: bool,
    ) -> (r: Result<(), Error>)
        requires
            old(self).wf(),
            sum_amounts(old(self).ledger.index()) + amount <= u64::MAX,
            old(self).in_participants(validator@) ==> old(self).total_allocated_stake + amount
                <= u64::MAX,
        ensures
            final(self).wf(),
            ({
                let a0 = old(self).ledger.alloc_of(validator@);
                let aps = old(self).allocation_per_key_share;
                let a1 = (a0 + amount) as u64;
                let insufficient = a1 < aps && !block_reward;
                let boundary = (a0 as int / aps as int) < (a1 as int / aps as int);
                let l1 = crate::ledger::spec_set_index(old(self).ledger.index(), validator, a1);
                let removes_ft = boundary && crate::bft::spec_is_bft(
                    old(self).ledger.index(),
                    aps,
                ) && !crate::bft::spec_is_bft(l1, aps);
                let prevents_ft = (a1 as int / aps as int) >= MAX_KEY_SHARES_PER_SET as int / 3;
                &&& ((r == Err::<(), Error>(Error::InsufficientAllocation)) <==> insufficient)
                &&& (!insufficient ==> ((r == Err::<(), Error>(
                    Error::AllocationWouldRemoveFaultTolerance,
                )) <==> removes_ft))
                &&& ((!insufficient && !removes_ft) ==> ((r == Err::<(), Error>(
                    Error::AllocationWouldPreventFaultTolerance,
                )) <==> prevents_ft))
                &&& (r.is_ok() <==> (!insufficient && !removes_ft && !prevents_ft))
                &&& (r.is_err() ==> ValidatorSets::same_state(old(self), final(self)))
                &&& (r.is_ok() ==> {
                    &&& final(self).ledger.alloc_of(validator@) == a1
                    &&& final(self).ledger.has_row(validator@) == (a1 != 0)
                    &&& (forall|w: Seq<u8>|
                        w != validator@ ==> final(self).ledger.has_row(w) == old(
                            self,
                        ).ledger.has_row(w) && final(self).ledger.alloc_of(w) == old(
                            self,
                        ).ledger.alloc_of(w))
                    &&& final(self).ledger.index() == l1
                    &&& final(self).total_allocated_stake == if old(self).in_participants(
                        validator@,
                    ) {
                        (old(self).total_allocated_stake + amount) as u64
                    } else {
                        old(self).total_allocated_stake
                    }
                    &&& final(self).participants == old(self).participants
                    &&& final(self).active == old(self).active
                    &&& final(self).pending == old(self).pending
                    &&& final(self).disabled == old(self).disabled
                    &&& final(self).begin_blocks == old(self).begin_blocks
                    &&& final(self).session == old(self).session
                    &&& final(self).allocation_per_key_share == aps
                    &&& (old(self).ledger.tags_valid() ==> final(self).ledger.tags_valid())
                })
            }),
    {
        proof {
            self.ledger.lemma_alloc_le_sum(validator@);
        }
        let old_allocation = self.ledger.get_allocation(&validator);
        let new_allocation = old_allocation + amount;
        let aps = self.allocation_per_key_share;
        if new_allocation < aps && !block_reward {
            return Err(Error::InsufficientAllocation);
        }
        let increased_key_shares = old_allocation / aps < new_allocation / aps;
        let mut was_bft = false;
        if increased_key_shares {
            was_bft = crate::bft::is_bft(&self.ledger, aps);
        }
        let saved_rows = crate::primitives::copy_vec(&self.ledger.allocations);
        let saved_index = crate::primitives::copy_vec(&self.ledger.sorted);
        self.ledger.set_allocation(validator, new_allocation);
        if increased_key_shares && was_bft {
            if !crate::bft::is_bft(&self.ledger, aps) {
                self.ledger.allocations = saved_rows;
                self.ledger.sorted = saved_index;
                proof {
                    assert(self.ledger.rows() == old(self).ledger.rows());
                    assert(self.ledger.index() == old(self).ledger.index());
                    assert(self.ledger.wf());
                    assert(self.wf());
                }
                return Err(Error::AllocationWouldRemoveFaultTolerance);
            }
        }
        if new_allocation / aps >= (MAX_KEY_SHARES_PER_SET / 3) as u64 {
            self.ledger.allocations = saved_rows;
            self.ledger.sorted = saved_index;
            proof {
                assert(self.ledger.rows() == old(self).ledger.rows());
                assert(self.ledger.index() == old(self).ledger.index());
                assert(self.ledger.wf());
                assert(self.wf());
            }
            return Err(Error::AllocationWouldPreventFaultTolerance);
        }
        if self.is_participant(&validator) {
            self.total_allocated_stake = self.total_allocated_stake + amount;
        }
        Ok(())
    }

    /// Escrows and allocates stake for a signed validator transaction; the
    /// caller transfers the amount into custody first.
    pub fn allocate(&mut self, validator: Validator, amount: u64) -> (r: Result<(), Error>)
        requires
            old(self).wf(),
            sum_amounts(old(self).ledger.index()) + amount <= u64::MAX,
            old(self).in_participants(validator@) ==> old(self).total_allocated_stake + amount
                <= u64::MAX,
        ensures
            final(self).wf(),
            ({
                let a0 = old(self).ledger.alloc_of(validator@);
                let aps = old(self).allocation_per_key_share;
                let a1 = (a0 + amount) as u64;
                let insufficient = a1 < aps;
                let boundary = (a0 as int / aps as int) < (a1 as int / aps as int);
                let l1 = crate::ledger::spec_set_index(old(self).ledger.index(), validator, a1);
                let removes_ft = boundary && crate::bft::spec_is_bft(
                    old(self).ledger.index(),
                    aps,
                ) && !crate::bft::spec_is_bft(l1, aps);
                let prevents_ft = (a1 as int / aps as int) >= MAX_KEY_SHARES_PER_SET as int / 3;
                &&& ((r == Err::<(), Error>(Error::InsufficientAllocation)) <==> insufficient)
                &&& (!insufficient ==> ((r == Err::<(), Error>(
                    Error::AllocationWouldRemoveFaultTolerance,
                )) <==> removes_ft))
                &&& ((!insufficient && !removes_ft) ==> ((r == Err::<(), Error>(
                    Error::AllocationWouldPreventFaultTolerance,
                )) <==> prevents_ft))
                &&& (r.is_ok() <==> (!insufficient && !removes_ft && !prevents_ft))
                &&& (r.is_err() ==> ValidatorSets::same_state(old(self), final(self)))
                &&& (r.is_ok() ==> {
                    &&& final(self).ledger.alloc_of(validator@) == a1
                    &&& (forall|w: Seq<u8>|
                        w != validator@ ==> final(self).ledger.has_row(w) == old(
                            self,
                        ).ledger.has_row(w) && final(self).ledger.alloc_of(w) == old(
                            self,
                        ).ledger.alloc_of(w))
                    &&& final(self).ledger.index() == l1
                    &&& final(self).total_allocated_stake == if old(self).in_participants(
                        validator@,
                    ) {
                        (old(self).total_allocated_stake + amount) as u64
                    } else {
                        old(self).total_allocated_stake
                    }
                    &&& final(self).participants == old(self).participants
                    &&& final(self).active == old(self).active
                    &&& final(self).pending == old(self).pending
                    &&& final(self).disabled == old(self).disabled
                    &&& final(self).begin_blocks == old(self).begin_blocks
                    &&& final(self).session == old(self).session
                    &&& final(self).allocation_per_key_share == aps
                    &&& (old(self).ledger.tags_valid() ==> final(self).ledger.tags_valid())
                })
            }),
    {
        proof {
            self.ledger.lemma_alloc_le_sum(validator@);
        }
        self.increase_allocation(validator, amount, false)
    }

    /// Credits a block reward to a validator's allocation; the caller
    /// transfers the reward into custody first. Rewards may leave the
    /// allocation under the key-share floor.
    pub fn distribute_block_rewards(&mut self, validator: Validator, amount: u64) -> (r: Result<
        (),
        Error,
    >)
        requires
            old(self).wf(),
            sum_amounts(old(self).ledger.index()) + amount <= u64::MAX,
            old(self).in_participants(validator@) ==> old(self).total_allocated_stake + amount
                <= u64::MAX,
        ensures
            final(self).wf(),
            ({
                let a0 = old(self).ledger.alloc_of(validator@);
                let aps = old(self).allocation_per_key_share;
                let a1 = (a0 + amount) as u64;
                let boundary = (a0 as int / aps as int) < (a1 as int / aps as int);
                let l1 = crate::ledger::spec_set_index(old(self).ledger.index(), validator, a1);
                let removes_ft = boundary && crate::bft::spec_is_bft(
                    old(self).ledger.index(),
                    aps,
                ) && !crate::bft::spec_is_bft(l1, aps);
                let prevents_ft = (a1 as int / aps as int) >= MAX_KEY_SHARES_PER_SET as int / 3;
                &&& ((r == Err::<(), Error>(Error::AllocationWouldRemoveFaultTolerance)) <==> (
                removes_ft))
                &&& (!removes_ft ==> ((r == Err::<(), Error>(
                    Error::AllocationWouldPreventFaultTolerance,
                )) <==> prevents_ft))
                &&& (r.is_ok() <==> (!removes_ft && !prevents_ft))
                &&& (r.is_err() ==> ValidatorSets::same_state(old(self), final(self)))
                &&& (r.is_ok() ==> {
                    &&& final(self).ledger.alloc_of(validator@) == a1
                    &&& (forall|w: Seq<u8>|
                        w != validator@ ==> final(self).ledger.has_row(w) == old(
                            self,
                        ).ledger.has_row(w) && final(self).ledger.alloc_of(w) == old(
                            self,
                        ).ledger.alloc_of(w))
                    &&& final(self).ledger.index() == l1
                    &&& final(self).total_allocated_stake == if old(self).in_participants(
                        validator@,
                    ) {
                        (old(self).total_allocated_stake + amount) as u64
                    } else {
                        old(self).total_allocated_stake
                    }
                    &&& final(self).participants == old(self).participants
                    &&& final(self).active == old(self).active
                    &&& final(self).pending == old(self).pending
                    &&& final(self).disabled == old(self).disabled
                    &&& final(self).begin_blocks == old(self).begin_blocks
                    &&& final(self).session == old(self).session
                    &&& final(self).allocation_per_key_share == aps
                    &&& (old(self).ledger.tags_valid() ==> final(self).ledger.tags_valid())
                })
            }),
    {
        proof {
            self.ledger.lemma_alloc_le_sum(validator@);
        }
        self.increase_allocation(validator, amount, true)
    }

    /// Finds the position of a pending deallocation row.
    fn find_pending(&self, v: &Validator, s: u32) -> (r: Option<usize>)
        ensures
            match r {
                Some(i) => i < self.pending@.len() && self.pending@[i as int].0@ == v@
                    && self.pending@[i as int].1 == s,
                None => !self.pending_has(v@, s),
            },
    {
        let n = self.pending.len();
        let mut i: usize = 0;
        while i < n
            invariant
                i <= n,
                n == self.pending@.len(),
                forall|j: int|
                    0 <= j < i ==> !((#[trigger] self.pending@[j]).0@ == v@ && self.pending@[j].1
                        == s),
            decreases n - i,
        {
            let entry = self.pending[i];
            if entry.0.eq_id(v) && entry.1 == s {
                return Some(i);
            }
            i += 1;
        }
        None
    }

    /// A pending row's key maps to that row's amount.
    proof fn lemma_pending_at(&self, i: int)
        requires
            self.wf(),
            0 <= i < self.pending@.len(),
        ensures
            self.pending_has(self.pending@[i].0@, self.pending@[i].1),
            self.pending_amount(self.pending@[i].0@, self.pending@[i].1) == self.pending@[i].2,
    {
        let v = self.pending@[i].0@;
        let sx = self.pending@[i].1;
        assert(self.pending_has(v, sx));
        let k = choose|k: int|
            0 <= k < self.pending@.len() && self.pending@[k].0@ == v && self.pending@[k].1 == sx;
        if k != i {
            if k < i {
                assert(!(self.pending@[k].0@ == self.pending@[i].0@ && self.pending@[k].1
                    == self.pending@[i].1));
            } else {
                assert(!(self.pending@[i].0@ == self.pending@[k].0@ && self.pending@[i].1
                    == self.pending@[k].1));
            }
        }
    }

    /// The session a deallocation requested now unlocks on: one because
    /// the next set is already decided, one for the decision lag, and one
    /// more as a cooldown.
    fn session_to_unlock_on(&self) -> (r: u32)
        requires
            self.session + 3 <= u32::MAX,
        ensures
            r == self.session + 3,
    {
        self.session + 3
    }

    /// Decreases a validator's allocation. The freed capacity leaves the
    /// sorted index immediately, so it cannot be re-used while the funds
    /// wait out the unlock delay; an in-set validator's funds only become
    /// claimable three sessions later. Returns whether the amount is
    /// immediately eligible for deallocation.
    pub fn decrease_allocation(&mut self, account: Validator, amount: u64) -> (r: Result<
        bool,
        Error,
    >)
        requires
            old(self).wf(),
            old(self).spec_in_set(account@) ==> old(self).session + 3 <= u32::MAX && old(
                self,
            ).pending_amount(account@, (old(self).session + 3) as u32) + amount <= u64::MAX,
        ensures
            final(self).wf(),
            ({
                let a0 = old(self).ledger.alloc_of(account@);
                let aps = old(self).allocation_per_key_share;
                let has = old(self).ledger.has_row(account@);
                let underflow = amount > a0;
                let a1 = (a0 - amount) as u64;
                let removes_participant = a1 != 0 && a1 < aps;
                let boundary = (a0 as int / aps as int) > (a1 as int / aps as int);
                let l1 = crate::ledger::spec_set_index(old(self).ledger.index(), account, a1);
                let removes_ft = boundary && crate::bft::spec_is_bft(
                    old(self).ledger.index(),
                    aps,
                ) && !crate::bft::spec_is_bft(l1, aps);
                let in_set = old(self).spec_in_set(account@);
                let unlock = (old(self).session + 3) as u32;
                &&& ((r == Err::<bool, Error>(Error::NonExistentValidator)) <==> !has)
                &&& (has ==> ((r == Err::<bool, Error>(Error::NotEnoughAllocated)) <==> underflow))
                &&& ((has && !underflow) ==> ((r == Err::<bool, Error>(
                    Error::DeallocationWouldRemoveParticipant,
                )) <==> removes_participant))
                &&& ((has && !underflow && !removes_participant) ==> ((r == Err::<bool, Error>(
                    Error::DeallocationWouldRemoveFaultTolerance,
                )) <==> removes_ft))
                &&& (r.is_ok() <==> (has && !underflow && !removes_participant && !removes_ft))
                &&& (r.is_err() ==> ValidatorSets::same_state(old(self), final(self)))
                &&& (r.is_ok() ==> r == Ok::<bool, Error>(!in_set))
                &&& (r.is_ok() ==> {
                    &&& final(self).ledger.alloc_of(account@) == a1
                    &&& final(self).ledger.has_row(account@) == (a1 != 0)
                    &&& (forall|w: Seq<u8>|
                        w != account@ ==> final(self).ledger.has_row(w) == old(
                            self,
                        ).ledger.has_row(w) && final(self).ledger.alloc_of(w) == old(
                            self,
                        ).ledger.alloc_of(w))
                    &&& final(self).ledger.index() == l1
                    &&& (old(self).ledger.tags_valid() ==> final(self).ledger.tags_valid())
                    &&& final(self).total_allocated_stake == old(self).total_allocated_stake
                    &&& final(self).participants == old(self).participants
                    &&& final(self).active == old(self).active
                    &&& final(self).disabled == old(self).disabled
                    &&& final(self).begin_blocks == old(self).begin_blocks
                    &&& final(self).session == old(self).session
                    &&& final(self).allocation_per_key_share == aps
                    &&& (!in_set ==> final(self).pending == old(self).pending)
                    &&& (in_set ==> {
                        &&& final(self).pending_has(account@, unlock)
                        &&& final(self).pending_amount(account@, unlock) == old(
                            self,
                        ).pending_amount(account@, unlock) + amount
                        &&& (forall|w: Seq<u8>, sx: u32|
                            !(w == account@ && sx == unlock) ==> final(self).pending_has(w, sx)
                                == old(self).pending_has(w, sx) && final(self).pending_amount(
                                w,
                                sx,
                            ) == old(self).pending_amount(w, sx))
                    })
                })
            }),
    {
        proof {
            self.ledger.lemma_alloc_le_sum(account@);
        }
        let old_allocation = self.ledger.get_allocation(&account);
        if old_allocation == 0 {
            return Err(Error::NonExistentValidator);
        }
        if amount > old_allocation {
            return Err(Error::NotEnoughAllocated);
        }
        let new_allocation = old_allocation - amount;
        let aps = self.allocation_per_key_share;
        if new_allocation != 0 && new_allocation < aps {
            return Err(Error::DeallocationWouldRemoveParticipant);
        }
        let decreased_key_shares = old_allocation / aps > new_allocation / aps;
        let mut was_bft = false;
        if decreased_key_shares {
            was_bft = crate::bft::is_bft(&self.ledger, aps);
        }
        let saved_rows = crate::primitives::copy_vec(&self.ledger.allocations);
        let saved_index = crate::primitives::copy_vec(&self.ledger.sorted);
        self.ledger.set_allocation(account, new_allocation);
        if decreased_key_shares && was_bft {
            if !crate::bft::is_bft(&self.ledger, aps) {
                self.ledger.allocations = saved_rows;
                self.ledger.sorted = saved_index;
                proof {
                    assert(self.ledger.rows() == old(self).ledger.rows());
                    assert(self.ledger.index() == old(self).ledger.index());
                    assert(self.ledger.wf());
                    assert(self.wf());
                }
                return Err(Error::DeallocationWouldRemoveFaultTolerance);
            }
        }
        if !self.in_set(&account) {
            return Ok(true);
        }
        let to_unlock_on = self.session_to_unlock_on();
        let ghost old_pending = self.pending@;
        match self.find_pending(&account, to_unlock_on) {
            Some(i) => {
                proof {
                    self.lemma_pending_at(i as int);
                }
                let entry = self.pending[i];
                let bumped = entry.2 + amount;
                self.pending.set(i, (account, to_unlock_on, bumped));
                proof {
                    assert forall|a: int, b: int|
                        0 <= a < b < self.pending@.len() implies !((
                    #[trigger] self.pending@[a]).0@ == (#[trigger] self.pending@[b]).0@
                        && self.pending@[a].1 == self.pending@[b].1) by {
                        assert(!(old_pending[a].0@ == old_pending[b].0@ && old_pending[a].1
                            == old_pending[b].1));
                    }
                    assert(self.wf());
                    assert(self.pending@[i as int].0@ == account@ && self.pending@[i as int].1
                        == to_unlock_on);
                    self.lemma_pending_at(i as int);
                    assert forall|w: Seq<u8>, sx: u32|
                        !(w == account@ && sx == to_unlock_on) implies self.pending_has(w, sx)
                        == old(self).pending_has(w, sx) && self.pending_amount(w, sx) == old(
                        self,
                    ).pending_amount(w, sx) by {
                        if old(self).pending_has(w, sx) {
                            let k = choose|k: int|
                                0 <= k < old_pending.len() && old_pending[k].0@ == w
                                    && old_pending[k].1 == sx;
                            assert(k != i as int);
                            assert(self.pending@[k].0@ == w && self.pending@[k].1 == sx);
                            self.lemma_pending_at(k);
                            old(self).lemma_pending_at(k);
                        }
                        if self.pending_has(w, sx) {
                            let k = choose|k: int|
                                0 <= k < self.pending@.len() && self.pending@[k].0@ == w
                                    && self.pending@[k].1 == sx;
                            assert(k != i as int);
                            assert(old_pending[k].0@ == w && old_pending[k].1 == sx);
                            assert(old(self).pending_has(w, sx));
                        }
                    }
                }
            },
            None => {
                self.pending.push((account, to_unlock_on, amount));
                proof {
                    let np = self.pending@;
                    assert forall|a: int, b: int|
                        0 <= a < b < np.len() implies !((#[trigger] np[a]).0@ == (
                    #[trigger] np[b]).0@ && np[a].1 == np[b].1) by {
                        if b == np.len() - 1 {
                            assert(np[a] == old_pending[a]);
                        } else {
                            assert(np[a] == old_pending[a] && np[b] == old_pending[b]);
                        }
                    }
                    assert(self.wf());
                    assert(np[np.len() - 1].0@ == account@ && np[np.len() - 1].1 == to_unlock_on);
                    self.lemma_pending_at(np.len() as int - 1);
                    assert forall|w: Seq<u8>, sx: u32|
                        !(w == account@ && sx == to_unlock_on) implies self.pending_has(w, sx)
                        == old(self).pending_has(w, sx) && self.pending_amount(w, sx) == old(
                        self,
                    ).pending_amount(w, sx) by {
                        if old(self).pending_has(w, sx) {
                            let k = choose|k: int|
                                0 <= k < old_pending.len() && old_pending[k].0@ == w
                                    && old_pending[k].1 == sx;
                            assert(np[k].0@ == w && np[k].1 == sx);
                            self.lemma_pending_at(k);
                            old(self).lemma_pending_at(k);
                        }
                        if self.pending_has(w, sx) {
                            let k = choose|k: int|
                                0 <= k < np.len() && np[k].0@ == w && np[k].1 == sx;
                            assert(k != np.len() - 1);
                            assert(old_pending[k].0@ == w && old_pending[k].1 == sx);
                            assert(old(self).pending_has(w, sx));
                        }
                    }
                }
            },
        }
        Ok(false)
    }

    /// Deallocates stake for a signed validator transaction. When the
    /// result says the amount is immediately claimable, the caller returns
    /// the funds from custody at once; otherwise they wait in the pending
    /// queue.
    pub fn deallocate(&mut self, account: Validator, amount: u64) -> (r: Result<bool, Error>)
        requires
            old(self).wf(),
            old(self).spec_in_set(account@) ==> old(self).session + 3 <= u32::MAX && old(
                self,
            ).pending_amount(account@, (old(self).session + 3) as u32) + amount <= u64::MAX,
        ensures
            final(self).wf(),
            ({
                let a0 = old(self).ledger.alloc_of(account@);
                let aps = old(self).allocation_per_key_share;
                let has = old(self).ledger.has_row(account@);
                let underflow = amount > a0;
                let a1 = (a0 - amount) as u64;
                let removes_participant = a1 != 0 && a1 < aps;
                let boundary = (a0 as int / aps as int) > (a1 as int / aps as int);
                let l1 = crate::ledger::spec_set_index(old(self).ledger.index(), account, a1);
                let removes_ft = boundary && crate::bft::spec_is_bft(
                    old(self).ledger.index(),
                    aps,
                ) && !crate::bft::spec_is_bft(l1, aps);
                let in_set = old(self).spec_in_set(account@);
                let unlock = (old(self).session + 3) as u32;
                &&& ((r == Err::<bool, Error>(Error::NonExistentValidator)) <==> !has)
                &&& (has ==> ((r == Err::<bool, Error>(Error::NotEnoughAllocated)) <==> underflow))
                &&& ((has && !underflow) ==> ((r == Err::<bool, Error>(
                    Error::DeallocationWouldRemoveParticipant,
                )) <==> removes_participant))
                &&& ((has && !underflow && !removes_participant) ==> ((r == Err::<bool, Error>(
                    Error::DeallocationWouldRemoveFaultTolerance,
                )) <==> removes_ft))
                &&& (r.is_ok() <==> (has && !underflow && !removes_participant && !removes_ft))
                &&& (r.is_err() ==> ValidatorSets::same_state(old(self), final(self)))
                &&& (r.is_ok() ==> r == Ok::<bool, Error>(!in_set))
                &&& (r.is_ok() ==> {
                    &&& final(self).ledger.alloc_of(account@) == a1
                    &&& (forall|w: Seq<u8>|
                        w != account@ ==> final(self).ledger.has_row(w) == old(
                            self,
                        ).ledger.has_row(w) && final(self).ledger.alloc_of(w) == old(
                            self,
                        ).ledger.alloc_of(w))
                    &&& final(self).ledger.index() == l1
                    &&& (old(self).ledger.tags_valid() ==> final(self).ledger.tags_valid())
                    &&& final(self).total_allocated_stake == old(self).total_allocated_stake
                    &&& final(self).participants == old(self).participants
                    &&& final(self).active == old(self).active
                    &&& final(self).disabled == old(self).disabled
                    &&& final(self).begin_blocks == old(self).begin_blocks
                    &&& final(self).session == old(self).session
                    &&& final(self).allocation_per_key_share == aps
                    &&& (!in_set ==> final(self).pending == old(self).pending)
                    &&& (in_set ==> {
                        &&& final(self).pending_has(account@, unlock)
                        &&& final(self).pending_amount(account@, unlock) == old(
                            self,
                        ).pending_amount(account@, unlock) + amount
                        &&& (forall|w: Seq<u8>, sx: u32|
                            !(w == account@ && sx == unlock) ==> final(self).pending_has(w, sx)
                                == old(self).pending_has(w, sx) && final(self).pending_amount(
                                w,
                                sx,
                            ) == old(self).pending_amount(w, sx))
                    })
                })
            }),
    {
        self.decrease_allocation(account, amount)
    }

    /// Claims a deallocation that has reached its unlock session; the
    /// caller then returns exactly the claimed amount from custody. A
    /// second claim for the same validator and session fails.
    pub fn claim_deallocation(&mut self, account: Validator, session: Session) -> (r: Result<
        u64,
        Error,
    >)
        requires
            old(self).wf(),
        ensures
            final(self).wf(),
            r.is_ok() <==> old(self).pending_has(account@, session.0),
            r.is_err() ==> r == Err::<u64, Error>(Error::NonExistentDeallocation)
                && ValidatorSets::same_state(old(self), final(self)),
            r.is_ok() ==> {
                &&& r == Ok::<u64, Error>(old(self).pending_amount(account@, session.0))
                &&& !final(self).pending_has(account@, session.0)
                &&& (forall|w: Seq<u8>, sx: u32|
                    !(w == account@ && sx == session.0) ==> final(self).pending_has(w, sx) == old(
                        self,
                    ).pending_has(w, sx) && final(self).pending_amount(w, sx) == old(
                        self,
                    ).pending_amount(w, sx))
                &&& final(self).ledger == old(self).ledger
                &&& final(self).participants == old(self).participants
                &&& final(self).active == old(self).active
                &&& final(self).total_allocated_stake == old(self).total_allocated_stake
                &&& final(self).disabled == old(self).disabled
                &&& final(self).begin_blocks == old(self).begin_blocks
                &&& final(self).session == old(self).session
                &&& final(self).allocation_per_key_share == old(self).allocation_per_key_share
            },
    {
        let ghost old_pending = self.pending@;
        match self.find_pending(&account, session.0) {
            None => {
                proof {
                    assert(!old(self).pending_has(account@, session.0));
                }
                Err(Error::NonExistentDeallocation)
            },
            Some(i) => {
                let entry = self.pending[i];
                proof {
                    self.lemma_pending_at(i as int);
                    old_pending.remove_ensures(i as int);
                }
                self.pending.remove(i);
                proof {
                    let np = self.pending@;
                    assert forall|a: int, b: int|
                        0 <= a < b < np.len() implies !((#[trigger] np[a]).0@ == (
                    #[trigger] np[b]).0@ && np[a].1 == np[b].1) by {
                        let ao = if a < i as int {
                            a
                        } else {
                            a + 1
                        };
                        let bo = if b < i as int {
                            b
                        } else {
                            b + 1
                        };
                        assert(np[a] == old_pending[ao] && np[b] == old_pending[bo]);
                        assert(!(old_pending[ao].0@ == old_pending[bo].0@ && old_pending[ao].1
                            == old_pending[bo].1));
                    }
                    assert(self.wf());
                    assert forall|j: int|
                        0 <= j < np.len() implies !((#[trigger] np[j]).0@ == account@ && np[j].1
                        == session.0) by {
                        let jo = if j < i as int {
                            j
                        } else {
                            j + 1
                        };
                        assert(np[j] == old_pending[jo]);
                        if jo != i as int {
                            assert(!(old_pending[jo].0@ == old_pending[i as int].0@
                                && old_pending[jo].1 == old_pending[i as int].1));
                        }
                    }
                    assert(!self.pending_has(account@, session.0));
                    assert forall|w: Seq<u8>, sx: u32|
                        !(w == account@ && sx == session.0) implies self.pending_has(w, sx)
                        == old(self).pending_has(w, sx) && self.pending_amount(w, sx) == old(
                        self,
                    ).pending_amount(w, sx) by {
                        if old(self).pending_has(w, sx) {
                            let k = choose|k: int|
                                0 <= k < old_pending.len() && old_pending[k].0@ == w
                                    && old_pending[k].1 == sx;
                            assert(k != i as int);
                            let kn = if k < i as int {
                                k
                            } else {
                                k - 1
                            };
                            assert(np[kn] == old_pending[k]);
                            self.lemma_pending_at(kn);
                            old(self).lemma_pending_at(k);
                        }
                        if self.pending_has(w, sx) {
                            let k = choose|k: int|
                                0 <= k < np.len() && np[k].0@ == w && np[k].1 == sx;
                            let ko = if k < i as int {
                                k
                            } else {
                                k + 1
                            };
                            assert(np[k] == old_pending[ko]);
                            assert(old(self).pending_has(w, sx));
                        }
                    }
                }
                Ok(entry.2)
            },
        }
    }

    /// Returns true if the validator has been definitively included in an
    /// active or upcoming set.
    pub fn in_set(&self, v: &Validator) -> (r: bool)
        ensures
            r == self.spec_in_set(v@),
    {
        let n = self.participants.len();
        let mut i: usize = 0;
        while i < n
            invariant
                i <= n,
                n == self.participants@.len(),
                forall|j: int| 0 <= j < i ==> (#[trigger] self.participants@[j]).0@ != v@,
            decreases n - i,
        {
            if self.participants[i].0.eq_id(v) {
                return true;
            }
            i += 1;
        }
        let m = self.active.len();
        let mut k: usize = 0;
        while k < m
            invariant
                k <= m,
                m == self.active@.len(),
                forall|j: int| 0 <= j < k ==> (#[trigger] self.active@[j]).0@ != v@,
            decreases m - k,
        {
            if self.active[k].0.eq_id(v) {
                return true;
            }
            k += 1;
        }
        false
    }
}

} // verus!

