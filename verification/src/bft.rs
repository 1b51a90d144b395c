//! The fault-tolerance evaluator: whether the network survives any single
//! validator becoming byzantine.

use vstd::prelude::*;
use crate::ledger::{cutoff, sum_amounts, IndexEntry, StakeLedger};
use crate::primitives::{
    post_amortization_key_shares_for_top_validator, sat_sub, MAX_KEY_SHARES_PER_SET,
};

verus! {

/// Key shares accumulated over the first `n` index rows.
pub open spec fn prefix_shares(s: Seq<IndexEntry>, aps: u64, n: int) -> int
    decreases n,
{
    if n <= 0 {
        0
    } else {
        prefix_shares(s, aps, n - 1) + s[n - 1].amount as int / aps as int
    }
}

/// How far the fault-tolerance scan walks from position `k` on: it stops at
/// the iterator's cutoff, or right after the accumulated shares first exceed
/// the cap.
pub open spec fn scan_count_from(s: Seq<IndexEntry>, aps: u64, k: int) -> int
    decreases s.len() - k,
{
    if k >= cutoff(s, aps) || k >= s.len() || prefix_shares(s, aps, k)
        > MAX_KEY_SHARES_PER_SET as int {
        k
    } else {
        scan_count_from(s, aps, k + 1)
    }
}

/// How many index rows the fault-tolerance scan visits.
pub open spec fn scan_count(s: Seq<IndexEntry>, aps: u64) -> int {
    scan_count_from(s, aps, 0)
}

/// Whether the stake distribution is fault tolerant: after walking the
/// descending-stake run (stopping early once the accumulated key shares
/// exceed the cap), the top validator's post-amortization share estimate
/// must stay under a third of the capped total. An empty run is not fault
/// tolerant.
pub open spec fn spec_is_bft(s: Seq<IndexEntry>, aps: u64) -> bool {
    let k = scan_count(s, aps);
    if k == 0 {
        false
    } else {
        let top = s[0].amount as int / aps as int;
        let ks = prefix_shares(s, aps, k);
        let cap = if ks < MAX_KEY_SHARES_PER_SET as int {
            ks
        } else {
            MAX_KEY_SHARES_PER_SET as int
        };
        3 * (top - sat_sub(ks, MAX_KEY_SHARES_PER_SET as int) / k) < cap
    }
}

/// Each share term is at most its amount, so accumulated shares stay under
/// the accumulated amounts.
proof fn lemma_prefix_shares_le_sum(s: Seq<IndexEntry>, aps: u64, n: int)
    requires
        aps >= 1,
        0 <= n <= s.len(),
    ensures
        prefix_shares(s, aps, n) <= sum_amounts(s.take(n)),
        0 <= prefix_shares(s, aps, n),
    decreases n,
{
    if n > 0 {
        lemma_prefix_shares_le_sum(s, aps, n - 1);
        assert(s.take(n).drop_last() =~= s.take(n - 1));
        assert(s.take(n).last() == s[n - 1]);
        vstd::arithmetic::div_mod::lemma_div_pos_is_pos(s[n - 1].amount as int, aps as int);
        vstd::arithmetic::div_mod::lemma_div_nonincreasing(s[n - 1].amount as int, aps as int);
    }
}

/// Returns whether the network is able to survive any single validator
/// becoming byzantine.
pub fn is_bft(ledger: &StakeLedger, allocation_per_key_share: u64) -> (r: bool)
    requires
        ledger.wf(),
        allocation_per_key_share >= 1,
        sum_amounts(ledger.index()) <= u64::MAX,
    ensures
        r == spec_is_bft(ledger.index(), allocation_per_key_share),
{
    let ghost s = ledger.index();
    let ghost aps_g = allocation_per_key_share;
    let aps = allocation_per_key_share;
    proof {
        crate::ledger::lemma_cutoff_properties(s, aps);
        ledger.lemma_amounts_nonincreasing();
    }
    let n = ledger.num_index_rows();
    let mut validators_len: usize = 0;
    let mut top: u64 = 0;
    let mut key_shares: u64 = 0;
    while validators_len < n
        invariant_except_break
            n == s.len(),
            s == ledger.index(),
            aps == aps_g,
            ledger.wf(),
            aps >= 1,
            sum_amounts(s) <= u64::MAX,
            0 <= validators_len <= n,
            (validators_len as int) <= cutoff(s, aps),
            key_shares <= MAX_KEY_SHARES_PER_SET as u64,
            key_shares == prefix_shares(s, aps, validators_len as int),
            validators_len > 0 ==> prefix_shares(s, aps, validators_len as int - 1)
                <= MAX_KEY_SHARES_PER_SET as int,
            scan_count(s, aps) == scan_count_from(s, aps, validators_len as int),
            validators_len > 0 ==> top == s[0].amount as int / aps as int,
        ensures
            0 <= validators_len <= n,
            key_shares == prefix_shares(s, aps, validators_len as int),
            validators_len > 0 ==> top == s[0].amount as int / aps as int,
            validators_len > 0 ==> prefix_shares(s, aps, validators_len as int - 1)
                <= MAX_KEY_SHARES_PER_SET as int,
            scan_count(s, aps) == validators_len as int,
        decreases n - validators_len,
    {
        let entry = ledger.index_row(validators_len);
        if entry.amount < aps {
            proof {
                crate::ledger::lemma_cutoff_properties(s, aps);
                // row `validators_len` is under the floor, so the cutoff is here
                assert(cutoff(s, aps) == validators_len as int);
                assert(scan_count_from(s, aps, validators_len as int) == validators_len as int);
            }
            break ;
        }
        proof {
            crate::ledger::lemma_cutoff_properties(s, aps);
            // this row holds the floor, so the cutoff lies further on
            assert((validators_len as int) < cutoff(s, aps));
            // the scan does not stop here
            assert(scan_count_from(s, aps, validators_len as int) == scan_count_from(
                s,
                aps,
                validators_len as int + 1,
            ));
            lemma_prefix_shares_le_sum(s, aps, validators_len as int + 1);
            crate::ledger::lemma_sum_amounts_take_le(s, validators_len as int + 1);
            vstd::arithmetic::div_mod::lemma_div_pos_is_pos(entry.amount as int, aps as int);
        }
        let these = entry.amount / aps;
        key_shares = key_shares + these;
        if validators_len == 0 {
            top = key_shares;
        }
        validators_len += 1;
        if key_shares > MAX_KEY_SHARES_PER_SET as u64 {
            proof {
                assert(scan_count_from(s, aps, validators_len as int) == validators_len as int);
            }
            break ;
        }
    }
    if validators_len == 0 {
        return false;
    }
    proof {
        // the surplus over the cap is at most the last share term, which the
        // descending order bounds by the top share
        let k = validators_len as int;
        assert(prefix_shares(s, aps, k) == prefix_shares(s, aps, k - 1) + s[k - 1].amount as int
            / aps as int);
        vstd::arithmetic::div_mod::lemma_div_is_ordered(
            s[k - 1].amount as int,
            s[0].amount as int,
            aps as int,
        );
        vstd::arithmetic::div_mod::lemma_div_pos_is_pos(
            sat_sub(key_shares as int, MAX_KEY_SHARES_PER_SET as int),
            k,
        );
        vstd::arithmetic::div_mod::lemma_div_nonincreasing(
            sat_sub(key_shares as int, MAX_KEY_SHARES_PER_SET as int),
            k,
        );
    }
    let top_after = post_amortization_key_shares_for_top_validator(
        validators_len,
        top,
        key_shares,
    );
    let cap = if key_shares < MAX_KEY_SHARES_PER_SET as u64 {
        key_shares
    } else {
        MAX_KEY_SHARES_PER_SET as u64
    };
    // widened so the triple never overflows
    ((top_after as u128) * 3) < (cap as u128)
}

} // verus!
