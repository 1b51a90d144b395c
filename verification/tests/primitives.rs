use validator_sets::hashing::blake2_128;
use validator_sets::ledger::StakeLedger;
use validator_sets::primitives::{
    amortize_excess_key_shares, post_amortization_key_shares_for_top_validator,
    reverse_lexicographic_order, system_address, Validator, WikiblocksAddress,
};

fn vid(b: u8) -> Validator {
    Validator([b; 32])
}

#[test]
fn address() {
    // the module address is the name, zero-extended to 32 bytes
    let mut expected = [0u8; 32];
    expected[.."Coins-fees".len()].copy_from_slice(b"Coins-fees");
    assert_eq!(system_address(b"Coins-fees"), WikiblocksAddress(expected));
}

#[test]
fn wraps_raw_key() {
    let raw = [7u8; 32];
    assert_eq!(WikiblocksAddress::new(raw).0, raw);
}

#[test]
fn test_reverse_lexicographic_order() {
    // a fixed-seed generator stands in for the random amounts
    let mut state: u64 = 0x2545_f491_4f6c_dd1d;
    let mut amounts = vec![];
    for _ in 0..100 {
        state = state.wrapping_mul(6364136223846793005).wrapping_add(1442695040888963407);
        amounts.push(state);
    }

    let mut plain: Vec<[u8; 8]> = amounts.iter().map(|a| a.to_be_bytes()).collect();
    let mut reversed: Vec<[u8; 8]> =
        amounts.iter().map(|a| reverse_lexicographic_order(a.to_be_bytes())).collect();

    // ascending order over the complemented keys is descending order over
    // the plain keys
    plain.sort();
    reversed.sort();
    let total_size = amounts.len();
    for i in 0..total_size {
        let back = reverse_lexicographic_order(reversed[i]);
        assert_eq!(plain[total_size - 1 - i], back);
    }
}

#[test]
fn amortize_leaves_small_sets_alone() {
    let mut validators = vec![(vid(1), 100u64), (vid(2), 50u64)];
    amortize_excess_key_shares(&mut validators);
    assert_eq!(validators, vec![(vid(1), 100), (vid(2), 50)]);
}

#[test]
fn amortize_walks_excess_off_backwards() {
    // 100 + 60 = 160 shares, ten over the cap: five land on each entry
    let mut validators = vec![(vid(1), 100u64), (vid(2), 60u64)];
    amortize_excess_key_shares(&mut validators);
    assert_eq!(validators, vec![(vid(1), 95), (vid(2), 55)]);
    // 149 + 4: three land on the last entry, none further forward
    let mut validators = vec![(vid(1), 149u64), (vid(2), 4u64)];
    amortize_excess_key_shares(&mut validators);
    assert_eq!(validators, vec![(vid(1), 148), (vid(2), 2)]);
}

#[test]
fn post_amortization_top_shares() {
    // no surplus: the top validator keeps everything
    assert_eq!(post_amortization_key_shares_for_top_validator(4, 10, 140), 10);
    // a surplus of 20 across 4 validators costs the top one 5
    assert_eq!(post_amortization_key_shares_for_top_validator(4, 50, 170), 45);
}

#[test]
fn blake2_wrapper_hashes() {
    let a = blake2_128(b"");
    let b = blake2_128(b"validator");
    let c = blake2_128(b"validator");
    assert_ne!(a, b);
    assert_eq!(b, c);
    assert_eq!(b.len(), 16);
}

#[test]
fn ledger_mirrors_allocations_in_the_index() {
    // an index row exists for a validator and amount exactly while the
    // allocation row does, and iteration comes out highest first
    let mut ledger = StakeLedger::new();
    assert!(!ledger.set_allocation(vid(1), 300));
    assert!(!ledger.set_allocation(vid(2), 500));
    assert!(!ledger.set_allocation(vid(3), 100));
    assert_eq!(ledger.get_allocation(&vid(1)), 300);
    assert_eq!(ledger.allocation(&vid(9)), None);

    let rows = ledger.iterate_by_stake_desc(0);
    assert_eq!(rows.len(), 3);
    assert_eq!(rows[0], (vid(2), 500));
    assert_eq!(rows[1], (vid(1), 300));
    assert_eq!(rows[2], (vid(3), 100));

    // overwriting moves the row; zeroing removes it
    assert!(ledger.set_allocation(vid(3), 600));
    let rows = ledger.iterate_by_stake_desc(0);
    assert_eq!(rows[0], (vid(3), 600));
    assert!(ledger.set_allocation(vid(2), 0));
    assert_eq!(ledger.allocation(&vid(2)), None);
    let rows = ledger.iterate_by_stake_desc(0);
    assert_eq!(rows.len(), 2);

    // the floor cuts the run where amounts fall under it
    let rows = ledger.iterate_by_stake_desc(400);
    assert_eq!(rows, vec![(vid(3), 600)]);
}
