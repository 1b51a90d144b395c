use validator_sets::bft::is_bft;
use validator_sets::primitives::{Session, Validator};
use validator_sets::sets::{Error, ValidatorSets};

fn vid(b: u8) -> Validator {
    Validator([b; 32])
}

fn genesis(aps: u64, stakes: &[(u8, u64)]) -> ValidatorSets {
    let stakes: Vec<(Validator, u64)> = stakes.iter().map(|(b, a)| (vid(*b), *a)).collect();
    ValidatorSets::new(aps, stakes, 0)
}

#[test]
fn genesis_decides_session_zero() {
    let sets = genesis(100, &[(1, 500), (2, 300)]);
    assert_eq!(sets.session(), Session(0));
    assert_eq!(sets.allocation_per_key_share(), 100);
    assert_eq!(sets.total_allocated_stake(), 800);
    assert_eq!(sets.participants(), vec![(vid(1), 5), (vid(2), 3)]);
    assert_eq!(sets.active_authorities(), sets.participants());
    assert_eq!(sets.session_begin_block(Session(0)), 0);
    assert!(sets.in_set(&vid(1)));
    assert!(!sets.in_set(&vid(9)));
}

#[test]
fn four_equal_validators_are_fault_tolerant() {
    // effective top share 1, and 3 * 1 < 4
    let sets = genesis(100, &[(1, 100), (2, 100), (3, 100), (4, 100)]);
    assert!(is_bft(&sets.ledger, 100));
    // a single validator can never be fault tolerant
    let alone = genesis(100, &[(1, 1000)]);
    assert!(!is_bft(&alone.ledger, 100));
    // an empty set is not fault tolerant
    let empty = genesis(100, &[]);
    assert!(!is_bft(&empty.ledger, 100));
}

#[test]
fn allocation_crossing_a_boundary_rechecks_fault_tolerance() {
    // allocation_per_key_share = 100: 250 buys 2 shares, 60 more buys a third
    let mut sets = genesis(100, &[(1, 250)]);
    assert_eq!(sets.allocate(vid(1), 60), Ok(()));
    assert_eq!(sets.allocation(&vid(1)), Some(310));
}

#[test]
fn allocation_may_not_remove_fault_tolerance() {
    let mut sets = genesis(100, &[(1, 100), (2, 100), (3, 100), (4, 100)]);
    assert!(is_bft(&sets.ledger, 100));
    // lifting one validator to three shares would hand it half the total
    assert_eq!(
        sets.allocate(vid(1), 200),
        Err(Error::AllocationWouldRemoveFaultTolerance)
    );
    // the rejected call left no trace
    assert_eq!(sets.allocation(&vid(1)), Some(100));
    assert_eq!(sets.total_allocated_stake(), 400);
}

#[test]
fn allocation_may_not_prevent_fault_tolerance() {
    // a validator must never reach a third of the key-share cap
    let mut sets = genesis(100, &[(1, 4900)]);
    assert_eq!(
        sets.allocate(vid(1), 100),
        Err(Error::AllocationWouldPreventFaultTolerance)
    );
    assert_eq!(sets.allocation(&vid(1)), Some(4900));
}

#[test]
fn allocation_must_buy_a_key_share() {
    let mut sets = genesis(100, &[(1, 500)]);
    assert_eq!(sets.allocate(vid(9), 40), Err(Error::InsufficientAllocation));
    assert_eq!(sets.allocation(&vid(9)), None);
    // block rewards may land below the floor
    assert_eq!(sets.distribute_block_rewards(vid(9), 40), Ok(()));
    assert_eq!(sets.allocation(&vid(9)), Some(40));
}

#[test]
fn deallocation_validations() {
    let mut sets = genesis(100, &[(1, 500), (2, 300)]);
    assert_eq!(sets.deallocate(vid(9), 10), Err(Error::NonExistentValidator));
    assert_eq!(sets.deallocate(vid(1), 600), Err(Error::NotEnoughAllocated));
    // leaving a nonzero remainder below the key-share floor is refused
    assert_eq!(
        sets.deallocate(vid(1), 450),
        Err(Error::DeallocationWouldRemoveParticipant)
    );
    assert_eq!(sets.allocation(&vid(1)), Some(500));
}

#[test]
fn deallocation_may_not_remove_fault_tolerance() {
    let mut sets = genesis(100, &[(1, 100), (2, 100), (3, 100), (4, 100)]);
    assert!(is_bft(&sets.ledger, 100));
    assert_eq!(
        sets.deallocate(vid(4), 100),
        Err(Error::DeallocationWouldRemoveFaultTolerance)
    );
    assert_eq!(sets.allocation(&vid(4)), Some(100));
}

#[test]
fn inset_deallocation_unlocks_three_sessions_later() {
    // session 0: the full in-set stake is queued for session 3
    let mut sets = genesis(100, &[(1, 1000)]);
    assert_eq!(sets.deallocate(vid(1), 1000), Ok(false));
    assert_eq!(sets.allocation(&vid(1)), None);
    assert_eq!(sets.pending_deallocations(&vid(1), Session(3)), Some(1000));
    // too early: nothing is claimable yet
    assert_eq!(
        sets.claim_deallocation(vid(1), Session(2)),
        Err(Error::NonExistentDeallocation)
    );
    // at the unlock session the exact amount comes back, exactly once
    assert_eq!(sets.claim_deallocation(vid(1), Session(3)), Ok(1000));
    assert_eq!(
        sets.claim_deallocation(vid(1), Session(3)),
        Err(Error::NonExistentDeallocation)
    );
}

#[test]
fn outsider_deallocation_is_immediate() {
    let mut sets = genesis(100, &[(1, 500)]);
    assert_eq!(sets.allocate(vid(2), 300), Ok(()));
    // the newcomer is not in the decided or active set yet
    assert_eq!(sets.deallocate(vid(2), 300), Ok(true));
    assert_eq!(sets.allocation(&vid(2)), None);
    assert_eq!(sets.pending_deallocations(&vid(2), Session(3)), None);
}

#[test]
fn retirement_recomputes_total_allocated_stake() {
    let mut sets = genesis(100, &[(1, 500), (2, 300)]);
    assert_eq!(sets.total_allocated_stake(), 800);
    // a queued deallocation frees capacity at once but the cache lags
    assert_eq!(sets.deallocate(vid(1), 100), Ok(false));
    assert_eq!(sets.total_allocated_stake(), 800);
    sets.retire_set(Session(0));
    assert_eq!(sets.total_allocated_stake(), 700);
}

#[test]
fn allocate_then_deallocate_restores_the_ledger() {
    let mut sets = genesis(100, &[(1, 500), (2, 300)]);
    let before_rows = sets.ledger.iterate_by_stake_desc(0);
    let before_alloc = sets.allocation(&vid(1));
    assert_eq!(sets.allocate(vid(1), 150), Ok(()));
    assert_eq!(sets.deallocate(vid(1), 150), Ok(false));
    assert_eq!(sets.allocation(&vid(1)), before_alloc);
    assert_eq!(sets.ledger.iterate_by_stake_desc(0), before_rows);
    assert_eq!(sets.ledger.sorted, {
        let fresh = genesis(100, &[(1, 500), (2, 300)]);
        fresh.ledger.sorted
    });
}

#[test]
fn rotation_hands_the_decided_set_over() {
    let mut sets = genesis(100, &[(1, 500), (2, 300)]);
    assert!(sets.on_block_start(5, false).is_none());
    assert_eq!(sets.session(), Session(0));
    // a newcomer joins before the boundary; the decided set picks it up
    assert_eq!(sets.allocate(vid(3), 900), Ok(()));
    let handoff = sets.on_block_start(10, true).unwrap();
    assert_eq!(handoff.session, Session(1));
    assert_eq!(handoff.outgoing, vec![(vid(1), 5), (vid(2), 3)]);
    assert_eq!(handoff.incoming, vec![(vid(3), 9), (vid(1), 5), (vid(2), 3)]);
    assert_eq!(sets.session(), Session(1));
    assert_eq!(sets.session_begin_block(Session(1)), 10);
    // the outgoing set is now the active authority list
    assert_eq!(sets.active_authorities(), vec![(vid(1), 5), (vid(2), 3)]);
    assert_eq!(sets.participants(), handoff.incoming);
}

#[test]
fn rotation_amortizes_excess_key_shares() {
    // 100 + 60 raw shares exceed the cap of 150; the excess walks off
    // from the lowest-ranked entry backward
    let sets = genesis(1, &[(1, 100), (2, 60)]);
    assert_eq!(sets.participants(), vec![(vid(1), 95), (vid(2), 55)]);
    assert_eq!(sets.total_allocated_stake(), 160);
}

#[test]
fn slash_burns_allocation_and_pending() {
    let mut sets = genesis(100, &[(1, 1000), (2, 500)]);
    assert_eq!(sets.deallocate(vid(1), 200), Ok(false));
    assert_eq!(sets.pending_deallocations(&vid(1), Session(3)), Some(200));
    let burned = sets.slash_validator(vid(1));
    assert_eq!(burned, 1000);
    assert_eq!(sets.allocation(&vid(1)), None);
    assert_eq!(sets.pending_deallocations(&vid(1), Session(3)), None);
    // the tracked stake loses the allocation and the tracked pending amount
    assert_eq!(sets.total_allocated_stake(), 500);
    // a slash of an unknown validator degenerates to a zero burn
    assert_eq!(sets.slash_validator(vid(9)), 0);
}

#[test]
fn offences_slash_and_disable() {
    let mut sets = genesis(100, &[(1, 500), (2, 300)]);
    assert!(sets.can_slash_validator(&vid(1)));
    assert!(!sets.can_slash_validator(&vid(9)));
    assert!(!sets.is_known_offence(&[vid(1)]));
    assert!(sets.is_known_offence(&[vid(9)]));

    let burned = sets.report_offence(vid(1));
    assert_eq!(burned, 500);
    assert_eq!(sets.allocation(&vid(1)), None);
    // the offender sits disabled at its position in the active list
    assert_eq!(sets.disabled, vec![(0, vid(1))]);
    // it stays a known authority until the next rotation, so the offence
    // is still actionable
    assert!(!sets.is_known_offence(&[vid(1)]));
}

#[test]
fn disabled_positions_are_recomputed_at_rotation() {
    let mut sets = genesis(100, &[(1, 500), (2, 300)]);
    assert!(sets.disable_validator(vid(2)));
    assert_eq!(sets.disabled, vec![(1, vid(2))]);
    assert!(sets.is_disabled(1));
    assert!(!sets.is_disabled(0));
    assert!(!sets.disable_validator(vid(9)));
    // the slashed validator drops out of the next decided set; the
    // disabled survivor keeps its place against the still-active list
    sets.slash_validator(vid(1));
    sets.rotate_session(20);
    assert_eq!(sets.active_authorities(), vec![(vid(1), 5), (vid(2), 3)]);
    assert_eq!(sets.disabled, vec![(1, vid(2))]);
    // once the shrunken set takes over, the position is recomputed
    sets.rotate_session(30);
    assert_eq!(sets.active_authorities(), vec![(vid(2), 3)]);
    assert_eq!(sets.disabled, vec![(0, vid(2))]);
}
