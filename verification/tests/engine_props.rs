use inclusion::bridge::{WithKusamaMessageBridge, RELAYER_FEE_PERCENT};
use inclusion::engine::{supermajority_threshold, Inclusion, RoundInfo};
use inclusion::paras::Paras;
use inclusion::types::{
    BackedCandidate, CandidateCommitments, CandidateDescriptor, CandidatePendingAvailability,
    CollatorSignature, CommittedCandidateReceipt, CoreAssignment, Error, Event, HostConfig,
    SignedAvailabilityBitfield, SigningContext, ValidityAttestation,
};

const HEAD_PARENT: u64 = 777;

fn keys5() -> Vec<u64> {
    vec![11, 22, 33, 44, 55]
}

fn cfg(frequency: u64, delay: u64) -> HostConfig {
    HostConfig { validation_upgrade_frequency: frequency, validation_upgrade_delay: delay }
}

fn ctx7() -> SigningContext {
    SigningContext { parent_hash: HEAD_PARENT, session_index: 7 }
}

fn round7(now: u64) -> RoundInfo {
    RoundInfo { parent_hash: HEAD_PARENT, now }
}

fn mk_engine() -> Inclusion {
    let mut engine = Inclusion::new();
    engine.set_validators(keys5());
    engine.set_session_index(7);
    engine
}

fn mk_descriptor(para_id: u32, relay_parent: u64, pvd_hash: u64, pov_hash: u64, collator: u64) -> CandidateDescriptor {
    CandidateDescriptor {
        para_id,
        relay_parent,
        collator,
        persisted_validation_data_hash: pvd_hash,
        pov_hash,
        signature: CollatorSignature::sign(collator, relay_parent, para_id, pvd_hash, pov_hash),
    }
}

fn mk_candidate(para_id: u32, head: Vec<u8>, new_code: Option<Vec<u8>>, pvd_hash: u64) -> CommittedCandidateReceipt {
    CommittedCandidateReceipt {
        descriptor: mk_descriptor(para_id, HEAD_PARENT, pvd_hash, 5, 501),
        commitments: CandidateCommitments { head_data: head, new_validation_code: new_code },
    }
}

fn back_fully(candidate: CommittedCandidateReceipt, group: &[u32], ctx: &SigningContext) -> BackedCandidate {
    let keys = keys5();
    let mut validator_indices = vec![false; group.len()];
    let mut validity_votes = Vec::new();
    for (i, val_idx) in group.iter().enumerate() {
        validator_indices[i] = true;
        validity_votes.push(ValidityAttestation::sign(&candidate, ctx, keys[*val_idx as usize]));
    }
    BackedCandidate { candidate, validity_votes, validator_indices }
}

#[test]
fn threshold_formula_matches() {
    assert_eq!(supermajority_threshold(0), 0);
    assert_eq!(supermajority_threshold(1), 1);
    assert_eq!(supermajority_threshold(3), 2);
    assert_eq!(supermajority_threshold(5), 4);
    assert_eq!(supermajority_threshold(6), 4);
    assert_eq!(supermajority_threshold(100), 67);
}

#[test]
fn wrong_size_batch_leaves_state_unchanged() {
    let mut engine = mk_engine();
    let mut paras = Paras::new();
    let mut events: Vec<Event> = Vec::new();
    let candidate = mk_candidate(1, vec![9], None, 0);
    engine.insert_pending_availability(
        1,
        CandidatePendingAvailability::new(0, candidate.descriptor, vec![false; 5], 0, 0),
    );
    engine.insert_pending_commitments(1, candidate.commitments);

    // a valid vote for core 0 and a wrong-sized bitfield behind it
    let good = SignedAvailabilityBitfield::sign(vec![true], &ctx7(), 0, keys5()[0]);
    let bad = SignedAvailabilityBitfield::sign(vec![true, false], &ctx7(), 1, keys5()[1]);
    let lookup = vec![Some(1u32)];
    assert_eq!(
        engine.process_bitfields(round7(5), &cfg(0, 0), vec![good, bad], &lookup, &mut paras, &mut events),
        Err(Error::WrongBitfieldSize),
    );
    // nothing was folded, recorded, or enacted
    let record = engine.pending_availability(1).unwrap();
    assert_eq!(record.availability_votes(), &vec![false; 5]);
    assert_eq!(engine.bitfield_record_count(), 0);
    assert!(paras.para_head(1).is_none());
    assert!(events.is_empty());
}

#[test]
fn bitfield_error_codes() {
    let mut engine = mk_engine();
    let mut paras = Paras::new();
    let mut events: Vec<Event> = Vec::new();
    let config = cfg(0, 0);
    let keys = keys5();
    let lookup = vec![Some(1u32)];
    let candidate = mk_candidate(1, vec![9], None, 0);
    engine.insert_pending_availability(
        1,
        CandidatePendingAvailability::new(0, candidate.descriptor, vec![false; 5], 0, 0),
    );
    engine.insert_pending_commitments(1, candidate.commitments);

    // duplicate validator
    let s0 = SignedAvailabilityBitfield::sign(vec![false], &ctx7(), 2, keys[2]);
    let s1 = SignedAvailabilityBitfield::sign(vec![false], &ctx7(), 2, keys[2]);
    assert_eq!(
        engine.process_bitfields(round7(5), &config, vec![s0, s1], &lookup, &mut paras, &mut events),
        Err(Error::BitfieldDuplicateOrUnordered),
    );

    // validator index out of bounds
    let s7 = SignedAvailabilityBitfield::sign(vec![false], &ctx7(), 7, 123);
    assert_eq!(
        engine.process_bitfields(round7(5), &config, vec![s7], &lookup, &mut paras, &mut events),
        Err(Error::ValidatorIndexOutOfBounds),
    );

    // set bit over a core whose shard holds nothing pending
    let unocc = SignedAvailabilityBitfield::sign(vec![true], &ctx7(), 0, keys[0]);
    let empty_lookup = vec![Some(6u32)];
    assert_eq!(
        engine.process_bitfields(round7(5), &config, vec![unocc], &empty_lookup, &mut paras, &mut events),
        Err(Error::UnoccupiedBitInBitfield),
    );

    // signed by the wrong key
    let forged = SignedAvailabilityBitfield::sign(vec![true], &ctx7(), 0, keys[1]);
    assert_eq!(
        engine.process_bitfields(round7(5), &config, vec![forged], &lookup, &mut paras, &mut events),
        Err(Error::InvalidBitfieldSignature),
    );

    // signed in another session
    let stale_ctx = SigningContext { parent_hash: HEAD_PARENT, session_index: 6 };
    let stale = SignedAvailabilityBitfield::sign(vec![true], &stale_ctx, 0, keys[0]);
    assert_eq!(
        engine.process_bitfields(round7(5), &config, vec![stale], &lookup, &mut paras, &mut events),
        Err(Error::InvalidBitfieldSignature),
    );
}

#[test]
fn three_of_five_keep_candidate_pending_fourth_enacts() {
    let mut engine = mk_engine();
    let mut paras = Paras::new();
    let mut events: Vec<Event> = Vec::new();
    let config = cfg(0, 0);
    let keys = keys5();
    let lookup = vec![Some(1u32)];
    let candidate = mk_candidate(1, vec![4, 5, 6], None, 0);
    engine.insert_pending_availability(
        1,
        CandidatePendingAvailability::new(0, candidate.descriptor, vec![false; 5], 2, 3),
    );
    engine.insert_pending_commitments(1, candidate.commitments);

    // three attestations: below the threshold of four
    let mut batch = Vec::new();
    for i in 0..3u32 {
        batch.push(SignedAvailabilityBitfield::sign(vec![true], &ctx7(), i, keys[i as usize]));
    }
    assert_eq!(
        engine.process_bitfields(round7(5), &config, batch, &lookup, &mut paras, &mut events),
        Ok(vec![]),
    );
    let record = engine.pending_availability(1).unwrap();
    assert_eq!(record.availability_votes(), &vec![true, true, true, false, false]);
    assert!(paras.para_head(1).is_none());

    // the fourth crosses the threshold: the pair is drained, the core is
    // freed, and the head is enacted
    let fourth = SignedAvailabilityBitfield::sign(vec![true], &ctx7(), 3, keys[3]);
    assert_eq!(
        engine.process_bitfields(round7(6), &config, vec![fourth], &lookup, &mut paras, &mut events),
        Ok(vec![0]),
    );
    assert!(engine.pending_availability(1).is_none());
    assert!(engine.pending_commitments(1).is_none());
    assert_eq!(paras.para_head(1), Some(&vec![4, 5, 6]));
    assert_eq!(
        events.last(),
        Some(&Event::CandidateIncluded {
            descriptor: mk_candidate(1, vec![4, 5, 6], None, 0).descriptor,
            head_data: vec![4, 5, 6],
        }),
    );
}

#[test]
fn code_upgrade_frequency_gates_candidates() {
    let group_validators: Vec<Vec<u32>> = vec![vec![0, 1, 2, 3, 4]];
    let assignment = CoreAssignment { core: 0, para_id: 1, group_idx: 0, required_collator: None };
    let config = cfg(3, 0);

    // an upgrade landed at round 2; at round 5 the relay parent is 4 and
    // only 2 rounds have elapsed: rejected
    {
        let mut engine = mk_engine();
        let mut paras = Paras::new();
        paras.set_validation_data_hash(1, 31);
        paras.schedule_code_upgrade(1, vec![1], 2);
        let mut events: Vec<Event> = Vec::new();
        let candidate = mk_candidate(1, vec![9], Some(vec![2]), 31);
        let backed = back_fully(candidate, &[0, 1, 2, 3, 4], &ctx7());
        assert_eq!(
            engine.process_candidates(
                round7(5),
                &config,
                vec![backed],
                vec![assignment],
                &group_validators,
                &paras,
                &mut events,
            ),
            Err(Error::PrematureCodeUpgrade),
        );
    }

    // at round 6 the relay parent is 5 and 3 rounds have elapsed: accepted
    {
        let mut engine = mk_engine();
        let mut paras = Paras::new();
        paras.set_validation_data_hash(1, 31);
        paras.schedule_code_upgrade(1, vec![1], 2);
        let mut events: Vec<Event> = Vec::new();
        let candidate = mk_candidate(1, vec![9], Some(vec![2]), 31);
        let backed = back_fully(candidate, &[0, 1, 2, 3, 4], &ctx7());
        assert_eq!(
            engine.process_candidates(
                round7(6),
                &config,
                vec![backed],
                vec![assignment],
                &group_validators,
                &paras,
                &mut events,
            ),
            Ok(vec![0]),
        );
        assert!(engine.pending_availability(1).is_some());
    }
}

#[test]
fn scheduled_out_of_order_rejected() {
    let mut engine = mk_engine();
    let mut paras = Paras::new();
    paras.set_validation_data_hash(1, 31);
    let mut events: Vec<Event> = Vec::new();
    let group_validators: Vec<Vec<u32>> = vec![vec![0, 1], vec![2, 3]];
    let first = CoreAssignment { core: 1, para_id: 2, group_idx: 1, required_collator: None };
    let second = CoreAssignment { core: 0, para_id: 1, group_idx: 0, required_collator: None };
    let candidate = mk_candidate(1, vec![9], None, 31);
    let backed = back_fully(candidate, &[0, 1], &ctx7());
    assert_eq!(
        engine.process_candidates(
            round7(5),
            &cfg(0, 0),
            vec![backed],
            vec![first, second],
            &group_validators,
            &paras,
            &mut events,
        ),
        Err(Error::ScheduledOutOfOrder),
    );
}

#[test]
fn invalid_group_index_rejected() {
    let mut engine = mk_engine();
    let mut paras = Paras::new();
    paras.set_validation_data_hash(1, 31);
    let mut events: Vec<Event> = Vec::new();
    let group_validators: Vec<Vec<u32>> = vec![vec![0, 1]];
    let assignment = CoreAssignment { core: 0, para_id: 1, group_idx: 9, required_collator: None };
    let candidate = mk_candidate(1, vec![9], None, 31);
    let backed = back_fully(candidate, &[0, 1], &ctx7());
    assert_eq!(
        engine.process_candidates(
            round7(5),
            &cfg(0, 0),
            vec![backed],
            vec![assignment],
            &group_validators,
            &paras,
            &mut events,
        ),
        Err(Error::InvalidGroupIndex),
    );
}

#[test]
fn invalid_backing_rejected() {
    let mut engine = mk_engine();
    let mut paras = Paras::new();
    paras.set_validation_data_hash(1, 31);
    let mut events: Vec<Event> = Vec::new();
    let group_validators: Vec<Vec<u32>> = vec![vec![0, 1]];
    let assignment = CoreAssignment { core: 0, para_id: 1, group_idx: 0, required_collator: None };
    let candidate = mk_candidate(1, vec![9], None, 31);
    // the second attestation comes from a key outside the group
    let mut backed = back_fully(candidate, &[0, 1], &ctx7());
    backed.validity_votes.pop();
    backed.validity_votes.push(ValidityAttestation::sign(&backed.candidate, &ctx7(), 999));
    assert_eq!(
        engine.process_candidates(
            round7(5),
            &cfg(0, 0),
            vec![backed],
            vec![assignment],
            &group_validators,
            &paras,
            &mut events,
        ),
        Err(Error::InvalidBacking),
    );
}

#[test]
fn missing_validation_data_drops_whole_batch() {
    let mut engine = mk_engine();
    let paras = Paras::new();
    let mut events: Vec<Event> = Vec::new();
    let group_validators: Vec<Vec<u32>> = vec![vec![0, 1]];
    let assignment = CoreAssignment { core: 0, para_id: 1, group_idx: 0, required_collator: None };
    let candidate = mk_candidate(1, vec![9], None, 31);
    let backed = back_fully(candidate, &[0, 1], &ctx7());
    // the shard-state manager knows nothing of shard 1: empty result, no
    // error, nothing admitted
    assert_eq!(
        engine.process_candidates(
            round7(5),
            &cfg(0, 0),
            vec![backed],
            vec![assignment],
            &group_validators,
            &paras,
            &mut events,
        ),
        Ok(vec![]),
    );
    assert!(engine.pending_availability(1).is_none());
    assert!(events.is_empty());
}

#[test]
fn backed_event_emitted_on_admission() {
    let mut engine = mk_engine();
    let mut paras = Paras::new();
    paras.set_validation_data_hash(1, 31);
    let mut events: Vec<Event> = Vec::new();
    let group_validators: Vec<Vec<u32>> = vec![vec![0, 1]];
    let assignment = CoreAssignment { core: 0, para_id: 1, group_idx: 0, required_collator: None };
    let candidate = mk_candidate(1, vec![8, 9], None, 31);
    let descriptor = candidate.descriptor;
    let backed = back_fully(candidate, &[0, 1], &ctx7());
    assert_eq!(
        engine.process_candidates(
            round7(5),
            &cfg(0, 0),
            vec![backed],
            vec![assignment],
            &group_validators,
            &paras,
            &mut events,
        ),
        Ok(vec![0]),
    );
    assert_eq!(events, vec![Event::CandidateBacked { descriptor, head_data: vec![8, 9] }]);
}

#[test]
fn collect_pending_emits_timeout_event() {
    let mut engine = mk_engine();
    let mut events: Vec<Event> = Vec::new();
    let candidate = mk_candidate(1, vec![3, 3], None, 0);
    let descriptor = candidate.descriptor;
    engine.insert_pending_availability(
        1,
        CandidatePendingAvailability::new(4, descriptor, vec![false; 5], 2, 3),
    );
    engine.insert_pending_commitments(1, candidate.commitments);
    let freed = engine.collect_pending(|_core: u32, backed_in: u64| backed_in < 4, &mut events);
    assert_eq!(freed, vec![4]);
    assert_eq!(events, vec![Event::CandidateTimedOut { descriptor, head_data: vec![3, 3] }]);
    assert!(engine.pending_availability(1).is_none());
    assert!(engine.pending_commitments(1).is_none());
}

#[test]
fn collect_pending_desynced_record_freed_silently() {
    let mut engine = mk_engine();
    let mut events: Vec<Event> = Vec::new();
    let candidate = mk_candidate(1, vec![3, 3], None, 0);
    engine.insert_pending_availability(
        1,
        CandidatePendingAvailability::new(4, candidate.descriptor, vec![false; 5], 2, 3),
    );
    // no commitments: the core is still freed but no event is emitted
    let freed = engine.collect_pending(|_core: u32, _since: u64| true, &mut events);
    assert_eq!(freed, vec![4]);
    assert!(events.is_empty());
    assert!(engine.pending_availability(1).is_none());
}

#[test]
fn force_enact_enacts_and_clears() {
    let mut engine = mk_engine();
    let mut paras = Paras::new();
    let mut events: Vec<Event> = Vec::new();
    let candidate = mk_candidate(1, vec![7, 7], Some(vec![9, 9]), 0);
    engine.insert_pending_availability(
        1,
        CandidatePendingAvailability::new(0, candidate.descriptor, vec![false; 5], 10, 11),
    );
    engine.insert_pending_commitments(1, candidate.commitments);
    engine.force_enact(1, &cfg(0, 4), &mut paras, &mut events);
    assert!(engine.pending_availability(1).is_none());
    assert!(engine.pending_commitments(1).is_none());
    assert_eq!(paras.para_head(1), Some(&vec![7, 7]));
    // the carried code takes effect at the relay parent plus the delay
    assert_eq!(paras.last_code_upgrade(1), Some(14));
    assert_eq!(paras.future_code(1), Some(&vec![9, 9]));
    assert_eq!(events.len(), 1);
}

#[test]
fn force_enact_without_pair_is_a_no_op() {
    let mut engine = mk_engine();
    let mut paras = Paras::new();
    let mut events: Vec<Event> = Vec::new();
    let candidate = mk_candidate(1, vec![7, 7], None, 0);
    // a lone record without commitments is left untouched, unenacted
    engine.insert_pending_availability(
        1,
        CandidatePendingAvailability::new(0, candidate.descriptor, vec![false; 5], 10, 11),
    );
    engine.force_enact(1, &cfg(0, 0), &mut paras, &mut events);
    assert!(engine.pending_availability(1).is_some());
    assert!(paras.para_head(1).is_none());
    assert!(events.is_empty());
    // and a wholly absent shard changes nothing
    engine.force_enact(2, &cfg(0, 0), &mut paras, &mut events);
    assert!(events.is_empty());
}

#[test]
fn candidate_pending_availability_returns_receipt() {
    let mut engine = mk_engine();
    let candidate = mk_candidate(1, vec![1, 2], None, 0);
    let descriptor = candidate.descriptor;
    engine.insert_pending_availability(
        1,
        CandidatePendingAvailability::new(3, descriptor, vec![false; 5], 8, 9),
    );
    assert!(engine.candidate_pending_availability(1).is_none());
    engine.insert_pending_commitments(1, candidate.commitments.duplicate());
    let receipt = engine.candidate_pending_availability(1).unwrap();
    assert_eq!(receipt.descriptor, descriptor);
    assert_eq!(receipt.commitments, candidate.commitments);
    let record = engine.pending_availability(1).unwrap();
    assert_eq!(record.core_occupied(), 3);
    assert_eq!(record.backed_in_number(), 9);
    assert_eq!(record.relay_parent_number(), 8);
    assert_eq!(record.descriptor(), &descriptor);
}

#[test]
fn signed_bitfield_accessors_round_trip() {
    let signed = SignedAvailabilityBitfield::sign(vec![true, false, true], &ctx7(), 4, 55);
    assert_eq!(signed.payload(), &vec![true, false, true]);
    assert_eq!(signed.validator_index(), 4);
    assert!(signed.check_signature(&ctx7(), 55));
    assert!(!signed.check_signature(&ctx7(), 44));
    assert_eq!(signed.into_payload(), vec![true, false, true]);
}

#[test]
fn bridge_weight_limits_use_payload_and_half_extrinsic() {
    assert_eq!(
        WithKusamaMessageBridge::weight_limits_of_message_on_bridged_chain(Some(10), 3),
        (3, 5),
    );
    assert_eq!(
        WithKusamaMessageBridge::weight_limits_of_message_on_bridged_chain(None, 4),
        (4, u64::MAX / 2),
    );
    assert_eq!(WithKusamaMessageBridge::this_balance_to_bridged_balance(12345), 12345);
    assert_eq!(RELAYER_FEE_PERCENT, 10);
}
