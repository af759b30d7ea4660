use inclusion::engine::{check_candidate_backing, supermajority_threshold, Inclusion, RoundInfo};
use inclusion::paras::Paras;
use inclusion::types::{
    AvailabilityBitfieldRecord, BackedCandidate, CandidateCommitments, CandidateDescriptor,
    CandidatePendingAvailability, CollatorSignature, CommittedCandidateReceipt, CoreAssignment,
    Error, Event, SessionChangeNotification, SignedAvailabilityBitfield, SigningContext,
    ValidityAttestation,
};

const CHAIN_A: u32 = 1;
const CHAIN_B: u32 = 2;
const THREAD_A: u32 = 3;
const PARENT_HASH: u64 = 999;
const COLLATOR_ONE: u64 = 1001;
const COLLATOR_TWO: u64 = 1002;

fn validator_keys() -> Vec<u64> {
    vec![10, 20, 30, 40, 50]
}

fn default_bitfield() -> Vec<bool> {
    vec![false; 3]
}

fn default_availability_votes() -> Vec<bool> {
    vec![false; 5]
}

fn default_config() -> inclusion::types::HostConfig {
    inclusion::types::HostConfig {
        validation_upgrade_frequency: 0,
        validation_upgrade_delay: 0,
    }
}

fn round_at(now: u64) -> RoundInfo {
    RoundInfo { parent_hash: PARENT_HASH, now }
}

fn signing_context() -> SigningContext {
    SigningContext { parent_hash: PARENT_HASH, session_index: 5 }
}

fn core_lookup() -> Vec<Option<u32>> {
    vec![Some(CHAIN_A), Some(CHAIN_B), Some(THREAD_A)]
}

fn new_engine() -> Inclusion {
    let mut engine = Inclusion::new();
    engine.set_validators(validator_keys());
    engine.set_session_index(5);
    engine
}

struct TestCandidateBuilder {
    para_id: u32,
    head_data: Vec<u8>,
    pov_hash: u64,
    relay_parent: u64,
    persisted_validation_data_hash: u64,
    new_validation_code: Option<Vec<u8>>,
}

impl TestCandidateBuilder {
    fn new() -> TestCandidateBuilder {
        TestCandidateBuilder {
            para_id: 0,
            head_data: Vec::new(),
            pov_hash: 0,
            relay_parent: 0,
            persisted_validation_data_hash: 0,
            new_validation_code: None,
        }
    }

    fn build(self) -> CommittedCandidateReceipt {
        CommittedCandidateReceipt {
            descriptor: CandidateDescriptor {
                para_id: self.para_id,
                relay_parent: self.relay_parent,
                collator: 0,
                persisted_validation_data_hash: self.persisted_validation_data_hash,
                pov_hash: self.pov_hash,
                signature: CollatorSignature::sign(0, 0, 0, 0, 0),
            },
            commitments: CandidateCommitments {
                head_data: self.head_data,
                new_validation_code: self.new_validation_code,
            },
        }
    }
}

fn collator_sign_candidate(key: u64, candidate: &mut CommittedCandidateReceipt) {
    candidate.descriptor.collator = key;
    candidate.descriptor.signature = CollatorSignature::sign(
        key,
        candidate.descriptor.relay_parent,
        candidate.descriptor.para_id,
        candidate.descriptor.persisted_validation_data_hash,
        candidate.descriptor.pov_hash,
    );
    assert!(candidate.descriptor.check_collator_signature());
}

enum BackingKind {
    #[allow(dead_code)]
    Unanimous,
    Threshold,
    Lacking,
}

fn back_candidate(
    candidate: CommittedCandidateReceipt,
    validators: &[u64],
    group: &[u32],
    ctx: &SigningContext,
    kind: BackingKind,
) -> BackedCandidate {
    let mut validator_indices = vec![false; group.len()];
    let threshold = group.len() / 2 + 1;
    let signing = match kind {
        BackingKind::Unanimous => group.len(),
        BackingKind::Threshold => threshold,
        BackingKind::Lacking => threshold.saturating_sub(1),
    };
    let mut validity_votes = Vec::new();
    for (idx_in_group, val_idx) in group.iter().enumerate().take(signing) {
        validator_indices[idx_in_group] = true;
        validity_votes.push(ValidityAttestation::sign(
            &candidate,
            ctx,
            validators[*val_idx as usize],
        ));
    }
    let backed = BackedCandidate { candidate, validity_votes, validator_indices };
    let group_vec: Vec<u32> = group.to_vec();
    let vals: Vec<u64> = validators.to_vec();
    let successfully_backed =
        check_candidate_backing(&backed, &group_vec, &vals, ctx).unwrap_or(0) * 2 > group.len();
    match kind {
        BackingKind::Lacking => assert!(!successfully_backed),
        _ => assert!(successfully_backed),
    }
    backed
}

fn sign_bitfield(
    key: u64,
    validator_index: u32,
    bitfield: Vec<bool>,
    ctx: &SigningContext,
) -> SignedAvailabilityBitfield {
    SignedAvailabilityBitfield::sign(bitfield, ctx, validator_index, key)
}

#[test]
fn collect_pending_cleans_up_pending() {
    let mut engine = new_engine();
    let mut events: Vec<Event> = Vec::new();

    let default_candidate = TestCandidateBuilder::new().build();
    engine.insert_pending_availability(
        CHAIN_A,
        CandidatePendingAvailability::new(
            0,
            default_candidate.descriptor,
            default_availability_votes(),
            0,
            0,
        ),
    );
    engine.insert_pending_commitments(CHAIN_A, default_candidate.commitments.duplicate());

    engine.insert_pending_availability(
        CHAIN_B,
        CandidatePendingAvailability::new(
            1,
            default_candidate.descriptor,
            default_availability_votes(),
            0,
            0,
        ),
    );
    engine.insert_pending_commitments(CHAIN_B, default_candidate.commitments);

    assert!(engine.pending_availability(CHAIN_A).is_some());
    assert!(engine.pending_availability(CHAIN_B).is_some());
    assert!(engine.pending_commitments(CHAIN_A).is_some());
    assert!(engine.pending_commitments(CHAIN_B).is_some());

    let freed = engine.collect_pending(|core: u32, _since: u64| core == 0, &mut events);
    assert_eq!(freed, vec![0]);

    assert!(engine.pending_availability(CHAIN_A).is_none());
    assert!(engine.pending_availability(CHAIN_B).is_some());
    assert!(engine.pending_commitments(CHAIN_A).is_none());
    assert!(engine.pending_commitments(CHAIN_B).is_some());
}

#[test]
fn bitfield_checks() {
    let mut engine = new_engine();
    let mut paras = Paras::new();
    let mut events: Vec<Event> = Vec::new();
    let config = default_config();
    let validators = validator_keys();
    let ctx = signing_context();
    let lookup = core_lookup();

    // wrong number of bits.
    {
        let mut bare_bitfield = default_bitfield();
        bare_bitfield.push(false);
        let signed = sign_bitfield(validators[0], 0, bare_bitfield, &ctx);
        assert!(engine
            .process_bitfields(round_at(5), &config, vec![signed], &lookup, &mut paras, &mut events)
            .is_err());
    }

    // duplicate.
    {
        let signed_a = sign_bitfield(validators[0], 0, default_bitfield(), &ctx);
        let signed_b = sign_bitfield(validators[0], 0, default_bitfield(), &ctx);
        assert!(engine
            .process_bitfields(
                round_at(5),
                &config,
                vec![signed_a, signed_b],
                &lookup,
                &mut paras,
                &mut events,
            )
            .is_err());
    }

    // out of order.
    {
        let signed_0 = sign_bitfield(validators[0], 0, default_bitfield(), &ctx);
        let signed_1 = sign_bitfield(validators[1], 1, default_bitfield(), &ctx);
        assert!(engine
            .process_bitfields(
                round_at(5),
                &config,
                vec![signed_1, signed_0],
                &lookup,
                &mut paras,
                &mut events,
            )
            .is_err());
    }

    // non-pending bit set.
    {
        let mut bare_bitfield = default_bitfield();
        bare_bitfield[0] = true;
        let signed = sign_bitfield(validators[0], 0, bare_bitfield, &ctx);
        assert!(engine
            .process_bitfields(round_at(5), &config, vec![signed], &lookup, &mut paras, &mut events)
            .is_err());
    }

    // empty bitfield signed: always OK, but kind of useless.
    {
        let signed = sign_bitfield(validators[0], 0, default_bitfield(), &ctx);
        assert!(engine
            .process_bitfields(round_at(5), &config, vec![signed], &lookup, &mut paras, &mut events)
            .is_ok());
    }

    // bitfield signed with pending bit signed.
    {
        let default_candidate = TestCandidateBuilder::new().build();
        engine.insert_pending_availability(
            CHAIN_A,
            CandidatePendingAvailability::new(
                0,
                default_candidate.descriptor,
                default_availability_votes(),
                0,
                0,
            ),
        );
        engine.insert_pending_commitments(CHAIN_A, default_candidate.commitments);

        let mut bare_bitfield = default_bitfield();
        bare_bitfield[0] = true;
        let signed = sign_bitfield(validators[0], 0, bare_bitfield, &ctx);
        assert!(engine
            .process_bitfields(round_at(5), &config, vec![signed], &lookup, &mut paras, &mut events)
            .is_ok());

        engine.remove_pending_availability(CHAIN_A);
        engine.remove_pending_commitments(CHAIN_A);
    }

    // bitfield signed with pending bit signed, but no commitments.
    {
        let default_candidate = TestCandidateBuilder::new().build();
        engine.insert_pending_availability(
            CHAIN_A,
            CandidatePendingAvailability::new(
                0,
                default_candidate.descriptor,
                default_availability_votes(),
                0,
                0,
            ),
        );

        let mut bare_bitfield = default_bitfield();
        bare_bitfield[0] = true;
        let signed = sign_bitfield(validators[0], 0, bare_bitfield, &ctx);

        // no core is freed
        assert_eq!(
            engine.process_bitfields(
                round_at(5),
                &config,
                vec![signed],
                &lookup,
                &mut paras,
                &mut events,
            ),
            Ok(vec![]),
        );
    }
}

#[test]
fn supermajority_bitfields_trigger_availability() {
    let mut engine = new_engine();
    let mut paras = Paras::new();
    let mut events: Vec<Event> = Vec::new();
    let config = default_config();
    let validators = validator_keys();
    let ctx = signing_context();
    let lookup = core_lookup();

    let mut builder_a = TestCandidateBuilder::new();
    builder_a.para_id = CHAIN_A;
    builder_a.head_data = vec![1, 2, 3, 4];
    let candidate_a = builder_a.build();
    engine.insert_pending_availability(
        CHAIN_A,
        CandidatePendingAvailability::new(
            0,
            candidate_a.descriptor,
            default_availability_votes(),
            0,
            0,
        ),
    );
    engine.insert_pending_commitments(CHAIN_A, candidate_a.commitments);

    let mut builder_b = TestCandidateBuilder::new();
    builder_b.para_id = CHAIN_B;
    builder_b.head_data = vec![5, 6, 7, 8];
    let candidate_b = builder_b.build();
    engine.insert_pending_availability(
        CHAIN_B,
        CandidatePendingAvailability::new(
            1,
            candidate_b.descriptor,
            default_availability_votes(),
            0,
            0,
        ),
    );
    engine.insert_pending_commitments(CHAIN_B, candidate_b.commitments);

    // this bitfield signals that a and b are available.
    let a_and_b_available = vec![true, true, false];
    // this bitfield signals that only a is available.
    let a_available = vec![true, false, false];

    // 4 of 5: first value >= 2/3
    assert_eq!(supermajority_threshold(validators.len()), 4);

    let mut signed_bitfields = Vec::new();
    for (i, key) in validators.iter().enumerate() {
        let to_sign = if i < 3 {
            a_and_b_available.clone()
        } else if i < 4 {
            a_available.clone()
        } else {
            // sign nothing.
            continue;
        };
        signed_bitfields.push(sign_bitfield(*key, i as u32, to_sign, &ctx));
    }

    assert!(engine
        .process_bitfields(round_at(5), &config, signed_bitfields, &lookup, &mut paras, &mut events)
        .is_ok());

    // chain A had 4 signing off, which is >= threshold.
    // chain B has 3 signing off, which is < threshold.
    assert!(engine.pending_availability(CHAIN_A).is_none());
    assert!(engine.pending_commitments(CHAIN_A).is_none());
    assert!(engine.pending_commitments(CHAIN_B).is_some());
    let mut expected_votes = default_availability_votes();
    expected_votes[0] = true;
    expected_votes[1] = true;
    expected_votes[2] = true;
    assert_eq!(
        engine.pending_availability(CHAIN_B).unwrap().availability_votes(),
        &expected_votes,
    );

    // and check that chain head was enacted.
    assert_eq!(paras.para_head(CHAIN_A), Some(&vec![1, 2, 3, 4]));
}

#[test]
fn candidate_checks() {
    let mut engine = new_engine();
    let mut paras = Paras::new();
    paras.set_validation_data_hash(CHAIN_A, 11);
    paras.set_validation_data_hash(CHAIN_B, 12);
    paras.set_validation_data_hash(THREAD_A, 13);
    let mut events: Vec<Event> = Vec::new();
    let config = default_config();
    let validators = validator_keys();
    let ctx = signing_context();

    let group_validators: Vec<Vec<u32>> = vec![vec![0, 1], vec![2, 3], vec![4]];
    let thread_collator: u64 = COLLATOR_TWO;

    let chain_a_assignment = CoreAssignment {
        core: 0,
        para_id: CHAIN_A,
        group_idx: 0,
        required_collator: None,
    };
    let chain_b_assignment = CoreAssignment {
        core: 1,
        para_id: CHAIN_B,
        group_idx: 1,
        required_collator: None,
    };
    let thread_a_assignment = CoreAssignment {
        core: 2,
        para_id: THREAD_A,
        group_idx: 2,
        required_collator: Some(thread_collator),
    };

    // unscheduled candidate.
    {
        let mut builder = TestCandidateBuilder::new();
        builder.para_id = CHAIN_A;
        builder.relay_parent = PARENT_HASH;
        builder.pov_hash = 1;
        builder.persisted_validation_data_hash = 11;
        let mut candidate = builder.build();
        collator_sign_candidate(COLLATOR_ONE, &mut candidate);
        let backed =
            back_candidate(candidate, &validators, &[0, 1], &ctx, BackingKind::Threshold);
        assert_eq!(
            engine.process_candidates(
                round_at(5),
                &config,
                vec![backed],
                vec![chain_b_assignment],
                &group_validators,
                &paras,
                &mut events,
            ),
            Err(Error::UnscheduledCandidate),
        );
    }

    // candidates out of order.
    {
        let mut builder_a = TestCandidateBuilder::new();
        builder_a.para_id = CHAIN_A;
        builder_a.relay_parent = PARENT_HASH;
        builder_a.pov_hash = 1;
        builder_a.persisted_validation_data_hash = 11;
        let mut candidate_a = builder_a.build();
        let mut builder_b = TestCandidateBuilder::new();
        builder_b.para_id = CHAIN_B;
        builder_b.relay_parent = PARENT_HASH;
        builder_b.pov_hash = 2;
        builder_b.persisted_validation_data_hash = 12;
        let mut candidate_b = builder_b.build();

        collator_sign_candidate(COLLATOR_ONE, &mut candidate_a);
        collator_sign_candidate(COLLATOR_TWO, &mut candidate_b);

        let backed_a =
            back_candidate(candidate_a, &validators, &[0, 1], &ctx, BackingKind::Threshold);
        let backed_b =
            back_candidate(candidate_b, &validators, &[2, 3], &ctx, BackingKind::Threshold);

        // out-of-order manifests as unscheduled.
        assert_eq!(
            engine.process_candidates(
                round_at(5),
                &config,
                vec![backed_b, backed_a],
                vec![chain_a_assignment, chain_b_assignment],
                &group_validators,
                &paras,
                &mut events,
            ),
            Err(Error::UnscheduledCandidate),
        );
    }

    // candidate not backed.
    {
        let mut builder = TestCandidateBuilder::new();
        builder.para_id = CHAIN_A;
        builder.relay_parent = PARENT_HASH;
        builder.pov_hash = 1;
        builder.persisted_validation_data_hash = 11;
        let mut candidate = builder.build();
        collator_sign_candidate(COLLATOR_ONE, &mut candidate);
        let backed = back_candidate(candidate, &validators, &[0, 1], &ctx, BackingKind::Lacking);
        assert_eq!(
            engine.process_candidates(
                round_at(5),
                &config,
                vec![backed],
                vec![chain_a_assignment],
                &group_validators,
                &paras,
                &mut events,
            ),
            Err(Error::InsufficientBacking),
        );
    }

    // candidate not in parent context.
    {
        let wrong_parent_hash: u64 = 222;
        assert!(PARENT_HASH != wrong_parent_hash);
        let mut builder = TestCandidateBuilder::new();
        builder.para_id = CHAIN_A;
        builder.relay_parent = wrong_parent_hash;
        builder.pov_hash = 1;
        builder.persisted_validation_data_hash = 11;
        let mut candidate = builder.build();
        collator_sign_candidate(COLLATOR_ONE, &mut candidate);
        let backed =
            back_candidate(candidate, &validators, &[0, 1], &ctx, BackingKind::Threshold);
        assert_eq!(
            engine.process_candidates(
                round_at(5),
                &config,
                vec![backed],
                vec![chain_a_assignment],
                &group_validators,
                &paras,
                &mut events,
            ),
            Err(Error::CandidateNotInParentContext),
        );
    }

    // candidate has wrong collator.
    {
        let mut builder = TestCandidateBuilder::new();
        builder.para_id = THREAD_A;
        builder.relay_parent = PARENT_HASH;
        builder.pov_hash = 1;
        builder.persisted_validation_data_hash = 13;
        let mut candidate = builder.build();
        assert!(COLLATOR_ONE != thread_collator);
        collator_sign_candidate(COLLATOR_ONE, &mut candidate);
        let backed = back_candidate(candidate, &validators, &[4], &ctx, BackingKind::Threshold);
        assert_eq!(
            engine.process_candidates(
                round_at(5),
                &config,
                vec![backed],
                vec![chain_a_assignment, chain_b_assignment, thread_a_assignment],
                &group_validators,
                &paras,
                &mut events,
            ),
            Err(Error::WrongCollator),
        );
    }

    // candidate not well-signed by collator.
    {
        let mut builder = TestCandidateBuilder::new();
        builder.para_id = THREAD_A;
        builder.relay_parent = PARENT_HASH;
        builder.pov_hash = 1;
        builder.persisted_validation_data_hash = 13;
        let mut candidate = builder.build();
        assert_eq!(COLLATOR_TWO, thread_collator);
        collator_sign_candidate(COLLATOR_TWO, &mut candidate);
        // change the candidate after signing.
        candidate.descriptor.pov_hash = 2;
        let backed = back_candidate(candidate, &validators, &[4], &ctx, BackingKind::Threshold);
        assert_eq!(
            engine.process_candidates(
                round_at(5),
                &config,
                vec![backed],
                vec![thread_a_assignment],
                &group_validators,
                &paras,
                &mut events,
            ),
            Err(Error::NotCollatorSigned),
        );
    }

    // para occupied - reject.
    {
        let mut builder = TestCandidateBuilder::new();
        builder.para_id = CHAIN_A;
        builder.relay_parent = PARENT_HASH;
        builder.pov_hash = 1;
        builder.persisted_validation_data_hash = 11;
        let mut candidate = builder.build();
        collator_sign_candidate(COLLATOR_ONE, &mut candidate);
        let backed =
            back_candidate(candidate, &validators, &[0, 1], &ctx, BackingKind::Threshold);

        let blocker = TestCandidateBuilder::new().build();
        engine.insert_pending_availability(
            CHAIN_A,
            CandidatePendingAvailability::new(
                0,
                blocker.descriptor,
                default_availability_votes(),
                3,
                4,
            ),
        );
        engine.insert_pending_commitments(CHAIN_A, blocker.commitments);

        assert_eq!(
            engine.process_candidates(
                round_at(5),
                &config,
                vec![backed],
                vec![chain_a_assignment],
                &group_validators,
                &paras,
                &mut events,
            ),
            Err(Error::CandidateScheduledBeforeParaFree),
        );

        engine.remove_pending_availability(CHAIN_A);
        engine.remove_pending_commitments(CHAIN_A);
    }

    // messed up commitments storage - do not panic - reject.
    {
        let mut builder = TestCandidateBuilder::new();
        builder.para_id = CHAIN_A;
        builder.relay_parent = PARENT_HASH;
        builder.pov_hash = 1;
        builder.persisted_validation_data_hash = 11;
        let mut candidate = builder.build();
        collator_sign_candidate(COLLATOR_ONE, &mut candidate);

        // this is not supposed to happen
        engine.insert_pending_commitments(CHAIN_A, candidate.commitments.duplicate());

        let backed =
            back_candidate(candidate, &validators, &[0, 1], &ctx, BackingKind::Threshold);
        assert_eq!(
            engine.process_candidates(
                round_at(5),
                &config,
                vec![backed],
                vec![chain_a_assignment],
                &group_validators,
                &paras,
                &mut events,
            ),
            Err(Error::CandidateScheduledBeforeParaFree),
        );

        engine.remove_pending_commitments(CHAIN_A);
    }

    // interfering code upgrade - reject
    {
        let mut builder = TestCandidateBuilder::new();
        builder.para_id = CHAIN_A;
        builder.relay_parent = PARENT_HASH;
        builder.pov_hash = 1;
        builder.new_validation_code = Some(vec![5, 6, 7, 8]);
        builder.persisted_validation_data_hash = 11;
        let mut candidate = builder.build();
        collator_sign_candidate(COLLATOR_ONE, &mut candidate);
        let backed =
            back_candidate(candidate, &validators, &[0, 1], &ctx, BackingKind::Threshold);

        paras.schedule_code_upgrade(CHAIN_A, vec![1, 2, 3, 4], 10);
        assert_eq!(paras.last_code_upgrade(CHAIN_A), Some(10));

        assert_eq!(
            engine.process_candidates(
                round_at(5),
                &config,
                vec![backed],
                vec![chain_a_assignment],
                &group_validators,
                &paras,
                &mut events,
            ),
            Err(Error::PrematureCodeUpgrade),
        );
    }

    // Bad validation data hash - reject
    {
        let mut builder = TestCandidateBuilder::new();
        builder.para_id = CHAIN_A;
        builder.relay_parent = PARENT_HASH;
        builder.pov_hash = 1;
        builder.persisted_validation_data_hash = 42;
        let mut candidate = builder.build();
        collator_sign_candidate(COLLATOR_ONE, &mut candidate);
        let backed =
            back_candidate(candidate, &validators, &[0, 1], &ctx, BackingKind::Threshold);
        assert_eq!(
            engine.process_candidates(
                round_at(5),
                &config,
                vec![backed],
                vec![chain_a_assignment],
                &group_validators,
                &paras,
                &mut events,
            ),
            Err(Error::ValidationDataHashMismatch),
        );
    }
}

#[test]
fn backing_works() {
    let mut engine = new_engine();
    let mut paras = Paras::new();
    paras.set_validation_data_hash(CHAIN_A, 11);
    paras.set_validation_data_hash(CHAIN_B, 12);
    paras.set_validation_data_hash(THREAD_A, 13);
    let mut events: Vec<Event> = Vec::new();
    let config = default_config();
    let validators = validator_keys();
    let ctx = signing_context();

    let group_validators: Vec<Vec<u32>> = vec![vec![0, 1], vec![2, 3], vec![4]];
    let thread_collator: u64 = COLLATOR_TWO;

    let chain_a_assignment = CoreAssignment {
        core: 0,
        para_id: CHAIN_A,
        group_idx: 0,
        required_collator: None,
    };
    let chain_b_assignment = CoreAssignment {
        core: 1,
        para_id: CHAIN_B,
        group_idx: 1,
        required_collator: None,
    };
    let thread_a_assignment = CoreAssignment {
        core: 2,
        para_id: THREAD_A,
        group_idx: 2,
        required_collator: Some(thread_collator),
    };

    let mut builder_a = TestCandidateBuilder::new();
    builder_a.para_id = CHAIN_A;
    builder_a.relay_parent = PARENT_HASH;
    builder_a.pov_hash = 1;
    builder_a.persisted_validation_data_hash = 11;
    let mut candidate_a = builder_a.build();
    collator_sign_candidate(COLLATOR_ONE, &mut candidate_a);

    let mut builder_b = TestCandidateBuilder::new();
    builder_b.para_id = CHAIN_B;
    builder_b.relay_parent = PARENT_HASH;
    builder_b.pov_hash = 2;
    builder_b.persisted_validation_data_hash = 12;
    let mut candidate_b = builder_b.build();
    collator_sign_candidate(COLLATOR_ONE, &mut candidate_b);

    let mut builder_c = TestCandidateBuilder::new();
    builder_c.para_id = THREAD_A;
    builder_c.relay_parent = PARENT_HASH;
    builder_c.pov_hash = 3;
    builder_c.persisted_validation_data_hash = 13;
    let mut candidate_c = builder_c.build();
    collator_sign_candidate(COLLATOR_TWO, &mut candidate_c);

    let backed_a = back_candidate(
        candidate_a.duplicate(),
        &validators,
        &[0, 1],
        &ctx,
        BackingKind::Threshold,
    );
    let backed_b = back_candidate(
        candidate_b.duplicate(),
        &validators,
        &[2, 3],
        &ctx,
        BackingKind::Threshold,
    );
    let backed_c = back_candidate(
        candidate_c.duplicate(),
        &validators,
        &[4],
        &ctx,
        BackingKind::Threshold,
    );

    let occupied_cores = engine
        .process_candidates(
            round_at(5),
            &config,
            vec![backed_a, backed_b, backed_c],
            vec![chain_a_assignment, chain_b_assignment, thread_a_assignment],
            &group_validators,
            &paras,
            &mut events,
        )
        .expect("candidates scheduled, in order, and backed");

    assert_eq!(occupied_cores, vec![0, 1, 2]);

    assert_eq!(
        engine.pending_availability(CHAIN_A),
        Some(&CandidatePendingAvailability::new(
            0,
            candidate_a.descriptor,
            default_availability_votes(),
            4,
            5,
        )),
    );
    assert_eq!(engine.pending_commitments(CHAIN_A), Some(&candidate_a.commitments));

    assert_eq!(
        engine.pending_availability(CHAIN_B),
        Some(&CandidatePendingAvailability::new(
            1,
            candidate_b.descriptor,
            default_availability_votes(),
            4,
            5,
        )),
    );
    assert_eq!(engine.pending_commitments(CHAIN_B), Some(&candidate_b.commitments));

    assert_eq!(
        engine.pending_availability(THREAD_A),
        Some(&CandidatePendingAvailability::new(
            2,
            candidate_c.descriptor,
            default_availability_votes(),
            4,
            5,
        )),
    );
    assert_eq!(engine.pending_commitments(THREAD_A), Some(&candidate_c.commitments));
}

#[test]
fn can_include_candidate_with_ok_code_upgrade() {
    let mut engine = new_engine();
    let mut paras = Paras::new();
    paras.set_validation_data_hash(CHAIN_A, 11);
    let mut events: Vec<Event> = Vec::new();
    let config = default_config();
    let validators = validator_keys();
    let ctx = signing_context();

    let group_validators: Vec<Vec<u32>> = vec![vec![0, 1, 2, 3, 4]];
    let chain_a_assignment = CoreAssignment {
        core: 0,
        para_id: CHAIN_A,
        group_idx: 0,
        required_collator: None,
    };

    let mut builder_a = TestCandidateBuilder::new();
    builder_a.para_id = CHAIN_A;
    builder_a.relay_parent = PARENT_HASH;
    builder_a.pov_hash = 1;
    builder_a.persisted_validation_data_hash = 11;
    builder_a.new_validation_code = Some(vec![1, 2, 3]);
    let mut candidate_a = builder_a.build();
    collator_sign_candidate(COLLATOR_ONE, &mut candidate_a);

    let backed_a = back_candidate(
        candidate_a.duplicate(),
        &validators,
        &[0, 1, 2, 3, 4],
        &ctx,
        BackingKind::Threshold,
    );

    let occupied_cores = engine
        .process_candidates(
            round_at(5),
            &config,
            vec![backed_a],
            vec![chain_a_assignment],
            &group_validators,
            &paras,
            &mut events,
        )
        .expect("candidates scheduled, in order, and backed");

    assert_eq!(occupied_cores, vec![0]);

    assert_eq!(
        engine.pending_availability(CHAIN_A),
        Some(&CandidatePendingAvailability::new(
            0,
            candidate_a.descriptor,
            default_availability_votes(),
            4,
            5,
        )),
    );
    assert_eq!(engine.pending_commitments(CHAIN_A), Some(&candidate_a.commitments));
}

#[test]
fn session_change_wipes_and_updates_session_info() {
    let mut engine = new_engine();
    let validators = validator_keys();
    let validators_new = vec![10, 20, 30];

    engine.insert_bitfield_record(0, AvailabilityBitfieldRecord::new(default_bitfield(), 9));
    engine.insert_bitfield_record(1, AvailabilityBitfieldRecord::new(default_bitfield(), 9));
    engine.insert_bitfield_record(4, AvailabilityBitfieldRecord::new(default_bitfield(), 9));

    let candidate = TestCandidateBuilder::new().build();
    engine.insert_pending_availability(
        CHAIN_A,
        CandidatePendingAvailability::new(
            0,
            candidate.descriptor,
            default_availability_votes(),
            5,
            6,
        ),
    );
    engine.insert_pending_commitments(CHAIN_A, candidate.commitments.duplicate());

    engine.insert_pending_availability(
        CHAIN_B,
        CandidatePendingAvailability::new(
            1,
            candidate.descriptor,
            default_availability_votes(),
            6,
            7,
        ),
    );
    engine.insert_pending_commitments(CHAIN_B, candidate.commitments);

    assert_eq!(engine.validators(), &validators);
    assert_eq!(engine.session_index(), 5);

    assert!(engine.bitfield_record(0).is_some());
    assert!(engine.bitfield_record(1).is_some());
    assert!(engine.bitfield_record(4).is_some());

    assert!(engine.pending_availability(CHAIN_A).is_some());
    assert!(engine.pending_availability(CHAIN_B).is_some());
    assert!(engine.pending_commitments(CHAIN_A).is_some());
    assert!(engine.pending_commitments(CHAIN_B).is_some());

    engine.on_new_session(SessionChangeNotification {
        validators: validators_new.clone(),
        session_index: 6,
    });

    assert_eq!(engine.validators(), &validators_new);
    assert_eq!(engine.session_index(), 6);

    assert!(engine.bitfield_record(0).is_none());
    assert!(engine.bitfield_record(1).is_none());
    assert!(engine.bitfield_record(4).is_none());

    assert!(engine.pending_availability(CHAIN_A).is_none());
    assert!(engine.pending_availability(CHAIN_B).is_none());
    assert!(engine.pending_commitments(CHAIN_A).is_none());
    assert!(engine.pending_commitments(CHAIN_B).is_none());

    assert_eq!(engine.bitfield_record_count(), 0);
    assert_eq!(engine.pending_availability_count(), 0);
    assert_eq!(engine.pending_commitments_count(), 0);
}
