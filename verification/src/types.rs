//! The data model of the inclusion engine.
//!
//! All values are plain: identifiers and digests are machine integers,
//! bitfields are `Vec<bool>`, head data and validation code are `Vec<u8>`.
//! A signature is modelled as an ideal one: the value records who signed
//! and exactly what was signed, and verification compares that record
//! against the expected message.  Each type with sequence-valued fields has
//! a view onto a ghost struct over `Seq`, which the contracts speak of.

use crate::bits::{bits_equal, bytes_equal, clone_bits, clone_bytes};
use vstd::prelude::*;

verus! {

/// Identifier of a shard (parachain or parathread).
pub type ParaId = u32;

/// Index of an availability core.
pub type CoreIndex = u32;

/// Index of a validator group.
pub type GroupIndex = u32;

/// Index of a validator within the validator set.
pub type ValidatorIndex = u32;

/// A validator's public key.
pub type ValidatorId = u64;

/// A collator's public key.
pub type CollatorId = u64;

/// A relay-chain block number.
pub type BlockNumber = u64;

/// A hash value.
pub type Digest = u64;

/// Index of a session.
pub type SessionIndex = u32;

/// Protocol parameters read from the configuration provider.
#[derive(Clone, Copy, PartialEq, Eq, Structural, Debug)]
pub struct HostConfig {
    /// Rounds that must elapse between two code upgrades of one shard.
    pub validation_upgrade_frequency: BlockNumber,
    /// Rounds after the relay parent at which a new code takes effect.
    pub validation_upgrade_delay: BlockNumber,
}

/// The context a signature is bound to: the parent-block hash and the
/// session index.
#[derive(Clone, Copy, PartialEq, Eq, Structural, Debug)]
pub struct SigningContext {
    pub parent_hash: Digest,
    pub session_index: SessionIndex,
}

/// Everything that can go wrong while processing a batch.
#[derive(Clone, Copy, PartialEq, Eq, Structural, Debug)]
pub enum Error {
    /// Availability bitfield has unexpected size.
    WrongBitfieldSize,
    /// Multiple bitfields submitted by same validator or validators out of
    /// order by index.
    BitfieldDuplicateOrUnordered,
    /// Validator index out of bounds.
    ValidatorIndexOutOfBounds,
    /// Invalid signature.
    InvalidBitfieldSignature,
    /// Candidate submitted but shard not scheduled.
    UnscheduledCandidate,
    /// Candidate scheduled despite pending candidate already existing for
    /// the shard.
    CandidateScheduledBeforeParaFree,
    /// Candidate included with the wrong collator.
    WrongCollator,
    /// Scheduled cores out of order.
    ScheduledOutOfOrder,
    /// Code upgrade prematurely.
    PrematureCodeUpgrade,
    /// Candidate not in parent context.
    CandidateNotInParentContext,
    /// The bitfield contains a bit relating to an unassigned availability
    /// core.
    UnoccupiedBitInBitfield,
    /// Invalid group index in core assignment.
    InvalidGroupIndex,
    /// Insufficient (non-majority) backing.
    InsufficientBacking,
    /// Invalid (bad signature, unknown validator) backing.
    InvalidBacking,
    /// Collator did not sign the proof-of-validity.
    NotCollatorSigned,
    /// The validation data hash does not match expected.
    ValidationDataHashMismatch,
}

/// A collator's signature over the candidate fields it commits to.
#[derive(Clone, Copy, PartialEq, Eq, Structural, Debug)]
pub struct CollatorSignature {
    pub signer: CollatorId,
    pub relay_parent: Digest,
    pub para_id: ParaId,
    pub persisted_validation_data_hash: Digest,
    pub pov_hash: Digest,
}

impl CollatorSignature {
    /// A signature by `key` over the given candidate fields.
    pub fn sign(
        key: CollatorId,
        relay_parent: Digest,
        para_id: ParaId,
        persisted_validation_data_hash: Digest,
        pov_hash: Digest,
    ) -> (r: CollatorSignature)
        ensures
            r == (CollatorSignature {
                signer: key,
                relay_parent,
                para_id,
                persisted_validation_data_hash,
                pov_hash,
            }),
    {
        CollatorSignature { signer: key, relay_parent, para_id, persisted_validation_data_hash, pov_hash }
    }
}

/// The descriptor of a candidate: what identifies a proposed shard block.
#[derive(Clone, Copy, PartialEq, Eq, Structural, Debug)]
pub struct CandidateDescriptor {
    pub para_id: ParaId,
    pub relay_parent: Digest,
    pub collator: CollatorId,
    pub persisted_validation_data_hash: Digest,
    pub pov_hash: Digest,
    pub signature: CollatorSignature,
}

impl CandidateDescriptor {
    /// The collator named in the descriptor signed exactly the descriptor's
    /// own fields.
    pub open spec fn collator_signature_ok(self) -> bool {
        &&& self.signature.signer == self.collator
        &&& self.signature.relay_parent == self.relay_parent
        &&& self.signature.para_id == self.para_id
        &&& self.signature.persisted_validation_data_hash
            == self.persisted_validation_data_hash
        &&& self.signature.pov_hash == self.pov_hash
    }

    /// Checks the collator signature against the descriptor.
    pub fn check_collator_signature(&self) -> (r: bool)
        ensures
            r == self.collator_signature_ok(),
    {
        self.signature.signer == self.collator && self.signature.relay_parent
            == self.relay_parent && self.signature.para_id == self.para_id
            && self.signature.persisted_validation_data_hash
            == self.persisted_validation_data_hash && self.signature.pov_hash == self.pov_hash
    }
}

/// View of [`CandidateCommitments`].
#[verifier::ext_equal]
pub ghost struct CommitmentsView {
    pub head_data: Seq<u8>,
    pub new_validation_code: Option<Seq<u8>>,
}

/// The outputs a candidate commits to: the new head data and, possibly, a
/// new validation code.
#[derive(PartialEq, Eq, Debug)]
pub struct CandidateCommitments {
    pub head_data: Vec<u8>,
    pub new_validation_code: Option<Vec<u8>>,
}

impl View for CandidateCommitments {
    type V = CommitmentsView;

    open spec fn view(&self) -> CommitmentsView {
        CommitmentsView {
            head_data: self.head_data@,
            new_validation_code: match self.new_validation_code {
                Some(code) => Some(code@),
                None => None,
            },
        }
    }
}

impl CandidateCommitments {
    /// A fresh value holding the same commitments.
    pub fn duplicate(&self) -> (r: CandidateCommitments)
        ensures
            r@ == self@,
    {
        let code = match &self.new_validation_code {
            Some(code) => Some(clone_bytes(code)),
            None => None,
        };
        let r = CandidateCommitments { head_data: clone_bytes(&self.head_data), new_validation_code: code };
        proof {
            assert(r@ =~= self@);
        }
        r
    }

    /// Whether both values hold the same commitments.
    pub fn same_as(&self, other: &CandidateCommitments) -> (r: bool)
        ensures
            r == (self@ == other@),
    {
        let heads = bytes_equal(&self.head_data, &other.head_data);
        let codes = match (&self.new_validation_code, &other.new_validation_code) {
            (Some(a), Some(b)) => bytes_equal(a, b),
            (None, None) => true,
            _ => false,
        };
        let r = heads && codes;
        proof {
            if r {
                assert(self@ =~= other@);
            } else {
                assert(self@ != other@) by {
                    if self@ == other@ {
                        assert(self@.head_data == other@.head_data);
                        assert(self@.new_validation_code == other@.new_validation_code);
                    }
                }
            }
        }
        r
    }
}

/// View of [`CommittedCandidateReceipt`].
#[verifier::ext_equal]
pub ghost struct ReceiptView {
    pub descriptor: CandidateDescriptor,
    pub commitments: CommitmentsView,
}

/// A candidate descriptor together with the commitments it carries.
#[derive(PartialEq, Eq, Debug)]
pub struct CommittedCandidateReceipt {
    pub descriptor: CandidateDescriptor,
    pub commitments: CandidateCommitments,
}

impl View for CommittedCandidateReceipt {
    type V = ReceiptView;

    open spec fn view(&self) -> ReceiptView {
        ReceiptView { descriptor: self.descriptor, commitments: self.commitments@ }
    }
}

impl CommittedCandidateReceipt {
    /// A fresh value holding the same receipt.
    pub fn duplicate(&self) -> (r: CommittedCandidateReceipt)
        ensures
            r@ == self@,
    {
        let r = CommittedCandidateReceipt {
            descriptor: self.descriptor,
            commitments: self.commitments.duplicate(),
        };
        proof {
            assert(r@ =~= self@);
        }
        r
    }
}

/// View of [`CandidatePendingAvailability`].
#[verifier::ext_equal]
pub ghost struct PendingView {
    pub core: CoreIndex,
    pub descriptor: CandidateDescriptor,
    pub availability_votes: Seq<bool>,
    pub relay_parent_number: BlockNumber,
    pub backed_in_number: BlockNumber,
}

/// A backed candidate pending availability: the occupied core, the
/// descriptor, one availability-vote bit per validator, and the rounds the
/// candidate's parent belongs to and it was backed in.
#[derive(PartialEq, Eq, Debug)]
pub struct CandidatePendingAvailability {
    core: CoreIndex,
    descriptor: CandidateDescriptor,
    availability_votes: Vec<bool>,
    relay_parent_number: BlockNumber,
    backed_in_number: BlockNumber,
}

impl View for CandidatePendingAvailability {
    type V = PendingView;

    closed spec fn view(&self) -> PendingView {
        PendingView {
            core: self.core,
            descriptor: self.descriptor,
            availability_votes: self.availability_votes@,
            relay_parent_number: self.relay_parent_number,
            backed_in_number: self.backed_in_number,
        }
    }
}

impl CandidatePendingAvailability {
    pub fn new(
        core: CoreIndex,
        descriptor: CandidateDescriptor,
        availability_votes: Vec<bool>,
        relay_parent_number: BlockNumber,
        backed_in_number: BlockNumber,
    ) -> (r: CandidatePendingAvailability)
        ensures
            r@ == (PendingView {
                core,
                descriptor,
                availability_votes: availability_votes@,
                relay_parent_number,
                backed_in_number,
            }),
    {
        CandidatePendingAvailability {
            core,
            descriptor,
            availability_votes,
            relay_parent_number,
            backed_in_number,
        }
    }

    /// The availability votes on the candidate, one bit per validator.
    pub fn availability_votes(&self) -> (r: &Vec<bool>)
        ensures
            r@ == self@.availability_votes,
    {
        &self.availability_votes
    }

    /// The relay-chain block number this was backed in.
    pub fn backed_in_number(&self) -> (r: BlockNumber)
        ensures
            r == self@.backed_in_number,
    {
        self.backed_in_number
    }

    /// The core this candidate occupies.
    pub fn core_occupied(&self) -> (r: CoreIndex)
        ensures
            r == self@.core,
    {
        self.core
    }

    /// The candidate's descriptor.
    pub fn descriptor(&self) -> (r: &CandidateDescriptor)
        ensures
            *r == self@.descriptor,
    {
        &self.descriptor
    }

    /// The relay round the candidate's parent belongs to.
    pub fn relay_parent_number(&self) -> (r: BlockNumber)
        ensures
            r == self@.relay_parent_number,
    {
        self.relay_parent_number
    }

    /// A fresh value holding the same record.
    pub fn duplicate(&self) -> (r: CandidatePendingAvailability)
        ensures
            r@ == self@,
    {
        let r = CandidatePendingAvailability {
            core: self.core,
            descriptor: self.descriptor,
            availability_votes: clone_bits(&self.availability_votes),
            relay_parent_number: self.relay_parent_number,
            backed_in_number: self.backed_in_number,
        };
        proof {
            assert(r@ =~= self@);
        }
        r
    }

    /// Sets the vote bit of the validator at `idx`; out-of-range indices
    /// are ignored (the record then stays as it was).
    pub fn set_availability_vote(&mut self, idx: usize)
        ensures
            final(self)@ == (PendingView {
                availability_votes: set_vote(old(self)@.availability_votes, idx as int),
                ..old(self)@
            }),
    {
        if idx < self.availability_votes.len() {
            self.availability_votes.set(idx, true);
            proof {
                assert(self@.availability_votes =~= set_vote(
                    old(self)@.availability_votes,
                    idx as int,
                ));
            }
        } else {
            proof {
                assert(self@.availability_votes =~= set_vote(
                    old(self)@.availability_votes,
                    idx as int,
                ));
            }
        }
    }
}

/// `votes` with the bit at `idx` set, when `idx` is in range; `votes`
/// unchanged otherwise.
pub open spec fn set_vote(votes: Seq<bool>, idx: int) -> Seq<bool> {
    if 0 <= idx < votes.len() {
        votes.update(idx, true)
    } else {
        votes
    }
}

/// View of [`AvailabilityBitfieldRecord`].
#[verifier::ext_equal]
pub ghost struct RecordView {
    pub bitfield: Seq<bool>,
    pub submitted_at: BlockNumber,
}

/// A validator's most recently accepted bitfield and the round it was
/// submitted in.
#[derive(PartialEq, Eq, Debug)]
pub struct AvailabilityBitfieldRecord {
    bitfield: Vec<bool>,
    submitted_at: BlockNumber,
}

impl View for AvailabilityBitfieldRecord {
    type V = RecordView;

    closed spec fn view(&self) -> RecordView {
        RecordView { bitfield: self.bitfield@, submitted_at: self.submitted_at }
    }
}

impl AvailabilityBitfieldRecord {
    pub fn new(bitfield: Vec<bool>, submitted_at: BlockNumber) -> (r: AvailabilityBitfieldRecord)
        ensures
            r@ == (RecordView { bitfield: bitfield@, submitted_at }),
    {
        AvailabilityBitfieldRecord { bitfield, submitted_at }
    }

    /// The recorded bitfield.
    pub fn bitfield(&self) -> (r: &Vec<bool>)
        ensures
            r@ == self@.bitfield,
    {
        &self.bitfield
    }

    /// The round the bitfield was submitted in.
    pub fn submitted_at(&self) -> (r: BlockNumber)
        ensures
            r == self@.submitted_at,
    {
        self.submitted_at
    }
}

/// View of [`BitfieldSignature`].
#[verifier::ext_equal]
pub ghost struct BitfieldSignatureView {
    pub signer: ValidatorId,
    pub parent_hash: Digest,
    pub session_index: SessionIndex,
    pub bits: Seq<bool>,
}

/// A validator's signature over an availability bitfield: the ideal record
/// of who signed which bits in which context.
#[derive(PartialEq, Eq, Debug)]
pub struct BitfieldSignature {
    signer: ValidatorId,
    parent_hash: Digest,
    session_index: SessionIndex,
    bits: Vec<bool>,
}

impl View for BitfieldSignature {
    type V = BitfieldSignatureView;

    closed spec fn view(&self) -> BitfieldSignatureView {
        BitfieldSignatureView {
            signer: self.signer,
            parent_hash: self.parent_hash,
            session_index: self.session_index,
            bits: self.bits@,
        }
    }
}

/// View of [`SignedAvailabilityBitfield`].
#[verifier::ext_equal]
pub ghost struct SignedBitfieldView {
    pub payload: Seq<bool>,
    pub validator_index: ValidatorIndex,
    pub signature: BitfieldSignatureView,
}

/// The signature of `sb` verifies for the validator key `key` in the
/// signing context `ctx`.
pub open spec fn bitfield_signature_ok(
    sb: SignedBitfieldView,
    ctx: SigningContext,
    key: ValidatorId,
) -> bool {
    &&& sb.signature.signer == key
    &&& sb.signature.parent_hash == ctx.parent_hash
    &&& sb.signature.session_index == ctx.session_index
    &&& sb.signature.bits == sb.payload
}

/// An availability bitfield, signed by a validator: one bit per
/// availability core, a set bit meaning the validator holds that core's
/// data.
#[derive(PartialEq, Eq, Debug)]
pub struct SignedAvailabilityBitfield {
    payload: Vec<bool>,
    validator_index: ValidatorIndex,
    signature: BitfieldSignature,
}

impl View for SignedAvailabilityBitfield {
    type V = SignedBitfieldView;

    closed spec fn view(&self) -> SignedBitfieldView {
        SignedBitfieldView {
            payload: self.payload@,
            validator_index: self.validator_index,
            signature: self.signature@,
        }
    }
}

impl SignedAvailabilityBitfield {
    /// Signs `payload` with `key` in the given context.
    pub fn sign(
        payload: Vec<bool>,
        ctx: &SigningContext,
        validator_index: ValidatorIndex,
        key: ValidatorId,
    ) -> (r: SignedAvailabilityBitfield)
        ensures
            r@.payload == payload@,
            r@.validator_index == validator_index,
            r@.signature == (BitfieldSignatureView {
                signer: key,
                parent_hash: ctx.parent_hash,
                session_index: ctx.session_index,
                bits: payload@,
            }),
            bitfield_signature_ok(r@, *ctx, key),
    {
        let bits = clone_bits(&payload);
        SignedAvailabilityBitfield {
            payload,
            validator_index,
            signature: BitfieldSignature {
                signer: key,
                parent_hash: ctx.parent_hash,
                session_index: ctx.session_index,
                bits,
            },
        }
    }

    /// The signed bitfield.
    pub fn payload(&self) -> (r: &Vec<bool>)
        ensures
            r@ == self@.payload,
    {
        &self.payload
    }

    /// The index of the validator that signed.
    pub fn validator_index(&self) -> (r: ValidatorIndex)
        ensures
            r == self@.validator_index,
    {
        self.validator_index
    }

    /// Takes the bitfield out, dropping the signature.
    pub fn into_payload(self) -> (r: Vec<bool>)
        ensures
            r@ == self@.payload,
    {
        self.payload
    }

    /// Checks the signature against context and key.
    pub fn check_signature(&self, ctx: &SigningContext, key: ValidatorId) -> (r: bool)
        ensures
            r == bitfield_signature_ok(self@, *ctx, key),
    {
        self.signature.signer == key && self.signature.parent_hash == ctx.parent_hash
            && self.signature.session_index == ctx.session_index
            && bits_equal(&self.signature.bits, &self.payload)
    }
}

/// View of [`ValidityAttestation`].
#[verifier::ext_equal]
pub ghost struct AttestationView {
    pub signer: ValidatorId,
    pub parent_hash: Digest,
    pub session_index: SessionIndex,
    pub candidate: ReceiptView,
}

/// A validator attests the given candidate receipt is valid, in context
/// `ctx`, under key `key`.
pub open spec fn attestation_ok(
    a: AttestationView,
    candidate: ReceiptView,
    ctx: SigningContext,
    key: ValidatorId,
) -> bool {
    &&& a.signer == key
    &&& a.parent_hash == ctx.parent_hash
    &&& a.session_index == ctx.session_index
    &&& a.candidate == candidate
}

/// A backing validator's statement that a candidate is valid: the ideal
/// record of who signed which receipt in which context.
#[derive(PartialEq, Eq, Debug)]
pub struct ValidityAttestation {
    signer: ValidatorId,
    parent_hash: Digest,
    session_index: SessionIndex,
    candidate: CommittedCandidateReceipt,
}

impl View for ValidityAttestation {
    type V = AttestationView;

    closed spec fn view(&self) -> AttestationView {
        AttestationView {
            signer: self.signer,
            parent_hash: self.parent_hash,
            session_index: self.session_index,
            candidate: self.candidate@,
        }
    }
}

impl ValidityAttestation {
    /// Signs a validity statement on `candidate` with `key` in `ctx`.
    pub fn sign(
        candidate: &CommittedCandidateReceipt,
        ctx: &SigningContext,
        key: ValidatorId,
    ) -> (r: ValidityAttestation)
        ensures
            r@ == (AttestationView {
                signer: key,
                parent_hash: ctx.parent_hash,
                session_index: ctx.session_index,
                candidate: candidate@,
            }),
    {
        ValidityAttestation {
            signer: key,
            parent_hash: ctx.parent_hash,
            session_index: ctx.session_index,
            candidate: candidate.duplicate(),
        }
    }

    /// Checks the statement against the candidate, context, and key.
    pub fn check(
        &self,
        candidate: &CommittedCandidateReceipt,
        ctx: &SigningContext,
        key: ValidatorId,
    ) -> (r: bool)
        ensures
            r == attestation_ok(self@, candidate@, *ctx, key),
    {
        let r = self.signer == key && self.parent_hash == ctx.parent_hash
            && self.session_index == ctx.session_index
            && self.candidate.descriptor == candidate.descriptor
            && self.candidate.commitments.same_as(&candidate.commitments);
        proof {
            if r {
                assert(self@.candidate =~= candidate@);
            } else {
                assert(!attestation_ok(self@, candidate@, *ctx, key)) by {
                    if attestation_ok(self@, candidate@, *ctx, key) {
                        assert(self@.candidate.descriptor == candidate@.descriptor);
                        assert(self@.candidate.commitments == candidate@.commitments);
                    }
                }
            }
        }
        r
    }
}

/// View of [`BackedCandidate`].
#[verifier::ext_equal]
pub ghost struct BackedView {
    pub candidate: ReceiptView,
    pub validity_votes: Seq<AttestationView>,
    pub validator_indices: Seq<bool>,
}

/// A candidate with the backing attestations of its validator group: the
/// receipt, the attestations, and one bit per group member saying whose
/// attestations are carried.
#[derive(PartialEq, Eq, Debug)]
pub struct BackedCandidate {
    pub candidate: CommittedCandidateReceipt,
    pub validity_votes: Vec<ValidityAttestation>,
    pub validator_indices: Vec<bool>,
}

impl View for BackedCandidate {
    type V = BackedView;

    open spec fn view(&self) -> BackedView {
        BackedView {
            candidate: self.candidate@,
            validity_votes: self.validity_votes@.map(|i: int, a: ValidityAttestation| a@),
            validator_indices: self.validator_indices@,
        }
    }
}

impl BackedCandidate {
    /// The candidate's descriptor.
    pub fn descriptor(&self) -> (r: &CandidateDescriptor)
        ensures
            *r == self@.candidate.descriptor,
    {
        &self.candidate.descriptor
    }
}

/// One core assignment of the scheduler for a round: which shard sits on
/// which core, backed by which validator group, and whether a specific
/// collator is required.
#[derive(Clone, Copy, Debug)]
pub struct CoreAssignment {
    pub core: CoreIndex,
    pub para_id: ParaId,
    pub group_idx: GroupIndex,
    pub required_collator: Option<CollatorId>,
}

/// A session-rotation notification: the next validator set and session
/// index.
pub struct SessionChangeNotification {
    pub validators: Vec<ValidatorId>,
    pub session_index: SessionIndex,
}

/// View of [`Event`].
#[verifier::ext_equal]
pub ghost enum EventView {
    /// A candidate was backed.
    CandidateBacked { descriptor: CandidateDescriptor, head_data: Seq<u8> },
    /// A candidate was included.
    CandidateIncluded { descriptor: CandidateDescriptor, head_data: Seq<u8> },
    /// A candidate timed out.
    CandidateTimedOut { descriptor: CandidateDescriptor, head_data: Seq<u8> },
}

/// A domain event of the engine, collected into an ordered output log.
#[derive(PartialEq, Eq, Debug)]
pub enum Event {
    /// A candidate was backed.
    CandidateBacked { descriptor: CandidateDescriptor, head_data: Vec<u8> },
    /// A candidate was included.
    CandidateIncluded { descriptor: CandidateDescriptor, head_data: Vec<u8> },
    /// A candidate timed out.
    CandidateTimedOut { descriptor: CandidateDescriptor, head_data: Vec<u8> },
}

impl View for Event {
    type V = EventView;

    open spec fn view(&self) -> EventView {
        match self {
            Event::CandidateBacked { descriptor, head_data } => EventView::CandidateBacked {
                descriptor: *descriptor,
                head_data: head_data@,
            },
            Event::CandidateIncluded { descriptor, head_data } => EventView::CandidateIncluded {
                descriptor: *descriptor,
                head_data: head_data@,
            },
            Event::CandidateTimedOut { descriptor, head_data } => EventView::CandidateTimedOut {
                descriptor: *descriptor,
                head_data: head_data@,
            },
        }
    }
}

} // verus!
