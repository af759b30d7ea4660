//! The inclusion engine.
//!
//! The engine owns the per-round mutable state: the latest accepted
//! bitfield per validator, the candidate pending availability per shard,
//! the commitments pending availability per shard, the validator set, and
//! the session index.  Its entry points fold incoming bitfields, admit
//! newly backed candidates, sweep timed-out candidates, force an
//! enactment, and rotate the session.  Every batch entry point validates
//! the whole batch before it mutates anything: a failing call leaves all
//! state exactly as it was.

use crate::bits::{clone_bytes, count_ones, covered_by, popcount, zero_bits};
use crate::paras::{HeadEntryView, Paras, UpgradeEntryView};
use crate::store::{
    distinct_keys, lemma_get_characterizes, lemma_insert_existing, lemma_insert_get,
    lemma_remove_absent, lemma_remove_get, spec_contains, spec_get, spec_insert, spec_remove,
    Store,
};
use crate::types::{
    set_vote, AvailabilityBitfieldRecord, BlockNumber, CandidateCommitments,
    CandidatePendingAvailability, CommitmentsView, CommittedCandidateReceipt, CoreIndex, Error,
    Event, EventView, HostConfig, ParaId, PendingView, RecordView, ReceiptView,
    SessionChangeNotification, SessionIndex, SignedAvailabilityBitfield, SigningContext,
    ValidatorId, ValidatorIndex,
};
use vstd::prelude::*;

verus! {

/// The minimum number of positive votes out of `n` that counts as a
/// supermajority: `n - floor(n/3)`.
pub open spec fn threshold_of(n: nat) -> int {
    n - n / 3
}

/// Supermajority threshold of a set of `n` voters.  Pure and total: for
/// every `n` the result is exactly `n - floor(n/3)`.
pub fn supermajority_threshold(n: usize) -> (t: usize)
    ensures
        t == n - n / 3,
        t == threshold_of(n as nat),
{
    n - n / 3
}

/// `a + b`, clamped at the largest block number.
pub open spec fn saturating_add(a: BlockNumber, b: BlockNumber) -> BlockNumber {
    if a + b > u64::MAX {
        u64::MAX
    } else {
        (a + b) as u64
    }
}

/// The relay round one engine call runs in.
#[derive(Clone, Copy, PartialEq, Eq, Structural, Debug)]
pub struct RoundInfo {
    /// The hash of the parent relay block.
    pub parent_hash: crate::types::Digest,
    /// The current relay round.
    pub now: BlockNumber,
}

/// The event log as a sequence of event views.
pub open spec fn log_view(s: Seq<Event>) -> Seq<EventView> {
    s.map(|i: int, e: Event| e@)
}

/// The event emitted when a candidate is included.
pub open spec fn included_event(rv: ReceiptView) -> EventView {
    EventView::CandidateIncluded { descriptor: rv.descriptor, head_data: rv.commitments.head_data }
}

/// The event emitted when a candidate is backed.
pub open spec fn backed_event(rv: ReceiptView) -> EventView {
    EventView::CandidateBacked { descriptor: rv.descriptor, head_data: rv.commitments.head_data }
}

/// The event emitted when a candidate times out.
pub open spec fn timed_out_event(descriptor: crate::types::CandidateDescriptor, c: CommitmentsView) -> EventView {
    EventView::CandidateTimedOut { descriptor, head_data: c.head_data }
}

/// The shard heads after enacting `rv` at relay-parent round `rpn`.
pub open spec fn heads_after_enact(
    heads: Seq<(u32, HeadEntryView)>,
    rv: ReceiptView,
    rpn: BlockNumber,
) -> Seq<(u32, HeadEntryView)> {
    spec_insert(
        heads,
        rv.descriptor.para_id,
        HeadEntryView { head: rv.commitments.head_data, at: rpn },
    )
}

/// The scheduled upgrades after enacting `rv` at relay-parent round `rpn`:
/// unchanged unless the candidate carries new code, which is then scheduled
/// `delay` rounds after the relay parent.
pub open spec fn upgrades_after_enact(
    upgrades: Seq<(u32, UpgradeEntryView)>,
    rv: ReceiptView,
    rpn: BlockNumber,
    delay: BlockNumber,
) -> Seq<(u32, UpgradeEntryView)> {
    match rv.commitments.new_validation_code {
        Some(code) => spec_insert(
            upgrades,
            rv.descriptor.para_id,
            UpgradeEntryView { code, expected_at: saturating_add(rpn, delay) },
        ),
        None => upgrades,
    }
}

/// The state the timeout sweep walks over: the two pending stores, the
/// event log, and the freed cores gathered so far.
#[verifier::ext_equal]
pub ghost struct CollectState {
    pub pending: Seq<(u32, PendingView)>,
    pub commitments: Seq<(u32, CommitmentsView)>,
    pub events: Seq<EventView>,
    pub freed: Seq<CoreIndex>,
}

/// One eviction: the pending pair of `para` is taken out, a timed-out
/// event is emitted when the commitments were present, and the record's
/// core is freed.
pub open spec fn collect_step(st: CollectState, para: ParaId, core: CoreIndex) -> CollectState {
    CollectState {
        pending: spec_remove(st.pending, para),
        commitments: spec_remove(st.commitments, para),
        events: match (spec_get(st.pending, para), spec_get(st.commitments, para)) {
            (Some(p), Some(c)) => st.events.push(timed_out_event(p.descriptor, c)),
            _ => st.events,
        },
        freed: st.freed.push(core),
    }
}

/// The timeout sweep from position `j` on: `work` is the snapshot of the
/// pending entries and `ds` the per-entry decision of the predicate.
pub open spec fn collect_spec(
    st: CollectState,
    work: Seq<(u32, PendingView)>,
    ds: Seq<bool>,
    j: int,
) -> CollectState
    decreases work.len() - j,
{
    if j < 0 || j >= work.len() {
        st
    } else if j < ds.len() && ds[j] {
        collect_spec(collect_step(st, work[j].0, work[j].1.core), work, ds, j + 1)
    } else {
        collect_spec(st, work, ds, j + 1)
    }
}

/// What the sweep does to the maps, read pointwise: entries are only ever
/// removed, and an entry is removed exactly when its decision bit is set.
pub proof fn lemma_collect_spec_props(
    st: CollectState,
    work: Seq<(u32, PendingView)>,
    ds: Seq<bool>,
    j: int,
)
    requires
        distinct_keys(st.pending),
        distinct_keys(st.commitments),
        0 <= j,
    ensures
        distinct_keys(collect_spec(st, work, ds, j).pending),
        distinct_keys(collect_spec(st, work, ds, j).commitments),
        forall|k: u32|
            spec_get(collect_spec(st, work, ds, j).pending, k) is Some ==> spec_get(
                st.pending,
                k,
            ) == spec_get(collect_spec(st, work, ds, j).pending, k),
        forall|k: u32|
            spec_get(collect_spec(st, work, ds, j).commitments, k) is Some ==> spec_get(
                st.commitments,
                k,
            ) == spec_get(collect_spec(st, work, ds, j).commitments, k),
        forall|k: u32|
            spec_get(st.pending, k) is Some && spec_get(
                collect_spec(st, work, ds, j).pending,
                k,
            ) is None ==> exists|i: int|
                j <= i < work.len() && i < ds.len() && ds[i] && work[i].0 == k,
        forall|k: u32|
            spec_get(st.commitments, k) is Some && spec_get(
                collect_spec(st, work, ds, j).commitments,
                k,
            ) is None ==> exists|i: int|
                j <= i < work.len() && i < ds.len() && ds[i] && work[i].0 == k,
        forall|k: u32|
            (spec_get(st.pending, k) is Some && !(exists|i: int|
                j <= i < work.len() && i < ds.len() && ds[i] && work[i].0 == k)) ==> spec_get(
                collect_spec(st, work, ds, j).pending,
                k,
            ) == spec_get(st.pending, k),
        forall|k: u32|
            (spec_get(st.commitments, k) is Some && !(exists|i: int|
                j <= i < work.len() && i < ds.len() && ds[i] && work[i].0 == k)) ==> spec_get(
                collect_spec(st, work, ds, j).commitments,
                k,
            ) == spec_get(st.commitments, k),
    decreases work.len() - j,
{
    if j < work.len() {
        if j < ds.len() && ds[j] {
            let st2 = collect_step(st, work[j].0, work[j].1.core);
            lemma_remove_get(st.pending, work[j].0);
            lemma_remove_get(st.commitments, work[j].0);
            lemma_collect_spec_props(st2, work, ds, j + 1);
        } else {
            lemma_collect_spec_props(st, work, ds, j + 1);
        }
    }
}

/// Which cores are occupied: core `j` is occupied when the lookup assigns
/// it a shard and that shard has a candidate pending availability.
pub open spec fn occupied_row(
    lookup: Seq<Option<ParaId>>,
    pending: Seq<(u32, PendingView)>,
) -> Seq<bool> {
    Seq::new(lookup.len(), |j: int| lookup[j] is Some && spec_contains(pending, lookup[j]->Some_0))
}

/// The first complaint against one signed bitfield, checked in order:
/// size, ordering, validator bounds, occupancy, signature.
pub open spec fn bitfield_error(
    sb: crate::types::SignedBitfieldView,
    n_bits: int,
    last: Option<ValidatorIndex>,
    validators: Seq<ValidatorId>,
    occupied: Seq<bool>,
    ctx: crate::types::SigningContext,
) -> Option<Error> {
    if sb.payload.len() != n_bits {
        Some(Error::WrongBitfieldSize)
    } else if !(last is None || last->Some_0 < sb.validator_index) {
        Some(Error::BitfieldDuplicateOrUnordered)
    } else if sb.validator_index as int >= validators.len() {
        Some(Error::ValidatorIndexOutOfBounds)
    } else if !crate::bits::bits_covered(sb.payload, occupied) {
        Some(Error::UnoccupiedBitInBitfield)
    } else if !crate::types::bitfield_signature_ok(
        sb,
        ctx,
        validators[sb.validator_index as int],
    ) {
        Some(Error::InvalidBitfieldSignature)
    } else {
        None
    }
}

/// The first complaint against the batch from entry `i` on, with `last`
/// the validator index of the entry accepted before.
pub open spec fn bitfields_error_from(
    sbs: Seq<crate::types::SignedBitfieldView>,
    i: int,
    last: Option<ValidatorIndex>,
    n_bits: int,
    validators: Seq<ValidatorId>,
    occupied: Seq<bool>,
    ctx: crate::types::SigningContext,
) -> Option<Error>
    decreases sbs.len() - i,
{
    if i < 0 || i >= sbs.len() {
        None
    } else {
        match bitfield_error(sbs[i], n_bits, last, validators, occupied, ctx) {
            Some(e) => Some(e),
            None => bitfields_error_from(
                sbs,
                i + 1,
                Some(sbs[i].validator_index),
                n_bits,
                validators,
                occupied,
                ctx,
            ),
        }
    }
}

/// When the whole batch passes, every entry passes its own checks and the
/// validator indices ascend strictly.
pub proof fn lemma_batch_passes(
    sbs: Seq<crate::types::SignedBitfieldView>,
    i: int,
    last: Option<ValidatorIndex>,
    n_bits: int,
    validators: Seq<ValidatorId>,
    occupied: Seq<bool>,
    ctx: crate::types::SigningContext,
)
    requires
        0 <= i,
        bitfields_error_from(sbs, i, last, n_bits, validators, occupied, ctx) is None,
    ensures
        forall|k: int|
            i <= k < sbs.len() ==> bitfield_error(
                #[trigger] sbs[k],
                n_bits,
                if k == i {
                    last
                } else {
                    Some(sbs[k - 1].validator_index)
                },
                validators,
                occupied,
                ctx,
            ) is None,
        forall|k1: int, k2: int|
            i <= k1 < k2 < sbs.len() ==> sbs[k1].validator_index < sbs[k2].validator_index,
        forall|k: int|
            i <= k < sbs.len() && last is Some ==> last->Some_0 < #[trigger] sbs[k].validator_index,
    decreases sbs.len() - i,
{
    if i < sbs.len() {
        assert(bitfield_error(sbs[i], n_bits, last, validators, occupied, ctx) is None);
        lemma_batch_passes(
            sbs,
            i + 1,
            Some(sbs[i].validator_index),
            n_bits,
            validators,
            occupied,
            ctx,
        );
        assert forall|k1: int, k2: int|
            i <= k1 < k2 < sbs.len() implies sbs[k1].validator_index
            < sbs[k2].validator_index by {
            if k1 == i {
                assert(sbs[i].validator_index < sbs[k2].validator_index);
            }
        }
    }
}

/// Whether the bit at row `i`, column `j` lies before the lexicographic
/// bound `(bi, bj)`.
pub open spec fn bit_done(i: int, j: int, bi: int, bj: int) -> bool {
    i < bi || (i == bi && j < bj)
}

/// Whether some already-folded set bit targets shard `p` on behalf of
/// validator `v`.
pub open spec fn vote_set_by(
    sbs: Seq<crate::types::SignedBitfieldView>,
    lookup: Seq<Option<ParaId>>,
    p: ParaId,
    v: int,
    bi: int,
    bj: int,
) -> bool {
    exists|i: int, j: int|
        {
            &&& 0 <= i < sbs.len()
            &&& 0 <= j < lookup.len()
            &&& #[trigger] bit_done(i, j, bi, bj)
            &&& sbs[i].validator_index == v
            &&& j < sbs[i].payload.len()
            &&& sbs[i].payload[j]
            &&& lookup[j] == Some(p)
        }
}

/// The vote bitmap of shard `p` after folding every bit before `(bi, bj)`.
pub open spec fn folded_votes(
    votes: Seq<bool>,
    p: ParaId,
    sbs: Seq<crate::types::SignedBitfieldView>,
    lookup: Seq<Option<ParaId>>,
    bi: int,
    bj: int,
) -> Seq<bool> {
    Seq::new(votes.len(), |v: int| votes[v] || vote_set_by(sbs, lookup, p, v, bi, bj))
}

/// The pending map after folding every bit before `(bi, bj)`: each record
/// keeps its place, only its vote bitmap grows.
pub open spec fn folded_pending(
    pending: Seq<(u32, PendingView)>,
    sbs: Seq<crate::types::SignedBitfieldView>,
    lookup: Seq<Option<ParaId>>,
    bi: int,
    bj: int,
) -> Seq<(u32, PendingView)> {
    pending.map(
        |idx: int, e: (u32, PendingView)|
            (
                e.0,
                PendingView {
                    availability_votes: folded_votes(
                        e.1.availability_votes,
                        e.0,
                        sbs,
                        lookup,
                        bi,
                        bj,
                    ),
                    ..e.1
                },
            ),
    )
}

/// Looking a shard up in the folded map gives its folded record.
pub proof fn lemma_folded_get(
    pending: Seq<(u32, PendingView)>,
    sbs: Seq<crate::types::SignedBitfieldView>,
    lookup: Seq<Option<ParaId>>,
    bi: int,
    bj: int,
    p: ParaId,
)
    requires
        distinct_keys(pending),
    ensures
        distinct_keys(folded_pending(pending, sbs, lookup, bi, bj)),
        spec_get(folded_pending(pending, sbs, lookup, bi, bj), p) == match spec_get(pending, p) {
            Some(e) => Some(
                PendingView {
                    availability_votes: folded_votes(
                        e.availability_votes,
                        p,
                        sbs,
                        lookup,
                        bi,
                        bj,
                    ),
                    ..e
                },
            ),
            None => None::<PendingView>,
        },
{
    let f = folded_pending(pending, sbs, lookup, bi, bj);
    assert(forall|idx: int| 0 <= idx < f.len() ==> f[idx].0 == pending[idx].0);
    lemma_get_characterizes(pending, p);
    lemma_get_characterizes(f, p);
    if spec_contains(pending, p) {
        let idx = choose|idx: int| 0 <= idx < pending.len() && pending[idx].0 == p;
        assert(f[idx].0 == p);
        assert(spec_get(f, p) == Some(f[idx].1));
        assert(spec_get(pending, p) == Some(pending[idx].1));
    } else {
        if spec_contains(f, p) {
            let idx = choose|idx: int| 0 <= idx < f.len() && f[idx].0 == p;
            assert(pending[idx].0 == p);
        }
    }
}

/// Advancing the fold bound from the end of one row to the start of the
/// next changes nothing.
pub proof fn lemma_fold_row_advance(
    pending: Seq<(u32, PendingView)>,
    sbs: Seq<crate::types::SignedBitfieldView>,
    lookup: Seq<Option<ParaId>>,
    bi: int,
)
    ensures
        folded_pending(pending, sbs, lookup, bi, lookup.len() as int) =~~= folded_pending(
            pending,
            sbs,
            lookup,
            bi + 1,
            0,
        ),
{
    assert forall|p: ParaId, v: int|
        vote_set_by(sbs, lookup, p, v, bi, lookup.len() as int) == vote_set_by(
            sbs,
            lookup,
            p,
            v,
            bi + 1,
            0,
        ) by {
        if vote_set_by(sbs, lookup, p, v, bi, lookup.len() as int) {
            let (a, b) = choose|a: int, b: int|
                {
                    &&& 0 <= a < sbs.len()
                    &&& 0 <= b < lookup.len()
                    &&& #[trigger] bit_done(a, b, bi, lookup.len() as int)
                    &&& sbs[a].validator_index == v
                    &&& b < sbs[a].payload.len()
                    &&& sbs[a].payload[b]
                    &&& lookup[b] == Some(p)
                };
            assert(bit_done(a, b, bi + 1, 0));
        }
        if vote_set_by(sbs, lookup, p, v, bi + 1, 0) {
            let (a, b) = choose|a: int, b: int|
                {
                    &&& 0 <= a < sbs.len()
                    &&& 0 <= b < lookup.len()
                    &&& #[trigger] bit_done(a, b, bi + 1, 0)
                    &&& sbs[a].validator_index == v
                    &&& b < sbs[a].payload.len()
                    &&& sbs[a].payload[b]
                    &&& lookup[b] == Some(p)
                };
            assert(bit_done(a, b, bi, lookup.len() as int));
        }
    }
    assert forall|idx: int|
        0 <= idx < pending.len() implies #[trigger] folded_pending(
        pending,
        sbs,
        lookup,
        bi,
        lookup.len() as int,
    )[idx] =~~= folded_pending(pending, sbs, lookup, bi + 1, 0)[idx] by {
        assert(folded_votes(
            pending[idx].1.availability_votes,
            pending[idx].0,
            sbs,
            lookup,
            bi,
            lookup.len() as int,
        ) =~= folded_votes(pending[idx].1.availability_votes, pending[idx].0, sbs, lookup, bi + 1, 0));
    }
}

/// Before any bit is folded the pending map is unchanged.
pub proof fn lemma_fold_init(
    pending: Seq<(u32, PendingView)>,
    sbs: Seq<crate::types::SignedBitfieldView>,
    lookup: Seq<Option<ParaId>>,
)
    ensures
        folded_pending(pending, sbs, lookup, 0, 0) =~~= pending,
{
    assert forall|idx: int|
        0 <= idx < pending.len() implies #[trigger] folded_pending(
        pending,
        sbs,
        lookup,
        0,
        0,
    )[idx] =~~= pending[idx] by {
        assert forall|v: int|
            0 <= v < pending[idx].1.availability_votes.len() implies !vote_set_by(
            sbs,
            lookup,
            pending[idx].0,
            v,
            0,
            0,
        ) by {
            if vote_set_by(sbs, lookup, pending[idx].0, v, 0, 0) {
                let (a, b) = choose|a: int, b: int|
                    {
                        &&& 0 <= a < sbs.len()
                        &&& 0 <= b < lookup.len()
                        &&& #[trigger] bit_done(a, b, 0, 0)
                        &&& sbs[a].validator_index == v
                        &&& b < sbs[a].payload.len()
                        &&& sbs[a].payload[b]
                        &&& lookup[b] == Some(pending[idx].0)
                    };
                assert(false);
            }
        }
        assert(folded_votes(
            pending[idx].1.availability_votes,
            pending[idx].0,
            sbs,
            lookup,
            0,
            0,
        ) =~= pending[idx].1.availability_votes);
    }
}

/// What folding the single bit `(i, j)` does to the pending map: when the
/// bit is set and targets an occupied core, that shard's record gains the
/// vote of the bitfield's validator; otherwise nothing changes.
pub proof fn lemma_fold_bit(
    pending: Seq<(u32, PendingView)>,
    sbs: Seq<crate::types::SignedBitfieldView>,
    lookup: Seq<Option<ParaId>>,
    i: int,
    j: int,
)
    requires
        distinct_keys(pending),
        0 <= i < sbs.len(),
        0 <= j < lookup.len(),
    ensures
        ({
            let prev = folded_pending(pending, sbs, lookup, i, j);
            let next = folded_pending(pending, sbs, lookup, i, j + 1);
            if j < sbs[i].payload.len() && sbs[i].payload[j] && lookup[j] is Some
                && spec_contains(pending, lookup[j]->Some_0) {
                next =~~= spec_insert(
                    prev,
                    lookup[j]->Some_0,
                    ({
                        let pv = spec_get(prev, lookup[j]->Some_0)->Some_0;
                        PendingView {
                            availability_votes: set_vote(
                                pv.availability_votes,
                                sbs[i].validator_index as int,
                            ),
                            ..pv
                        }
                    }),
                )
            } else {
                next =~~= prev
            }
        }),
{
    let prev = folded_pending(pending, sbs, lookup, i, j);
    let next = folded_pending(pending, sbs, lookup, i, j + 1);
    assert(forall|idx: int| 0 <= idx < prev.len() ==> prev[idx].0 == pending[idx].0);
    let applies = j < sbs[i].payload.len() && sbs[i].payload[j] && lookup[j] is Some
        && spec_contains(pending, lookup[j]->Some_0);
    assert forall|idx: int, v: int|
        0 <= idx < pending.len() && 0 <= v < pending[idx].1.availability_votes.len() && !(applies
            && lookup[j]->Some_0 == pending[idx].0 && sbs[i].validator_index == v) implies
        vote_set_by(sbs, lookup, pending[idx].0, v, i, j + 1) == vote_set_by(
        sbs,
        lookup,
        pending[idx].0,
        v,
        i,
        j,
    ) by {
        if vote_set_by(sbs, lookup, pending[idx].0, v, i, j) {
            let (a, b) = choose|a: int, b: int|
                {
                    &&& 0 <= a < sbs.len()
                    &&& 0 <= b < lookup.len()
                    &&& #[trigger] bit_done(a, b, i, j)
                    &&& sbs[a].validator_index == v
                    &&& b < sbs[a].payload.len()
                    &&& sbs[a].payload[b]
                    &&& lookup[b] == Some(pending[idx].0)
                };
            assert(bit_done(a, b, i, j + 1));
        }
        if vote_set_by(sbs, lookup, pending[idx].0, v, i, j + 1) {
            let (a, b) = choose|a: int, b: int|
                {
                    &&& 0 <= a < sbs.len()
                    &&& 0 <= b < lookup.len()
                    &&& #[trigger] bit_done(a, b, i, j + 1)
                    &&& sbs[a].validator_index == v
                    &&& b < sbs[a].payload.len()
                    &&& sbs[a].payload[b]
                    &&& lookup[b] == Some(pending[idx].0)
                };
            if a == i && b == j {
                assert(false);
            } else {
                assert(bit_done(a, b, i, j));
            }
        }
    }
    if applies {
        let p = lookup[j]->Some_0;
        lemma_get_characterizes(pending, p);
        lemma_folded_get(pending, sbs, lookup, i, j, p);
        let idxp = choose|idx: int| 0 <= idx < pending.len() && pending[idx].0 == p;
        assert(prev[idxp].0 == p);
        assert(spec_get(prev, p) == Some(prev[idxp].1));
        let pv = spec_get(prev, p)->Some_0;
        let target = PendingView {
            availability_votes: set_vote(pv.availability_votes, sbs[i].validator_index as int),
            ..pv
        };
        lemma_insert_existing(prev, p, target, idxp);
        assert forall|idx: int|
            0 <= idx < pending.len() implies #[trigger] next[idx] =~~= prev.update(
            idxp,
            (p, target),
        )[idx] by {
            if idx != idxp {
                assert(pending[idx].0 != p);
                assert(next[idx].1.availability_votes =~= prev[idx].1.availability_votes);
            } else {
                assert forall|v: int|
                    0 <= v < pending[idx].1.availability_votes.len() implies
                    next[idx].1.availability_votes[v] == target.availability_votes[v] by {
                    if v == sbs[i].validator_index as int {
                        assert(bit_done(i, j, i, j + 1));
                        assert(vote_set_by(sbs, lookup, p, v, i, j + 1));
                        assert(target.availability_votes[v]);
                    }
                }
                assert(next[idx].1.availability_votes =~= target.availability_votes);
            }
        }
        assert(next =~~= prev.update(idxp, (p, target)));
        assert(next =~~= spec_insert(prev, p, target));
    } else {
        assert forall|idx: int|
            0 <= idx < pending.len() implies #[trigger] next[idx] =~~= prev[idx] by {
            assert(next[idx].1.availability_votes =~= prev[idx].1.availability_votes);
        }
        assert(next =~~= prev);
    }
}

/// The records map after folding the batch entries before `i`: each
/// accepted bitfield is recorded under its validator's index, stamped
/// `now`.
pub open spec fn records_after(
    records: Seq<(u32, RecordView)>,
    sbs: Seq<crate::types::SignedBitfieldView>,
    i: int,
    now: BlockNumber,
) -> Seq<(u32, RecordView)>
    decreases sbs.len() - i,
{
    if i < 0 || i >= sbs.len() {
        records
    } else {
        records_after(
            spec_insert(
                records,
                sbs[i].validator_index,
                RecordView { bitfield: sbs[i].payload, submitted_at: now },
            ),
            sbs,
            i + 1,
            now,
        )
    }
}

/// The state the availability sweep walks over.
#[verifier::ext_equal]
pub ghost struct SweepState {
    pub pending: Seq<(u32, PendingView)>,
    pub commitments: Seq<(u32, CommitmentsView)>,
    pub heads: Seq<(u32, HeadEntryView)>,
    pub upgrades: Seq<(u32, UpgradeEntryView)>,
    pub events: Seq<EventView>,
    pub freed: Seq<CoreIndex>,
}

/// What happens at one occupied core during the availability sweep: a
/// candidate at or above the threshold is taken out; with its commitments
/// present it is enacted and its core freed, without them (a storage
/// desync) it is dropped silently and its core is not freed.
pub open spec fn avail_step(
    st: SweepState,
    p: ParaId,
    threshold: int,
    delay: BlockNumber,
) -> SweepState {
    match spec_get(st.pending, p) {
        Some(pv) => {
            if count_ones(pv.availability_votes) >= threshold {
                match spec_get(st.commitments, p) {
                    Some(cv) => {
                        let rv = ReceiptView { descriptor: pv.descriptor, commitments: cv };
                        SweepState {
                            pending: spec_remove(st.pending, p),
                            commitments: spec_remove(st.commitments, p),
                            heads: heads_after_enact(st.heads, rv, pv.relay_parent_number),
                            upgrades: upgrades_after_enact(
                                st.upgrades,
                                rv,
                                pv.relay_parent_number,
                                delay,
                            ),
                            events: st.events.push(included_event(rv)),
                            freed: st.freed.push(pv.core),
                        }
                    },
                    None => SweepState { pending: spec_remove(st.pending, p), ..st },
                }
            } else {
                st
            }
        },
        None => st,
    }
}

/// The availability sweep from core `j` on.
pub open spec fn avail_sweep(
    st: SweepState,
    lookup: Seq<Option<ParaId>>,
    j: int,
    threshold: int,
    delay: BlockNumber,
) -> SweepState
    decreases lookup.len() - j,
{
    if j < 0 || j >= lookup.len() {
        st
    } else {
        let st2 = match lookup[j] {
            Some(p) => avail_step(st, p, threshold, delay),
            None => st,
        };
        avail_sweep(st2, lookup, j + 1, threshold, delay)
    }
}

/// The entry `i` of `out_freed` is accounted for: some shard that was
/// pending with its commitments present and enough votes carries that
/// core.
pub open spec fn freed_justified(
    st: SweepState,
    out_freed: Seq<CoreIndex>,
    i: int,
    threshold: int,
) -> bool {
    exists|p: ParaId|
        {
            &&& spec_get(st.pending, p) is Some
            &&& spec_get(st.commitments, p) is Some
            &&& count_ones(spec_get(st.pending, p)->Some_0.availability_votes) >= threshold
            &&& out_freed[i] == spec_get(st.pending, p)->Some_0.core
        }
}

/// The sweep only removes pending entries, and frees a core only for a
/// shard that reached the threshold with its commitments present.
pub proof fn lemma_avail_sweep_props(
    st: SweepState,
    lookup: Seq<Option<ParaId>>,
    j: int,
    threshold: int,
    delay: BlockNumber,
)
    requires
        distinct_keys(st.pending),
        distinct_keys(st.commitments),
    ensures
        distinct_keys(avail_sweep(st, lookup, j, threshold, delay).pending),
        distinct_keys(avail_sweep(st, lookup, j, threshold, delay).commitments),
        forall|k: u32|
            spec_get(#[trigger] avail_sweep(st, lookup, j, threshold, delay).pending, k) is Some
                ==> spec_get(avail_sweep(st, lookup, j, threshold, delay).pending, k) == spec_get(
                st.pending,
                k,
            ),
        forall|k: u32|
            spec_get(
                #[trigger] avail_sweep(st, lookup, j, threshold, delay).commitments,
                k,
            ) is Some ==> spec_get(avail_sweep(st, lookup, j, threshold, delay).commitments, k)
                == spec_get(st.commitments, k),
        forall|i: int|
            st.freed.len() <= i < avail_sweep(st, lookup, j, threshold, delay).freed.len()
                ==> #[trigger] freed_justified(
                st,
                avail_sweep(st, lookup, j, threshold, delay).freed,
                i,
                threshold,
            ),
        st.freed.len() <= avail_sweep(st, lookup, j, threshold, delay).freed.len(),
        avail_sweep(st, lookup, j, threshold, delay).freed.subrange(0, st.freed.len() as int)
            =~= st.freed,
    decreases lookup.len() - j,
{
    if 0 <= j < lookup.len() {
        let st2 = match lookup[j as int] {
            Some(p) => avail_step(st, p, threshold, delay),
            None => st,
        };
        match lookup[j as int] {
            Some(p) => {
                lemma_remove_get(st.pending, p);
                lemma_remove_get(st.commitments, p);
            },
            None => {},
        }
        lemma_avail_sweep_props(st2, lookup, j + 1, threshold, delay);
        let out = avail_sweep(st, lookup, j, threshold, delay);
        assert(out == avail_sweep(st2, lookup, j + 1, threshold, delay));
        assert forall|i: int|
            st.freed.len() <= i < out.freed.len() implies #[trigger] freed_justified(
            st,
            out.freed,
            i,
            threshold,
        ) by {
            if st2.freed.len() > st.freed.len() && i == st.freed.len() {
                // this core's own shard was freed at position st.freed.len()
                let p = lookup[j as int]->Some_0;
                assert(st2.freed == st.freed.push(spec_get(st.pending, p)->Some_0.core));
                assert(out.freed.subrange(0, st2.freed.len() as int) =~= st2.freed);
                assert(out.freed[i] == st2.freed[i]);
                assert(spec_get(st.pending, p) is Some && spec_get(st.commitments, p) is Some
                    && count_ones(spec_get(st.pending, p)->Some_0.availability_votes) >= threshold
                    && out.freed[i] == spec_get(st.pending, p)->Some_0.core);
            } else {
                assert(st2.freed.len() <= i < avail_sweep(
                    st2,
                    lookup,
                    j + 1,
                    threshold,
                    delay,
                ).freed.len());
                assert(freed_justified(
                    st2,
                    avail_sweep(st2, lookup, j + 1, threshold, delay).freed,
                    i,
                    threshold,
                ));
                let q = choose|q: ParaId|
                    {
                        &&& spec_get(st2.pending, q) is Some
                        &&& spec_get(st2.commitments, q) is Some
                        &&& count_ones(spec_get(st2.pending, q)->Some_0.availability_votes)
                            >= threshold
                        &&& avail_sweep(st2, lookup, j + 1, threshold, delay).freed[i] == spec_get(
                            st2.pending,
                            q,
                        )->Some_0.core
                    };
                assert(spec_get(st.pending, q) is Some && spec_get(st.commitments, q) is Some
                    && count_ones(spec_get(st.pending, q)->Some_0.availability_votes) >= threshold
                    && out.freed[i] == spec_get(st.pending, q)->Some_0.core);
            }
        }
    }
}

/// The predicate's verdicts on a snapshot of the pending entries: one
/// decision per entry, each a possible result of the predicate on that
/// entry's core and backed-in round.
pub open spec fn sweep_decided<F: Fn(CoreIndex, BlockNumber) -> bool>(
    pred: F,
    work: Seq<(u32, PendingView)>,
    ds: Seq<bool>,
) -> bool {
    &&& ds.len() == work.len()
    &&& forall|i: int|
        0 <= i < ds.len() ==> call_ensures(
            pred,
            (work[i].1.core, work[i].1.backed_in_number),
            ds[i],
        )
}

/// The environment one `process_candidates` call runs in: the round, the
/// engine's session state, the shard-state manager's answers, the group
/// table, and the assignments.
#[verifier::ext_equal]
pub ghost struct CandidateEnv {
    pub parent_hash: crate::types::Digest,
    pub now: BlockNumber,
    pub session_index: SessionIndex,
    pub validators: Seq<ValidatorId>,
    pub config: HostConfig,
    pub pending: Seq<(u32, PendingView)>,
    pub commitments: Seq<(u32, CommitmentsView)>,
    pub upgrades: Seq<(u32, UpgradeEntryView)>,
    pub vdata: Seq<(u32, crate::paras::VdataEntry)>,
    pub groups: Seq<Seq<ValidatorIndex>>,
    pub scheduled: Seq<crate::types::CoreAssignment>,
}

/// The signing context of the environment.
pub open spec fn env_ctx(env: CandidateEnv) -> SigningContext {
    SigningContext { parent_hash: env.parent_hash, session_index: env.session_index }
}

/// The backing count from group position `i` with `used` attestations
/// consumed: walks the group bits, pairing each set bit with the next
/// attestation; `None` is any invalid backing.
pub open spec fn backing_from(
    c: crate::types::BackedView,
    group: Seq<ValidatorIndex>,
    validators: Seq<ValidatorId>,
    ctx: SigningContext,
    i: int,
    used: int,
) -> Option<int>
    decreases c.validator_indices.len() - i,
{
    if used >= c.validity_votes.len() {
        if used == c.validity_votes.len() {
            Some(used)
        } else {
            None
        }
    } else if i < 0 || i >= c.validator_indices.len() {
        None
    } else if !c.validator_indices[i] {
        backing_from(c, group, validators, ctx, i + 1, used)
    } else if group[i] as int >= validators.len() {
        None
    } else if !crate::types::attestation_ok(
        c.validity_votes[used],
        c.candidate,
        ctx,
        validators[group[i] as int],
    ) {
        None
    } else {
        backing_from(c, group, validators, ctx, i + 1, used + 1)
    }
}

/// How many group members validly back the candidate, or `None` when the
/// attestation set is malformed or any signature is invalid.
pub open spec fn backing_result(
    c: crate::types::BackedView,
    group: Seq<ValidatorIndex>,
    validators: Seq<ValidatorId>,
    ctx: SigningContext,
) -> Option<int> {
    if c.validator_indices.len() != group.len() {
        None
    } else if c.validity_votes.len() > group.len() {
        None
    } else {
        backing_from(c, group, validators, ctx, 0, 0)
    }
}

/// Whether a code upgrade carried by the candidate is allowed: none is
/// carried, or no upgrade is on record, or the last one is old enough.
pub open spec fn upgrade_allowed(c: crate::types::BackedView, env: CandidateEnv) -> bool {
    c.candidate.commitments.new_validation_code is None || match spec_get(
        env.upgrades,
        c.candidate.descriptor.para_id,
    ) {
        Some(u) => u.expected_at <= env.now - 1 && env.now - 1 - u.expected_at
            >= env.config.validation_upgrade_frequency,
        None => true,
    }
}

/// The first complaint against a candidate before any core matching:
/// parent context, upgrade timing, collator signature.
pub open spec fn candidate_pre_error(c: crate::types::BackedView, env: CandidateEnv) -> Option<
    Error,
> {
    if c.candidate.descriptor.relay_parent != env.parent_hash {
        Some(Error::CandidateNotInParentContext)
    } else if !upgrade_allowed(c, env) {
        Some(Error::PrematureCodeUpgrade)
    } else if !c.candidate.descriptor.collator_signature_ok() {
        Some(Error::NotCollatorSigned)
    } else {
        None
    }
}

/// How scanning the assignments for one candidate ends.
pub ghost enum FindOutcome {
    /// A check failed with this error.
    Fail(Error),
    /// The shard-state manager knows no validation data for the matched
    /// shard: the whole call gives up without an error.
    Bail,
    /// The candidate sits on `core`; the scan resumes at `next_skip`.
    Found { next_skip: int, last: Option<CoreIndex>, core: CoreIndex },
}

/// Scans the assignments from `j` for the candidate's shard, checking core
/// order on the way, and validates the candidate at the matched
/// assignment.
pub open spec fn find_core(
    c: crate::types::BackedView,
    env: CandidateEnv,
    j: int,
    last: Option<CoreIndex>,
) -> FindOutcome
    decreases env.scheduled.len() - j,
{
    if j < 0 || j >= env.scheduled.len() {
        FindOutcome::Fail(Error::UnscheduledCandidate)
    } else {
        let a = env.scheduled[j];
        if !(last is None || a.core > last->Some_0) {
            FindOutcome::Fail(Error::ScheduledOutOfOrder)
        } else {
            if c.candidate.descriptor.para_id == a.para_id {
                if a.required_collator is Some && a.required_collator->Some_0
                    != c.candidate.descriptor.collator {
                    FindOutcome::Fail(Error::WrongCollator)
                } else {
                    match spec_get(env.vdata, a.para_id) {
                        None => FindOutcome::Bail,
                        Some(vd) => {
                            if vd.hash != c.candidate.descriptor.persisted_validation_data_hash {
                                FindOutcome::Fail(Error::ValidationDataHashMismatch)
                            } else if spec_contains(env.pending, a.para_id) || spec_contains(
                                env.commitments,
                                a.para_id,
                            ) {
                                FindOutcome::Fail(Error::CandidateScheduledBeforeParaFree)
                            } else if a.group_idx as int >= env.groups.len() {
                                FindOutcome::Fail(Error::InvalidGroupIndex)
                            } else {
                                match backing_result(
                                    c,
                                    env.groups[a.group_idx as int],
                                    env.validators,
                                    env_ctx(env),
                                ) {
                                    None => FindOutcome::Fail(Error::InvalidBacking),
                                    Some(v) => {
                                        if !(2 * v > env.groups[a.group_idx as int].len()) {
                                            FindOutcome::Fail(Error::InsufficientBacking)
                                        } else {
                                            FindOutcome::Found {
                                                next_skip: j + 1,
                                                last: Some(a.core),
                                                core: a.core,
                                            }
                                        }
                                    },
                                }
                            }
                        },
                    }
                }
            } else {
                find_core(c, env, j + 1, Some(a.core))
            }
        }
    }
}

/// The strictly-ascending check on the assignments left unmatched.
pub open spec fn rest_in_order(
    scheduled: Seq<crate::types::CoreAssignment>,
    j: int,
    last: Option<CoreIndex>,
) -> Option<Error>
    decreases scheduled.len() - j,
{
    if j < 0 || j >= scheduled.len() {
        None
    } else if !(last is None || scheduled[j].core > last->Some_0) {
        Some(Error::ScheduledOutOfOrder)
    } else {
        rest_in_order(scheduled, j + 1, Some(scheduled[j].core))
    }
}

/// How one `process_candidates` call ends.
pub ghost enum CandOutcome {
    /// The whole batch is rejected with this error; nothing changes.
    Rejected(Error),
    /// Validation data was missing for a matched shard: the call returns
    /// an empty result and changes nothing.
    MissingValidationData,
    /// All candidates were admitted onto these cores, in order.
    Admitted(Seq<CoreIndex>),
}

/// Scans the candidates from `k` with the assignment cursor at `skip`.
pub open spec fn scan_candidates(
    cands: Seq<crate::types::BackedView>,
    env: CandidateEnv,
    k: int,
    skip: int,
    last: Option<CoreIndex>,
    acc: Seq<CoreIndex>,
) -> CandOutcome
    decreases cands.len() - k,
{
    if k < 0 || k >= cands.len() {
        match rest_in_order(env.scheduled, skip, last) {
            Some(e) => CandOutcome::Rejected(e),
            None => CandOutcome::Admitted(acc),
        }
    } else {
        match candidate_pre_error(cands[k], env) {
            Some(e) => CandOutcome::Rejected(e),
            None => match find_core(cands[k], env, skip, last) {
                FindOutcome::Fail(e) => CandOutcome::Rejected(e),
                FindOutcome::Bail => CandOutcome::MissingValidationData,
                FindOutcome::Found { next_skip, last: l2, core } => scan_candidates(
                    cands,
                    env,
                    k + 1,
                    next_skip,
                    l2,
                    acc.push(core),
                ),
            },
        }
    }
}

/// The outcome of one `process_candidates` call.
pub open spec fn candidates_outcome(
    cands: Seq<crate::types::BackedView>,
    env: CandidateEnv,
) -> CandOutcome {
    if cands.len() > env.scheduled.len() {
        CandOutcome::Rejected(Error::UnscheduledCandidate)
    } else if env.scheduled.len() == 0 {
        CandOutcome::Admitted(Seq::empty())
    } else {
        scan_candidates(cands, env, 0, 0, None, Seq::empty())
    }
}

/// The candidate matches some assignment whose every per-core check
/// passes: the shard is scheduled there, any required collator matches,
/// the validation-data hash agrees with the shard-state manager, the
/// shard is free, and a strict majority of the assigned group validly
/// backs the candidate.
pub open spec fn candidate_accepted(c: crate::types::BackedView, env: CandidateEnv) -> bool {
    exists|j: int|
        {
            &&& 0 <= j < env.scheduled.len()
            &&& (#[trigger] env.scheduled[j]).para_id == c.candidate.descriptor.para_id
            &&& (env.scheduled[j].required_collator is Some
                ==> env.scheduled[j].required_collator->Some_0 == c.candidate.descriptor.collator)
            &&& spec_get(env.vdata, env.scheduled[j].para_id) == Some(
                crate::paras::VdataEntry {
                    hash: c.candidate.descriptor.persisted_validation_data_hash,
                },
            )
            &&& !spec_contains(env.pending, env.scheduled[j].para_id)
            &&& !spec_contains(env.commitments, env.scheduled[j].para_id)
            &&& (env.scheduled[j].group_idx as int) < env.groups.len()
            &&& (exists|v: int|
                backing_result(
                    c,
                    env.groups[env.scheduled[j].group_idx as int],
                    env.validators,
                    env_ctx(env),
                ) == Some(v) && 2 * v > env.groups[env.scheduled[j].group_idx as int].len())
        }
}

/// A found core witnesses an accepted candidate.
pub proof fn lemma_find_core_found(
    c: crate::types::BackedView,
    env: CandidateEnv,
    j: int,
    last: Option<CoreIndex>,
)
    requires
        find_core(c, env, j, last) is Found,
    ensures
        candidate_accepted(c, env),
    decreases env.scheduled.len() - j,
{
    if 0 <= j < env.scheduled.len() {
        let a = env.scheduled[j];
        if (last is None || a.core > last->Some_0) && c.candidate.descriptor.para_id
            != a.para_id {
            lemma_find_core_found(c, env, j + 1, Some(a.core));
        } else {
            let v = backing_result(
                c,
                env.groups[a.group_idx as int],
                env.validators,
                env_ctx(env),
            )->Some_0;
            assert(env.scheduled[j].para_id == c.candidate.descriptor.para_id);
            assert(backing_result(
                c,
                env.groups[env.scheduled[j].group_idx as int],
                env.validators,
                env_ctx(env),
            ) == Some(v) && 2 * v > env.groups[env.scheduled[j].group_idx as int].len());
        }
    }
}

/// Soundness of admission: when a batch of candidates is admitted in
/// full, every candidate sat in the parent's context, carried no
/// premature code upgrade, was signed by its collator, and was accepted
/// at some assignment with a backing majority.
pub proof fn lemma_admitted_candidates_validated(
    cands: Seq<crate::types::BackedView>,
    env: CandidateEnv,
)
    requires
        candidates_outcome(cands, env) is Admitted,
    ensures
        forall|k: int|
            0 <= k < cands.len() ==> candidate_pre_error(#[trigger] cands[k], env) is None
                && candidate_accepted(cands[k], env),
{
    if cands.len() > env.scheduled.len() || env.scheduled.len() == 0 {
    } else {
        lemma_scan_admitted(cands, env, 0, 0, None, Seq::empty());
    }
}

/// Induction for [`lemma_admitted_candidates_validated`] over the scan.
proof fn lemma_scan_admitted(
    cands: Seq<crate::types::BackedView>,
    env: CandidateEnv,
    k: int,
    skip: int,
    last: Option<CoreIndex>,
    acc: Seq<CoreIndex>,
)
    requires
        0 <= k,
        scan_candidates(cands, env, k, skip, last, acc) is Admitted,
    ensures
        forall|kk: int|
            k <= kk < cands.len() ==> candidate_pre_error(#[trigger] cands[kk], env) is None
                && candidate_accepted(cands[kk], env),
    decreases cands.len() - k,
{
    if k < cands.len() {
        match find_core(cands[k], env, skip, last) {
            FindOutcome::Found { next_skip, last: l2, core } => {
                lemma_find_core_found(cands[k], env, skip, last);
                lemma_scan_admitted(cands, env, k + 1, next_skip, l2, acc.push(core));
            },
            _ => {},
        }
    }
}

/// The engine state the admission phase writes.
#[verifier::ext_equal]
pub ghost struct AdmitState {
    pub pending: Seq<(u32, PendingView)>,
    pub commitments: Seq<(u32, CommitmentsView)>,
    pub events: Seq<EventView>,
}

/// Admits the candidates from `k` on: each gets a fresh zero vote bitmap
/// sized to the validator count, its pending record and commitments are
/// written, and a backed event is emitted.
pub open spec fn admit_from(
    st: AdmitState,
    cands: Seq<crate::types::BackedView>,
    cores: Seq<CoreIndex>,
    k: int,
    env: CandidateEnv,
) -> AdmitState
    decreases cands.len() - k,
{
    if k < 0 || k >= cands.len() {
        st
    } else {
        let c = cands[k];
        let para = c.candidate.descriptor.para_id;
        let pv = PendingView {
            core: cores[k],
            descriptor: c.candidate.descriptor,
            availability_votes: Seq::new(env.validators.len(), |v: int| false),
            relay_parent_number: (env.now - 1) as u64,
            backed_in_number: env.now,
        };
        admit_from(
            AdmitState {
                pending: spec_insert(st.pending, para, pv),
                commitments: spec_insert(st.commitments, para, c.candidate.commitments),
                events: st.events.push(backed_event(c.candidate)),
            },
            cands,
            cores,
            k + 1,
            env,
        )
    }
}

/// Counts the attestations of `backed` that validly back its candidate:
/// each set group bit is paired with the next attestation in order, every
/// pair must verify against the group member's key, and the attestations
/// must not outnumber the set bits or the group.  `None` means the backing
/// is invalid.
pub fn check_candidate_backing(
    backed: &crate::types::BackedCandidate,
    group: &Vec<ValidatorIndex>,
    validators: &Vec<ValidatorId>,
    ctx: &SigningContext,
) -> (r: Option<usize>)
    ensures
        match r {
            Some(v) => backing_result(backed@, group@, validators@, *ctx) == Some(v as int),
            None => backing_result(backed@, group@, validators@, *ctx) is None,
        },
{
    if backed.validator_indices.len() != group.len() {
        return None;
    }
    if backed.validity_votes.len() > group.len() {
        return None;
    }
    let n: usize = backed.validator_indices.len();
    let mut i: usize = 0;
    let mut used: usize = 0;
    while i < n
        invariant
            n == backed@.validator_indices.len(),
            n == group@.len(),
            backed@.validity_votes.len() <= group@.len(),
            backed@.validity_votes.len() == backed.validity_votes@.len(),
            i <= n,
            used <= backed@.validity_votes.len(),
            backing_from(backed@, group@, validators@, *ctx, i as int, used as int)
                == backing_from(backed@, group@, validators@, *ctx, 0, 0),
        decreases n - i,
    {
        if used == backed.validity_votes.len() {
            return Some(used);
        }
        if backed.validator_indices[i] {
            let gi = group[i];
            if gi as usize >= validators.len() {
                return None;
            }
            let key = validators[gi as usize];
            let att = &backed.validity_votes[used];
            proof {
                assert(backed@.validity_votes[used as int] == backed.validity_votes@[used as int]@);
            }
            if !att.check(&backed.candidate, ctx, key) {
                return None;
            }
            used += 1;
        }
        i += 1;
    }
    if used == backed.validity_votes.len() {
        Some(used)
    } else {
        None
    }
}

/// How scanning the assignments for one candidate ended, executably.
enum CoreMatch {
    Fail(Error),
    Bail,
    Found { next_skip: usize, last: CoreIndex, core: CoreIndex },
}

/// View of [`Inclusion`].
#[verifier::ext_equal]
pub ghost struct InclusionView {
    pub validators: Seq<ValidatorId>,
    pub session_index: SessionIndex,
    pub bitfields: Seq<(u32, RecordView)>,
    pub pending: Seq<(u32, PendingView)>,
    pub commitments: Seq<(u32, CommitmentsView)>,
}

/// The inclusion engine: the owner of the availability state.
pub struct Inclusion {
    validators: Vec<ValidatorId>,
    current_session_index: SessionIndex,
    availability_bitfields: Store<AvailabilityBitfieldRecord>,
    pending_availability: Store<CandidatePendingAvailability>,
    pending_availability_commitments: Store<CandidateCommitments>,
}

impl View for Inclusion {
    type V = InclusionView;

    closed spec fn view(&self) -> InclusionView {
        InclusionView {
            validators: self.validators@,
            session_index: self.current_session_index,
            bitfields: self.availability_bitfields@,
            pending: self.pending_availability@,
            commitments: self.pending_availability_commitments@,
        }
    }
}

/// Enacts a fully available candidate: schedules the carried code upgrade,
/// if any, emits the inclusion event, and pushes the new head.
fn enact_candidate(
    relay_parent_number: BlockNumber,
    receipt: CommittedCandidateReceipt,
    config: &HostConfig,
    paras: &mut Paras,
    events: &mut Vec<Event>,
)
    requires
        old(paras).wf(),
    ensures
        final(paras).wf(),
        final(paras)@.heads == heads_after_enact(old(paras)@.heads, receipt@, relay_parent_number),
        final(paras)@.upgrades == upgrades_after_enact(
            old(paras)@.upgrades,
            receipt@,
            relay_parent_number,
            config.validation_upgrade_delay,
        ),
        final(paras)@.vdata == old(paras)@.vdata,
        log_view(final(events)@) == log_view(old(events)@).push(included_event(receipt@)),
{
    let ghost rv = receipt@;
    let CommittedCandidateReceipt { descriptor, commitments } = receipt;
    let para = descriptor.para_id;
    match commitments.new_validation_code {
        Some(ref new_code) => {
            let effective_at = if relay_parent_number > u64::MAX - config.validation_upgrade_delay {
                u64::MAX
            } else {
                relay_parent_number + config.validation_upgrade_delay
            };
            let code = clone_bytes(new_code);
            paras.schedule_code_upgrade(para, code, effective_at);
        },
        None => {},
    }
    events.push(Event::CandidateIncluded {
        descriptor,
        head_data: clone_bytes(&commitments.head_data),
    });
    proof {
        assert(log_view(events@) =~= log_view(old(events)@).push(included_event(rv)));
    }
    let CandidateCommitments { head_data, new_validation_code: _ } = commitments;
    paras.note_new_head(para, head_data, relay_parent_number);
}

impl Inclusion {
    /// The stores read as maps: every key at most once.
    pub open spec fn wf(self) -> bool {
        &&& distinct_keys(self@.bitfields)
        &&& distinct_keys(self@.pending)
        &&& distinct_keys(self@.commitments)
    }

    /// A fresh engine: no validators, session zero, nothing pending.
    pub fn new() -> (r: Inclusion)
        ensures
            r.wf(),
            r@.validators == Seq::<ValidatorId>::empty(),
            r@.session_index == 0u32,
            r@.bitfields == Seq::<(u32, RecordView)>::empty(),
            r@.pending == Seq::<(u32, PendingView)>::empty(),
            r@.commitments == Seq::<(u32, CommitmentsView)>::empty(),
    {
        let r = Inclusion {
            validators: Vec::new(),
            current_session_index: 0,
            availability_bitfields: Store::new(),
            pending_availability: Store::new(),
            pending_availability_commitments: Store::new(),
        };
        r
    }

    /// The current validator set.
    pub fn validators(&self) -> (r: &Vec<ValidatorId>)
        ensures
            r@ == self@.validators,
    {
        &self.validators
    }

    /// The current session index.
    pub fn session_index(&self) -> (r: SessionIndex)
        ensures
            r == self@.session_index,
    {
        self.current_session_index
    }

    /// Replaces the validator set wholesale.
    pub fn set_validators(&mut self, validators: Vec<ValidatorId>)
        ensures
            final(self)@ == (InclusionView { validators: validators@, ..old(self)@ }),
    {
        self.validators = validators;
    }

    /// Replaces the session index.
    pub fn set_session_index(&mut self, session_index: SessionIndex)
        ensures
            final(self)@ == (InclusionView { session_index, ..old(self)@ }),
    {
        self.current_session_index = session_index;
    }

    /// The pending-availability record of `para`, if any.
    pub fn pending_availability(&self, para: ParaId) -> (r: Option<&CandidatePendingAvailability>)
        requires
            self.wf(),
        ensures
            match r {
                Some(p) => spec_get(self@.pending, para) == Some(p@),
                None => spec_get(self@.pending, para) is None,
            },
    {
        self.pending_availability.get(para)
    }

    /// The pending commitments of `para`, if any.
    pub fn pending_commitments(&self, para: ParaId) -> (r: Option<&CandidateCommitments>)
        requires
            self.wf(),
        ensures
            match r {
                Some(c) => spec_get(self@.commitments, para) == Some(c@),
                None => spec_get(self@.commitments, para) is None,
            },
    {
        self.pending_availability_commitments.get(para)
    }

    /// The latest accepted bitfield record of the validator at `index`.
    pub fn bitfield_record(&self, index: ValidatorIndex) -> (r: Option<&AvailabilityBitfieldRecord>)
        requires
            self.wf(),
        ensures
            match r {
                Some(b) => spec_get(self@.bitfields, index) == Some(b@),
                None => spec_get(self@.bitfields, index) is None,
            },
    {
        self.availability_bitfields.get(index)
    }

    /// How many validators have a recorded bitfield.
    pub fn bitfield_record_count(&self) -> (n: usize)
        ensures
            n == self@.bitfields.len(),
    {
        self.availability_bitfields.len()
    }

    /// How many shards have a candidate pending availability.
    pub fn pending_availability_count(&self) -> (n: usize)
        ensures
            n == self@.pending.len(),
    {
        self.pending_availability.len()
    }

    /// How many shards have commitments pending availability.
    pub fn pending_commitments_count(&self) -> (n: usize)
        ensures
            n == self@.commitments.len(),
    {
        self.pending_availability_commitments.len()
    }

    /// Writes a validator's bitfield record directly.
    pub fn insert_bitfield_record(
        &mut self,
        index: ValidatorIndex,
        record: AvailabilityBitfieldRecord,
    )
        requires
            old(self).wf(),
        ensures
            final(self).wf(),
            final(self)@ == (InclusionView {
                bitfields: spec_insert(old(self)@.bitfields, index, record@),
                ..old(self)@
            }),
    {
        proof {
            lemma_insert_get(old(self)@.bitfields, index, record@);
        }
        self.availability_bitfields.insert(index, record);
    }

    /// Writes a pending-availability record for `para` directly.
    pub fn insert_pending_availability(&mut self, para: ParaId, record: CandidatePendingAvailability)
        requires
            old(self).wf(),
        ensures
            final(self).wf(),
            final(self)@ == (InclusionView {
                pending: spec_insert(old(self)@.pending, para, record@),
                ..old(self)@
            }),
    {
        proof {
            lemma_insert_get(old(self)@.pending, para, record@);
        }
        self.pending_availability.insert(para, record);
    }

    /// Takes the pending-availability record of `para` out, if any.
    pub fn remove_pending_availability(&mut self, para: ParaId) -> (r: Option<
        CandidatePendingAvailability,
    >)
        requires
            old(self).wf(),
        ensures
            final(self).wf(),
            final(self)@ == (InclusionView {
                pending: spec_remove(old(self)@.pending, para),
                ..old(self)@
            }),
            match r {
                Some(p) => spec_get(old(self)@.pending, para) == Some(p@),
                None => !spec_contains(old(self)@.pending, para),
            },
    {
        proof {
            lemma_remove_get(old(self)@.pending, para);
        }
        self.pending_availability.remove(para)
    }

    /// Writes pending commitments for `para` directly.
    pub fn insert_pending_commitments(&mut self, para: ParaId, commitments: CandidateCommitments)
        requires
            old(self).wf(),
        ensures
            final(self).wf(),
            final(self)@ == (InclusionView {
                commitments: spec_insert(old(self)@.commitments, para, commitments@),
                ..old(self)@
            }),
    {
        proof {
            lemma_insert_get(old(self)@.commitments, para, commitments@);
        }
        self.pending_availability_commitments.insert(para, commitments);
    }

    /// Takes the pending commitments of `para` out, if any.
    pub fn remove_pending_commitments(&mut self, para: ParaId) -> (r: Option<CandidateCommitments>)
        requires
            old(self).wf(),
        ensures
            final(self).wf(),
            final(self)@ == (InclusionView {
                commitments: spec_remove(old(self)@.commitments, para),
                ..old(self)@
            }),
            match r {
                Some(c) => spec_get(old(self)@.commitments, para) == Some(c@),
                None => !spec_contains(old(self)@.commitments, para),
            },
    {
        proof {
            lemma_remove_get(old(self)@.commitments, para);
        }
        self.pending_availability_commitments.remove(para)
    }

    /// The committed candidate receipt pending availability for `para`, if
    /// both the record and the commitments are present.
    pub fn candidate_pending_availability(&self, para: ParaId) -> (r: Option<
        CommittedCandidateReceipt,
    >)
        requires
            self.wf(),
        ensures
            match r {
                Some(receipt) => {
                    &&& spec_get(self@.pending, para) is Some
                    &&& spec_get(self@.commitments, para) is Some
                    &&& receipt@.descriptor == spec_get(self@.pending, para)->Some_0.descriptor
                    &&& receipt@.commitments == spec_get(self@.commitments, para)->Some_0
                },
                None => spec_get(self@.pending, para) is None || spec_get(
                    self@.commitments,
                    para,
                ) is None,
            },
    {
        match self.pending_availability.get(para) {
            Some(pending) => match self.pending_availability_commitments.get(para) {
                Some(commitments) => Some(
                    CommittedCandidateReceipt {
                        descriptor: *pending.descriptor(),
                        commitments: commitments.duplicate(),
                    },
                ),
                None => None,
            },
            None => None,
        }
    }

    /// Handles a session rotation: drains all attestation records, pending
    /// candidates, and pending commitments, then replaces the validator
    /// set and session index with the notification's values.
    pub fn on_new_session(&mut self, notification: SessionChangeNotification)
        ensures
            final(self).wf(),
            final(self)@.bitfields == Seq::<(u32, RecordView)>::empty(),
            final(self)@.pending == Seq::<(u32, PendingView)>::empty(),
            final(self)@.commitments == Seq::<(u32, CommitmentsView)>::empty(),
            final(self)@.validators == notification.validators@,
            final(self)@.session_index == notification.session_index,
    {
        self.pending_availability_commitments.clear();
        self.pending_availability.clear();
        self.availability_bitfields.clear();
        self.validators = notification.validators;
        self.current_session_index = notification.session_index;
    }

    /// Forcibly enacts the candidate of `para` as though it had been deemed
    /// available, clearing its pending record and commitments.  A no-op
    /// when the shard has no complete pending pair: a desynced lone entry
    /// is left untouched, as if neither existed.
    pub fn force_enact(
        &mut self,
        para: ParaId,
        config: &HostConfig,
        paras: &mut Paras,
        events: &mut Vec<Event>,
    )
        requires
            old(self).wf(),
            old(paras).wf(),
        ensures
            final(self).wf(),
            final(paras).wf(),
            match (spec_get(old(self)@.pending, para), spec_get(old(self)@.commitments, para)) {
                (Some(p), Some(c)) => {
                    let rv = ReceiptView { descriptor: p.descriptor, commitments: c };
                    &&& final(self)@ == (InclusionView {
                        pending: spec_remove(old(self)@.pending, para),
                        commitments: spec_remove(old(self)@.commitments, para),
                        ..old(self)@
                    })
                    &&& final(paras)@.heads == heads_after_enact(
                        old(paras)@.heads,
                        rv,
                        p.relay_parent_number,
                    )
                    &&& final(paras)@.upgrades == upgrades_after_enact(
                        old(paras)@.upgrades,
                        rv,
                        p.relay_parent_number,
                        config.validation_upgrade_delay,
                    )
                    &&& final(paras)@.vdata == old(paras)@.vdata
                    &&& log_view(final(events)@) == log_view(old(events)@).push(
                        included_event(rv),
                    )
                },
                _ => final(self)@ == old(self)@ && final(paras)@ == old(paras)@
                    && final(events)@ == old(events)@,
            },
    {
        proof {
            lemma_get_characterizes(old(self)@.pending, para);
            lemma_get_characterizes(old(self)@.commitments, para);
        }
        if !(self.pending_availability.contains_key(para)
            && self.pending_availability_commitments.contains_key(para)) {
            return ;
        }
        let pending = self.pending_availability.remove(para);
        let commitments = self.pending_availability_commitments.remove(para);
        proof {
            lemma_remove_get(old(self)@.pending, para);
            lemma_remove_get(old(self)@.commitments, para);
        }
        match (pending, commitments) {
            (Some(pending_record), Some(commitments)) => {
                let relay_parent_number = pending_record.relay_parent_number();
                let receipt = CommittedCandidateReceipt {
                    descriptor: *pending_record.descriptor(),
                    commitments,
                };
                proof {
                    assert(receipt@ =~= ReceiptView {
                        descriptor: spec_get(old(self)@.pending, para)->Some_0.descriptor,
                        commitments: spec_get(old(self)@.commitments, para)->Some_0,
                    });
                }
                enact_candidate(relay_parent_number, receipt, config, paras, events);
            },
            _ => {},
        }
    }

    /// Processes a batch of signed availability bitfields.
    ///
    /// The whole batch is validated first — sizes, strict ordering by
    /// validator index, validator bounds, occupancy of every set bit, and
    /// signatures — and any complaint rejects the whole call with nothing
    /// changed.  On success every set bit becomes a vote on the targeted
    /// shard's pending candidate, each bitfield is recorded as its
    /// validator's latest, and every candidate now at or above the
    /// supermajority threshold is enacted and its core freed, in core
    /// order.  A candidate whose commitments are missing (a storage
    /// desync) is dropped without enactment and its core is not freed,
    /// and the call still succeeds.
    pub fn process_bitfields(
        &mut self,
        round: RoundInfo,
        config: &HostConfig,
        signed_bitfields: Vec<SignedAvailabilityBitfield>,
        core_lookup: &Vec<Option<ParaId>>,
        paras: &mut Paras,
        events: &mut Vec<Event>,
    ) -> (r: Result<Vec<CoreIndex>, Error>)
        requires
            old(self).wf(),
            old(paras).wf(),
        ensures
            final(self).wf(),
            final(paras).wf(),
            ({
                let sbs = signed_bitfields@.map(|k: int, sb: SignedAvailabilityBitfield| sb@);
                let lookup = core_lookup@;
                let occupied = occupied_row(lookup, old(self)@.pending);
                let ctx = SigningContext {
                    parent_hash: round.parent_hash,
                    session_index: old(self)@.session_index,
                };
                let verdict = bitfields_error_from(
                    sbs,
                    0,
                    None,
                    lookup.len() as int,
                    old(self)@.validators,
                    occupied,
                    ctx,
                );
                &&& (match verdict {
                    Some(e) => {
                        &&& r is Err
                        &&& r->Err_0 == e
                        &&& final(self)@ == old(self)@
                        &&& final(paras)@ == old(paras)@
                        &&& final(events)@ == old(events)@
                    },
                    None => ({
                        let folded = folded_pending(
                            old(self)@.pending,
                            sbs,
                            lookup,
                            sbs.len() as int,
                            0,
                        );
                        let out = avail_sweep(
                            SweepState {
                                pending: folded,
                                commitments: old(self)@.commitments,
                                heads: old(paras)@.heads,
                                upgrades: old(paras)@.upgrades,
                                events: log_view(old(events)@),
                                freed: Seq::empty(),
                            },
                            lookup,
                            0,
                            threshold_of(old(self)@.validators.len()),
                            config.validation_upgrade_delay,
                        );
                        &&& r is Ok
                        &&& r->Ok_0@ == out.freed
                        &&& final(self)@.pending == out.pending
                        &&& final(self)@.commitments == out.commitments
                        &&& final(self)@.bitfields == records_after(
                            old(self)@.bitfields,
                            sbs,
                            0,
                            round.now,
                        )
                        &&& final(self)@.validators == old(self)@.validators
                        &&& final(self)@.session_index == old(self)@.session_index
                        &&& final(paras)@.heads == out.heads
                        &&& final(paras)@.upgrades == out.upgrades
                        &&& final(paras)@.vdata == old(paras)@.vdata
                        &&& log_view(final(events)@) == out.events
                        &&& (forall|i: int|
                            0 <= i < out.freed.len() ==> freed_justified(
                                SweepState {
                                    pending: folded,
                                    commitments: old(self)@.commitments,
                                    heads: old(paras)@.heads,
                                    upgrades: old(paras)@.upgrades,
                                    events: log_view(old(events)@),
                                    freed: Seq::empty(),
                                },
                                out.freed,
                                i,
                                threshold_of(old(self)@.validators.len()),
                            ))
                    }),
                })
                &&& ((exists|k: int|
                    0 <= k < sbs.len() && #[trigger] sbs[k].payload.len() != lookup.len())
                    ==> r is Err)
                &&& ((exists|k1: int, k2: int|
                    0 <= k1 < k2 < sbs.len() && #[trigger] sbs[k1].validator_index
                        >= #[trigger] sbs[k2].validator_index) ==> r is Err)
                &&& ((exists|k: int, b: int|
                    0 <= k < sbs.len() && 0 <= b < sbs[k].payload.len()
                        && #[trigger] sbs[k].payload[b] && !(0 <= b < occupied.len()
                        && occupied[b])) ==> r is Err)
            }),
    {
        let n_bits: usize = core_lookup.len();
        let m: usize = signed_bitfields.len();
        let ghost sbs = signed_bitfields@.map(|k: int, sb: SignedAvailabilityBitfield| sb@);
        let ghost lookup = core_lookup@;
        let ghost pending0 = self@.pending;
        let ctx = SigningContext {
            parent_hash: round.parent_hash,
            session_index: self.current_session_index,
        };

        // occupied mask: one bit per core, set when the core's shard has a
        // candidate pending availability.
        let mut occupied: Vec<bool> = Vec::new();
        let mut jm: usize = 0;
        while jm < n_bits
            invariant
                self.wf(),
                self@ == old(self)@,
                pending0 == self@.pending,
                lookup == core_lookup@,
                n_bits == lookup.len(),
                jm <= n_bits,
                occupied@.len() == jm,
                forall|q: int|
                    0 <= q < jm ==> occupied@[q] == (lookup[q] is Some && spec_contains(
                        pending0,
                        lookup[q]->Some_0,
                    )),
            decreases n_bits - jm,
        {
            let occ = match core_lookup[jm] {
                Some(p) => self.pending_availability.contains_key(p),
                None => false,
            };
            occupied.push(occ);
            jm += 1;
        }
        proof {
            assert(occupied@ =~= occupied_row(lookup, pending0));
        }
        let ghost occ_row = occupied_row(lookup, pending0);

        // validate the whole batch before touching any state.
        let mut last_index: Option<ValidatorIndex> = None;
        let mut i: usize = 0;
        while i < m
            invariant
                self.wf(),
                self@ == old(self)@,
                pending0 == self@.pending,
                lookup == core_lookup@,
                n_bits == lookup.len(),
                m == sbs.len(),
                sbs == signed_bitfields@.map(|k: int, sb: SignedAvailabilityBitfield| sb@),
                occupied@ == occ_row,
                occ_row == occupied_row(lookup, pending0),
                ctx == (SigningContext {
                    parent_hash: round.parent_hash,
                    session_index: old(self)@.session_index,
                }),
                i <= m,
                paras.wf(),
                paras@ == old(paras)@,
                events@ == old(events)@,
                bitfields_error_from(
                    sbs,
                    i as int,
                    last_index,
                    n_bits as int,
                    old(self)@.validators,
                    occ_row,
                    ctx,
                ) == bitfields_error_from(
                    sbs,
                    0,
                    None,
                    n_bits as int,
                    old(self)@.validators,
                    occ_row,
                    ctx,
                ),
            decreases m - i,
        {
            let sb = &signed_bitfields[i];
            proof {
                assert(sbs[i as int] == sb@);
            }
            if sb.payload().len() != n_bits {
                return Err(Error::WrongBitfieldSize);
            }
            match last_index {
                Some(last) => {
                    if last >= sb.validator_index() {
                        return Err(Error::BitfieldDuplicateOrUnordered);
                    }
                },
                None => {},
            }
            if sb.validator_index() as usize >= self.validators.len() {
                return Err(Error::ValidatorIndexOutOfBounds);
            }
            if !covered_by(sb.payload(), &occupied) {
                return Err(Error::UnoccupiedBitInBitfield);
            }
            let key = self.validators[sb.validator_index() as usize];
            if !sb.check_signature(&ctx, key) {
                return Err(Error::InvalidBitfieldSignature);
            }
            proof {
                assert(bitfield_error(
                    sbs[i as int],
                    n_bits as int,
                    last_index,
                    old(self)@.validators,
                    occ_row,
                    ctx,
                ) is None);
            }
            last_index = Some(sb.validator_index());
            i += 1;
        }
        let ghost verdict = bitfields_error_from(
            sbs,
            0,
            None,
            n_bits as int,
            old(self)@.validators,
            occ_row,
            ctx,
        );
        proof {
            assert(bitfields_error_from(
                sbs,
                m as int,
                last_index,
                n_bits as int,
                old(self)@.validators,
                occ_row,
                ctx,
            ) is None);
            assert(verdict is None);
            lemma_batch_passes(
                sbs,
                0,
                None,
                n_bits as int,
                old(self)@.validators,
                occ_row,
                ctx,
            );
            lemma_fold_init(pending0, sbs, lookup);
        }

        // fold every set bit into the targeted shard's vote bitmap and
        // record each bitfield as its validator's latest.
        let mut fi: usize = 0;
        while fi < m
            invariant
                self.wf(),
                distinct_keys(pending0),
                self@.validators == old(self)@.validators,
                self@.session_index == old(self)@.session_index,
                self@.commitments == old(self)@.commitments,
                lookup == core_lookup@,
                n_bits == lookup.len(),
                m == sbs.len(),
                sbs == signed_bitfields@.map(|k: int, sb: SignedAvailabilityBitfield| sb@),
                fi <= m,
                forall|k: int| 0 <= k < m ==> (#[trigger] sbs[k].payload.len()) == n_bits,
                self@.pending == folded_pending(pending0, sbs, lookup, fi as int, 0),
                records_after(self@.bitfields, sbs, fi as int, round.now) == records_after(
                    old(self)@.bitfields,
                    sbs,
                    0,
                    round.now,
                ),
            decreases m - fi,
        {
            let sb = &signed_bitfields[fi];
            proof {
                assert(sbs[fi as int] == sb@);
            }
            let mut fj: usize = 0;
            while fj < n_bits
                invariant
                    self.wf(),
                    distinct_keys(pending0),
                    self@.validators == old(self)@.validators,
                    self@.session_index == old(self)@.session_index,
                    self@.commitments == old(self)@.commitments,
                    records_after(self@.bitfields, sbs, fi as int, round.now) == records_after(
                        old(self)@.bitfields,
                        sbs,
                        0,
                        round.now,
                    ),
                    lookup == core_lookup@,
                    n_bits == lookup.len(),
                    m == sbs.len(),
                    fi < m,
                    sbs[fi as int] == sb@,
                    sbs[fi as int].payload.len() == n_bits,
                    fj <= n_bits,
                    self@.pending == folded_pending(pending0, sbs, lookup, fi as int, fj as int),
                decreases n_bits - fj,
            {
                if sb.payload()[fj] {
                    match core_lookup[fj] {
                        Some(p) => {
                            let updated: Option<CandidatePendingAvailability> =
                                match self.pending_availability.get(p) {
                                Some(rec) => Some(rec.duplicate()),
                                None => None,
                            };
                            match updated {
                                Some(mut rec) => {
                                    rec.set_availability_vote(sb.validator_index() as usize);
                                    self.pending_availability.insert(p, rec);
                                },
                                None => {},
                            }
                            proof {
                                lemma_folded_get(
                                    pending0,
                                    sbs,
                                    lookup,
                                    fi as int,
                                    fj as int,
                                    p,
                                );
                                lemma_fold_bit(pending0, sbs, lookup, fi as int, fj as int);
                                lemma_get_characterizes(pending0, p);
                                assert(self@.pending == folded_pending(
                                    pending0,
                                    sbs,
                                    lookup,
                                    fi as int,
                                    fj + 1,
                                ));
                            }
                        },
                        None => {
                            proof {
                                lemma_fold_bit(pending0, sbs, lookup, fi as int, fj as int);
                                assert(self@.pending == folded_pending(
                                    pending0,
                                    sbs,
                                    lookup,
                                    fi as int,
                                    fj + 1,
                                ));
                            }
                        },
                    }
                } else {
                    proof {
                        lemma_fold_bit(pending0, sbs, lookup, fi as int, fj as int);
                        assert(self@.pending == folded_pending(
                            pending0,
                            sbs,
                            lookup,
                            fi as int,
                            fj + 1,
                        ));
                    }
                }
                fj += 1;
            }
            proof {
                lemma_fold_row_advance(pending0, sbs, lookup, fi as int);
            }
            let bits = crate::bits::clone_bits(sb.payload());
            let record = AvailabilityBitfieldRecord::new(bits, round.now);
            proof {
                assert(record@ == (RecordView {
                    bitfield: sbs[fi as int].payload,
                    submitted_at: round.now,
                }));
            }
            self.availability_bitfields.insert(sb.validator_index(), record);
            fi += 1;
        }

        // availability sweep: enact and free every candidate that reached
        // the threshold, in core order.
        let threshold: usize = supermajority_threshold(self.validators.len());
        let ghost folded = self@.pending;
        let ghost records_final = self@.bitfields;
        let ghost st0 = SweepState {
            pending: folded,
            commitments: old(self)@.commitments,
            heads: paras@.heads,
            upgrades: paras@.upgrades,
            events: log_view(events@),
            freed: Seq::empty(),
        };
        let mut freed: Vec<CoreIndex> = Vec::new();
        let mut sj: usize = 0;
        while sj < n_bits
            invariant
                self.wf(),
                paras.wf(),
                lookup == core_lookup@,
                n_bits == lookup.len(),
                sj <= n_bits,
                self@.validators == old(self)@.validators,
                self@.session_index == old(self)@.session_index,
                self@.bitfields == records_final,
                paras@.vdata == old(paras)@.vdata,
                threshold == threshold_of(old(self)@.validators.len()),
                avail_sweep(
                    SweepState {
                        pending: self@.pending,
                        commitments: self@.commitments,
                        heads: paras@.heads,
                        upgrades: paras@.upgrades,
                        events: log_view(events@),
                        freed: freed@,
                    },
                    lookup,
                    sj as int,
                    threshold as int,
                    config.validation_upgrade_delay,
                ) == avail_sweep(
                    st0,
                    lookup,
                    0,
                    threshold as int,
                    config.validation_upgrade_delay,
                ),
            decreases n_bits - sj,
        {
            match core_lookup[sj] {
                Some(p) => {
                    let ghost pre = SweepState {
                        pending: self@.pending,
                        commitments: self@.commitments,
                        heads: paras@.heads,
                        upgrades: paras@.upgrades,
                        events: log_view(events@),
                        freed: freed@,
                    };
                    proof {
                        lemma_get_characterizes(pre.pending, p);
                        lemma_get_characterizes(pre.commitments, p);
                    }
                    let meets: bool = match self.pending_availability.get(p) {
                        Some(rec) => popcount(rec.availability_votes()) >= threshold,
                        None => false,
                    };
                    if meets {
                        match self.pending_availability.remove(p) {
                            Some(rec) => {
                                match self.pending_availability_commitments.remove(p) {
                                    Some(commitments) => {
                                        let rpn = rec.relay_parent_number();
                                        let receipt = CommittedCandidateReceipt {
                                            descriptor: *rec.descriptor(),
                                            commitments,
                                        };
                                        proof {
                                            assert(receipt@ =~= ReceiptView {
                                                descriptor: spec_get(
                                                    pre.pending,
                                                    p,
                                                )->Some_0.descriptor,
                                                commitments: spec_get(
                                                    pre.commitments,
                                                    p,
                                                )->Some_0,
                                            });
                                        }
                                        enact_candidate(rpn, receipt, config, paras, events);
                                        freed.push(rec.core_occupied());
                                    },
                                    None => {},
                                }
                            },
                            None => {},
                        }
                    }
                    proof {
                        lemma_get_characterizes(pre.pending, p);
                        lemma_get_characterizes(pre.commitments, p);
                        if !spec_contains(pre.pending, p) {
                            lemma_remove_absent(pre.pending, p);
                        }
                        if !spec_contains(pre.commitments, p) {
                            lemma_remove_absent(pre.commitments, p);
                        }
                        assert(SweepState {
                            pending: self@.pending,
                            commitments: self@.commitments,
                            heads: paras@.heads,
                            upgrades: paras@.upgrades,
                            events: log_view(events@),
                            freed: freed@,
                        } =~~= avail_step(
                            pre,
                            p,
                            threshold as int,
                            config.validation_upgrade_delay,
                        ));
                    }
                },
                None => {},
            }
            sj += 1;
        }
        proof {
            let cur = SweepState {
                pending: self@.pending,
                commitments: self@.commitments,
                heads: paras@.heads,
                upgrades: paras@.upgrades,
                events: log_view(events@),
                freed: freed@,
            };
            assert(avail_sweep(
                cur,
                lookup,
                n_bits as int,
                threshold as int,
                config.validation_upgrade_delay,
            ) == cur);
            lemma_folded_get(pending0, sbs, lookup, m as int, 0, 0);
            lemma_avail_sweep_props(
                st0,
                lookup,
                0,
                threshold as int,
                config.validation_upgrade_delay,
            );
            // the batch passed, so none of the rejection conditions holds
            lemma_batch_passes(
                sbs,
                0,
                None,
                n_bits as int,
                old(self)@.validators,
                occ_row,
                ctx,
            );
            assert(!(exists|k: int|
                0 <= k < sbs.len() && #[trigger] sbs[k].payload.len() != lookup.len())) by {
                if exists|k: int|
                    0 <= k < sbs.len() && #[trigger] sbs[k].payload.len() != lookup.len() {
                    let k = choose|k: int|
                        0 <= k < sbs.len() && #[trigger] sbs[k].payload.len() != lookup.len();
                    assert(bitfield_error(
                        sbs[k],
                        n_bits as int,
                        if k == 0 {
                            None
                        } else {
                            Some(sbs[k - 1].validator_index)
                        },
                        old(self)@.validators,
                        occ_row,
                        ctx,
                    ) is None);
                }
            }
            assert(!(exists|k: int, b: int|
                0 <= k < sbs.len() && 0 <= b < sbs[k].payload.len()
                    && #[trigger] sbs[k].payload[b] && !(0 <= b < occ_row.len()
                    && occ_row[b]))) by {
                if exists|k: int, b: int|
                    0 <= k < sbs.len() && 0 <= b < sbs[k].payload.len()
                        && #[trigger] sbs[k].payload[b] && !(0 <= b < occ_row.len()
                        && occ_row[b]) {
                    let (k, b) = choose|k: int, b: int|
                        0 <= k < sbs.len() && 0 <= b < sbs[k].payload.len()
                            && #[trigger] sbs[k].payload[b] && !(0 <= b < occ_row.len()
                            && occ_row[b]);
                    assert(bitfield_error(
                        sbs[k],
                        n_bits as int,
                        if k == 0 {
                            None
                        } else {
                            Some(sbs[k - 1].validator_index)
                        },
                        old(self)@.validators,
                        occ_row,
                        ctx,
                    ) is None);
                    assert(crate::bits::bits_covered(sbs[k].payload, occ_row));
                }
            }
        }
        Ok(freed)
    }

    /// Scans the assignments from `skip` for the candidate's shard,
    /// checking core order on the way, and validates the candidate at the
    /// matched assignment.
    fn find_assigned_core(
        &self,
        candidate: &crate::types::BackedCandidate,
        scheduled: &Vec<crate::types::CoreAssignment>,
        group_validators: &Vec<Vec<ValidatorIndex>>,
        paras: &Paras,
        ctx: &SigningContext,
        skip: usize,
        last_core: Option<CoreIndex>,
        Ghost(env): Ghost<CandidateEnv>,
    ) -> (r: CoreMatch)
        requires
            self.wf(),
            paras.wf(),
            skip <= scheduled@.len(),
            env.scheduled == scheduled@,
            env.groups == group_validators@.map(|gi: int, g: Vec<ValidatorIndex>| g@),
            env.pending == self@.pending,
            env.commitments == self@.commitments,
            env.vdata == paras@.vdata,
            env.upgrades == paras@.upgrades,
            env.validators == self@.validators,
            env_ctx(env) == *ctx,
        ensures
            match r {
                CoreMatch::Fail(e) => find_core(candidate@, env, skip as int, last_core)
                    == FindOutcome::Fail(e),
                CoreMatch::Bail => find_core(candidate@, env, skip as int, last_core)
                    == FindOutcome::Bail,
                CoreMatch::Found { next_skip, last, core } => next_skip <= scheduled@.len()
                    && find_core(candidate@, env, skip as int, last_core) == (FindOutcome::Found {
                    next_skip: next_skip as int,
                    last: Some(last),
                    core,
                }),
            },
    {
        let n: usize = scheduled.len();
        let mut j: usize = skip;
        let mut last: Option<CoreIndex> = last_core;
        while j < n
            invariant
                self.wf(),
                paras.wf(),
                n == scheduled@.len(),
                j <= n,
                env.scheduled == scheduled@,
                env.groups == group_validators@.map(|gi: int, g: Vec<ValidatorIndex>| g@),
                env.pending == self@.pending,
                env.commitments == self@.commitments,
                env.vdata == paras@.vdata,
                env.validators == self@.validators,
                env_ctx(env) == *ctx,
                find_core(candidate@, env, j as int, last) == find_core(
                    candidate@,
                    env,
                    skip as int,
                    last_core,
                ),
            decreases n - j,
        {
            let a = scheduled[j];
            match last {
                Some(lc) => {
                    if a.core <= lc {
                        return CoreMatch::Fail(Error::ScheduledOutOfOrder);
                    }
                },
                None => {},
            }
            last = Some(a.core);
            if candidate.candidate.descriptor.para_id == a.para_id {
                match a.required_collator {
                    Some(rc) => {
                        if rc != candidate.candidate.descriptor.collator {
                            return CoreMatch::Fail(Error::WrongCollator);
                        }
                    },
                    None => {},
                }
                match paras.validation_data_hash(a.para_id) {
                    None => {
                        return CoreMatch::Bail;
                    },
                    Some(h) => {
                        if h != candidate.candidate.descriptor.persisted_validation_data_hash {
                            return CoreMatch::Fail(Error::ValidationDataHashMismatch);
                        }
                    },
                }
                if self.pending_availability.contains_key(a.para_id)
                    || self.pending_availability_commitments.contains_key(a.para_id) {
                    return CoreMatch::Fail(Error::CandidateScheduledBeforeParaFree);
                }
                if a.group_idx as usize >= group_validators.len() {
                    return CoreMatch::Fail(Error::InvalidGroupIndex);
                }
                let group = &group_validators[a.group_idx as usize];
                proof {
                    assert(env.groups[a.group_idx as int] == group@);
                }
                match check_candidate_backing(candidate, group, &self.validators, ctx) {
                    None => {
                        return CoreMatch::Fail(Error::InvalidBacking);
                    },
                    Some(v) => {
                        proof {
                            assert((v as int > group@.len() / 2) == (2 * (v as int)
                                > group@.len())) by (nonlinear_arith);
                        }
                        if !(v > group.len() / 2) {
                            return CoreMatch::Fail(Error::InsufficientBacking);
                        }
                        return CoreMatch::Found { next_skip: j + 1, last: a.core, core: a.core };
                    },
                }
            }
            j += 1;
        }
        CoreMatch::Fail(Error::UnscheduledCandidate)
    }

    /// Processes a batch of backed candidates against the round's core
    /// assignments.
    ///
    /// Candidates and assignments must both ascend by core, and each
    /// candidate must match an assignment at or after the one matched by
    /// the candidate before it.  Every candidate is validated — parent
    /// context, code-upgrade timing, collator signature, required
    /// collator, validation-data hash, a free shard, and a backing
    /// majority of its validator group — before anything is written; any
    /// complaint rejects the whole call with nothing changed.  A shard
    /// whose validation data the shard-state manager cannot produce makes
    /// the whole call return an empty result instead of failing.  On
    /// success each candidate's pending record and commitments are
    /// written, a backed event is emitted per candidate, and the occupied
    /// cores are returned in order.
    pub fn process_candidates(
        &mut self,
        round: RoundInfo,
        config: &HostConfig,
        candidates: Vec<crate::types::BackedCandidate>,
        scheduled: Vec<crate::types::CoreAssignment>,
        group_validators: &Vec<Vec<ValidatorIndex>>,
        paras: &Paras,
        events: &mut Vec<Event>,
    ) -> (r: Result<Vec<CoreIndex>, Error>)
        requires
            old(self).wf(),
            paras.wf(),
            round.now >= 1,
        ensures
            final(self).wf(),
            ({
                let cands = candidates@.map(|k: int, c: crate::types::BackedCandidate| c@);
                let env = CandidateEnv {
                    parent_hash: round.parent_hash,
                    now: round.now,
                    session_index: old(self)@.session_index,
                    validators: old(self)@.validators,
                    config: *config,
                    pending: old(self)@.pending,
                    commitments: old(self)@.commitments,
                    upgrades: paras@.upgrades,
                    vdata: paras@.vdata,
                    groups: group_validators@.map(|gi: int, g: Vec<ValidatorIndex>| g@),
                    scheduled: scheduled@,
                };
                match candidates_outcome(cands, env) {
                    CandOutcome::Rejected(e) => {
                        &&& r is Err
                        &&& r->Err_0 == e
                        &&& final(self)@ == old(self)@
                        &&& final(events)@ == old(events)@
                    },
                    CandOutcome::MissingValidationData => {
                        &&& r is Ok
                        &&& r->Ok_0@ == Seq::<CoreIndex>::empty()
                        &&& final(self)@ == old(self)@
                        &&& final(events)@ == old(events)@
                    },
                    CandOutcome::Admitted(cores) => ({
                        let out = admit_from(
                            AdmitState {
                                pending: old(self)@.pending,
                                commitments: old(self)@.commitments,
                                events: log_view(old(events)@),
                            },
                            cands,
                            cores,
                            0,
                            env,
                        );
                        &&& r is Ok
                        &&& r->Ok_0@ == cores
                        &&& final(self)@.pending == out.pending
                        &&& final(self)@.commitments == out.commitments
                        &&& log_view(final(events)@) == out.events
                        &&& final(self)@.bitfields == old(self)@.bitfields
                        &&& final(self)@.validators == old(self)@.validators
                        &&& final(self)@.session_index == old(self)@.session_index
                        &&& (forall|k: int|
                            0 <= k < cands.len() ==> candidate_pre_error(
                                #[trigger] cands[k],
                                env,
                            ) is None && candidate_accepted(cands[k], env))
                    }),
                }
            }),
    {
        let ghost cands = candidates@.map(|k: int, c: crate::types::BackedCandidate| c@);
        let ghost env = CandidateEnv {
            parent_hash: round.parent_hash,
            now: round.now,
            session_index: self@.session_index,
            validators: self@.validators,
            config: *config,
            pending: self@.pending,
            commitments: self@.commitments,
            upgrades: paras@.upgrades,
            vdata: paras@.vdata,
            groups: group_validators@.map(|gi: int, g: Vec<ValidatorIndex>| g@),
            scheduled: scheduled@,
        };
        if candidates.len() > scheduled.len() {
            return Err(Error::UnscheduledCandidate);
        }
        if scheduled.len() == 0 {
            return Ok(Vec::new());
        }
        let ctx = SigningContext {
            parent_hash: round.parent_hash,
            session_index: self.current_session_index,
        };
        let rpn: BlockNumber = round.now - 1;
        let m: usize = candidates.len();
        let mut core_indices: Vec<CoreIndex> = Vec::new();
        let mut skip: usize = 0;
        let mut last_core: Option<CoreIndex> = None;
        let mut k: usize = 0;
        while k < m
            invariant
                self.wf(),
                paras.wf(),
                self@ == old(self)@,
                events@ == old(events)@,
                m == candidates@.len(),
                m == cands.len(),
                m <= scheduled@.len(),
                0 < scheduled@.len(),
                round.now >= 1,
                rpn == round.now - 1,
                cands == candidates@.map(|q: int, c: crate::types::BackedCandidate| c@),
                env == (CandidateEnv {
                    parent_hash: round.parent_hash,
                    now: round.now,
                    session_index: old(self)@.session_index,
                    validators: old(self)@.validators,
                    config: *config,
                    pending: old(self)@.pending,
                    commitments: old(self)@.commitments,
                    upgrades: paras@.upgrades,
                    vdata: paras@.vdata,
                    groups: group_validators@.map(|gi: int, g: Vec<ValidatorIndex>| g@),
                    scheduled: scheduled@,
                }),
                ctx == env_ctx(env),
                k <= m,
                skip <= scheduled@.len(),
                core_indices@.len() == k,
                scan_candidates(cands, env, k as int, skip as int, last_core, core_indices@)
                    == scan_candidates(cands, env, 0, 0, None, Seq::empty()),
            decreases m - k,
        {
            let c = &candidates[k];
            proof {
                assert(cands[k as int] == c@);
            }
            if c.candidate.descriptor.relay_parent != round.parent_hash {
                return Err(Error::CandidateNotInParentContext);
            }
            let upgrade_ok: bool = match &c.candidate.commitments.new_validation_code {
                None => true,
                Some(_) => match paras.last_code_upgrade(c.candidate.descriptor.para_id) {
                    None => true,
                    Some(last) => last <= rpn && rpn - last
                        >= config.validation_upgrade_frequency,
                },
            };
            proof {
                assert(upgrade_ok == upgrade_allowed(cands[k as int], env));
            }
            if !upgrade_ok {
                return Err(Error::PrematureCodeUpgrade);
            }
            if !c.candidate.descriptor.check_collator_signature() {
                return Err(Error::NotCollatorSigned);
            }
            proof {
                assert(candidate_pre_error(cands[k as int], env) is None);
            }
            match self.find_assigned_core(
                c,
                &scheduled,
                group_validators,
                paras,
                &ctx,
                skip,
                last_core,
                Ghost(env),
            ) {
                CoreMatch::Fail(e) => {
                    return Err(e);
                },
                CoreMatch::Bail => {
                    return Ok(Vec::new());
                },
                CoreMatch::Found { next_skip, last, core } => {
                    core_indices.push(core);
                    skip = next_skip;
                    last_core = Some(last);
                },
            }
            k += 1;
        }
        // the remaining assignments must still ascend by core
        let ghost skip_end = skip as int;
        let ghost last_end = last_core;
        let n_sched: usize = scheduled.len();
        let mut tj: usize = skip;
        while tj < n_sched
            invariant
                self.wf(),
                paras.wf(),
                self@ == old(self)@,
                events@ == old(events)@,
                m == candidates@.len(),
                m == cands.len(),
                m <= scheduled@.len(),
                0 < scheduled@.len(),
                n_sched == scheduled@.len(),
                round.now >= 1,
                cands == candidates@.map(|q: int, c: crate::types::BackedCandidate| c@),
                env == (CandidateEnv {
                    parent_hash: round.parent_hash,
                    now: round.now,
                    session_index: old(self)@.session_index,
                    validators: old(self)@.validators,
                    config: *config,
                    pending: old(self)@.pending,
                    commitments: old(self)@.commitments,
                    upgrades: paras@.upgrades,
                    vdata: paras@.vdata,
                    groups: group_validators@.map(|gi: int, g: Vec<ValidatorIndex>| g@),
                    scheduled: scheduled@,
                }),
                tj <= n_sched,
                core_indices@.len() == m,
                scan_candidates(cands, env, m as int, skip_end, last_end, core_indices@)
                    == scan_candidates(cands, env, 0, 0, None, Seq::empty()),
                rest_in_order(env.scheduled, tj as int, last_core) == rest_in_order(
                    env.scheduled,
                    skip_end,
                    last_end,
                ),
            decreases n_sched - tj,
        {
            let a = scheduled[tj];
            match last_core {
                Some(lc) => {
                    if a.core <= lc {
                        return Err(Error::ScheduledOutOfOrder);
                    }
                },
                None => {},
            }
            last_core = Some(a.core);
            tj += 1;
        }
        // everything passed: write the admissions
        let ghost cores = core_indices@;
        let ghost st0 = AdmitState {
            pending: self@.pending,
            commitments: self@.commitments,
            events: log_view(events@),
        };
        proof {
            assert(candidates_outcome(cands, env) == CandOutcome::Admitted(cores));
        }
        let mut km: usize = 0;
        while km < m
            invariant
                self.wf(),
                paras.wf(),
                m == candidates@.len(),
                m == cands.len(),
                round.now >= 1,
                rpn == round.now - 1,
                cands == candidates@.map(|q: int, c: crate::types::BackedCandidate| c@),
                env.validators == old(self)@.validators,
                env.now == round.now,
                km <= m,
                cores.len() == m,
                cores == core_indices@,
                candidates_outcome(cands, env) == CandOutcome::Admitted(cores),
                st0 == (AdmitState {
                    pending: old(self)@.pending,
                    commitments: old(self)@.commitments,
                    events: log_view(old(events)@),
                }),
                self@.validators == old(self)@.validators,
                self@.session_index == old(self)@.session_index,
                self@.bitfields == old(self)@.bitfields,
                admit_from(
                    AdmitState {
                        pending: self@.pending,
                        commitments: self@.commitments,
                        events: log_view(events@),
                    },
                    cands,
                    cores,
                    km as int,
                    env,
                ) == admit_from(st0, cands, cores, 0, env),
            decreases m - km,
        {
            let c = &candidates[km];
            proof {
                assert(cands[km as int] == c@);
            }
            let ghost pre = AdmitState {
                pending: self@.pending,
                commitments: self@.commitments,
                events: log_view(events@),
            };
            let para = c.candidate.descriptor.para_id;
            let votes = zero_bits(self.validators.len());
            events.push(
                Event::CandidateBacked {
                    descriptor: c.candidate.descriptor,
                    head_data: clone_bytes(&c.candidate.commitments.head_data),
                },
            );
            let record = CandidatePendingAvailability::new(
                core_indices[km],
                c.candidate.descriptor,
                votes,
                rpn,
                round.now,
            );
            self.pending_availability.insert(para, record);
            self.pending_availability_commitments.insert(para, c.candidate.commitments.duplicate());
            proof {
                assert(record@.availability_votes =~= Seq::new(
                    env.validators.len(),
                    |v: int| false,
                ));
                assert(log_view(events@) =~= pre.events.push(backed_event(cands[km as int].candidate)));
                assert(AdmitState {
                    pending: self@.pending,
                    commitments: self@.commitments,
                    events: log_view(events@),
                } =~~= (AdmitState {
                    pending: spec_insert(
                        pre.pending,
                        para,
                        PendingView {
                            core: cores[km as int],
                            descriptor: cands[km as int].candidate.descriptor,
                            availability_votes: Seq::new(env.validators.len(), |v: int| false),
                            relay_parent_number: (env.now - 1) as u64,
                            backed_in_number: env.now,
                        },
                    ),
                    commitments: spec_insert(
                        pre.commitments,
                        para,
                        cands[km as int].candidate.commitments,
                    ),
                    events: pre.events.push(backed_event(cands[km as int].candidate)),
                }));
            }
            km += 1;
        }
        proof {
            let cur = AdmitState {
                pending: self@.pending,
                commitments: self@.commitments,
                events: log_view(events@),
            };
            assert(admit_from(cur, cands, cores, m as int, env) == cur);
            lemma_admitted_candidates_validated(cands, env);
        }
        Ok(core_indices)
    }

    /// Cleans up every shard pending availability whose candidate the
    /// predicate flags, given the occupied core and the round the candidate
    /// was backed in.  Flagged pairs are drained, a timed-out event is
    /// emitted for each pair whose commitments are present (a desynced
    /// lone record is drained silently), and the freed cores are returned
    /// in store order.
    pub fn collect_pending<F: Fn(CoreIndex, BlockNumber) -> bool>(
        &mut self,
        pred: F,
        events: &mut Vec<Event>,
    ) -> (freed: Vec<CoreIndex>)
        requires
            old(self).wf(),
            forall|c: CoreIndex, b: BlockNumber| #[trigger] call_requires(pred, (c, b)),
        ensures
            final(self).wf(),
            final(self)@.validators == old(self)@.validators,
            final(self)@.session_index == old(self)@.session_index,
            final(self)@.bitfields == old(self)@.bitfields,
            forall|p: ParaId|
                spec_get(#[trigger] final(self)@.pending, p) is Some ==> spec_get(
                    old(self)@.pending,
                    p,
                ) == spec_get(final(self)@.pending, p),
            forall|p: ParaId|
                spec_get(#[trigger] final(self)@.commitments, p) is Some ==> spec_get(
                    old(self)@.commitments,
                    p,
                ) == spec_get(final(self)@.commitments, p),
            exists|ds: Seq<bool>|
                {
                    &&& #[trigger] sweep_decided(pred, old(self)@.pending, ds)
                    &&& ({
                        let out = collect_spec(
                            CollectState {
                                pending: old(self)@.pending,
                                commitments: old(self)@.commitments,
                                events: log_view(old(events)@),
                                freed: Seq::empty(),
                            },
                            old(self)@.pending,
                            ds,
                            0,
                        );
                        &&& final(self)@.pending == out.pending
                        &&& final(self)@.commitments == out.commitments
                        &&& log_view(final(events)@) == out.events
                        &&& freed@ == out.freed
                    })
                },
    {
        let ghost work = self@.pending;
        let n: usize = self.pending_availability.len();
        let mut flags: Vec<bool> = Vec::new();
        let mut keys: Vec<ParaId> = Vec::new();
        let mut cores: Vec<CoreIndex> = Vec::new();
        let mut i: usize = 0;
        while i < n
            invariant
                self.wf(),
                self@ == old(self)@,
                work == self@.pending,
                n == work.len(),
                i <= n,
                flags@.len() == i,
                keys@.len() == i,
                cores@.len() == i,
                forall|q: int|
                    0 <= q < i ==> keys@[q] == work[q].0 && cores@[q] == work[q].1.core,
                forall|q: int|
                    0 <= q < i ==> call_ensures(
                        pred,
                        (work[q].1.core, work[q].1.backed_in_number),
                        flags@[q],
                    ),
                forall|c: CoreIndex, b: BlockNumber| #[trigger] call_requires(pred, (c, b)),
            decreases n - i,
        {
            let entry_key = self.pending_availability.key_at(i);
            let core: CoreIndex;
            let backed: BlockNumber;
            {
                let record = self.pending_availability.value_at(i);
                core = record.core_occupied();
                backed = record.backed_in_number();
            }
            let flagged = pred(core, backed);
            keys.push(entry_key);
            cores.push(core);
            flags.push(flagged);
            i += 1;
        }
        let ghost ds = flags@;
        let ghost st0 = CollectState {
            pending: old(self)@.pending,
            commitments: old(self)@.commitments,
            events: log_view(old(events)@),
            freed: Seq::empty(),
        };
        let mut freed: Vec<CoreIndex> = Vec::new();
        let mut j: usize = 0;
        while j < n
            invariant
                self.wf(),
                self@.validators == old(self)@.validators,
                self@.session_index == old(self)@.session_index,
                self@.bitfields == old(self)@.bitfields,
                n == work.len(),
                ds.len() == n,
                flags@ == ds,
                keys@.len() == n,
                cores@.len() == n,
                j <= n,
                forall|q: int|
                    0 <= q < n ==> keys@[q] == work[q].0 && cores@[q] == work[q].1.core,
                collect_spec(
                    CollectState {
                        pending: self@.pending,
                        commitments: self@.commitments,
                        events: log_view(events@),
                        freed: freed@,
                    },
                    work,
                    ds,
                    j as int,
                ) == collect_spec(st0, work, ds, 0),
            decreases n - j,
        {
            if flags[j] {
                let k = keys[j];
                let ghost pre = CollectState {
                    pending: self@.pending,
                    commitments: self@.commitments,
                    events: log_view(events@),
                    freed: freed@,
                };
                proof {
                    lemma_get_characterizes(pre.pending, k);
                    lemma_get_characterizes(pre.commitments, k);
                }
                let pending_record = self.pending_availability.remove(k);
                let commitments_record = self.pending_availability_commitments.remove(k);
                match (pending_record, commitments_record) {
                    (Some(p), Some(c)) => {
                        let CandidateCommitments { head_data, new_validation_code: _ } = c;
                        events.push(
                            Event::CandidateTimedOut { descriptor: *p.descriptor(), head_data },
                        );
                        proof {
                            assert(log_view(events@) =~= pre.events.push(
                                timed_out_event(
                                    spec_get(pre.pending, k)->Some_0.descriptor,
                                    spec_get(pre.commitments, k)->Some_0,
                                ),
                            ));
                        }
                    },
                    _ => {},
                }
                freed.push(cores[j]);
                proof {
                    assert(CollectState {
                        pending: self@.pending,
                        commitments: self@.commitments,
                        events: log_view(events@),
                        freed: freed@,
                    } =~= collect_step(pre, work[j as int].0, work[j as int].1.core));
                }
            }
            j += 1;
        }
        proof {
            let cur = CollectState {
                pending: self@.pending,
                commitments: self@.commitments,
                events: log_view(events@),
                freed: freed@,
            };
            assert(collect_spec(cur, work, ds, n as int) == cur);
            assert(cur == collect_spec(st0, work, ds, 0));
            assert(sweep_decided(pred, old(self)@.pending, ds));
            lemma_collect_spec_props(st0, work, ds, 0);
        }
        freed
    }
}

} // verus!
