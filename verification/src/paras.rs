//! The shard-state manager the engine enacts into.
//!
//! The engine consumes a narrow interface of it: read the hash of the
//! persisted validation data the manager would compute for a shard (which
//! may be unknown), read the round of the last scheduled code upgrade,
//! accept a new head, and accept a scheduled code upgrade.  This module
//! holds a plain model of exactly that interface, so that enactment is a
//! verified write into it.

use crate::store::{spec_get, spec_insert, Store};
use crate::types::{BlockNumber, Digest, ParaId};
use vstd::prelude::*;

verus! {

/// View of [`HeadEntry`].
#[verifier::ext_equal]
pub ghost struct HeadEntryView {
    pub head: Seq<u8>,
    pub at: BlockNumber,
}

/// A shard's current head data and the relay round it was enacted at.
pub struct HeadEntry {
    pub head: Vec<u8>,
    pub at: BlockNumber,
}

impl View for HeadEntry {
    type V = HeadEntryView;

    open spec fn view(&self) -> HeadEntryView {
        HeadEntryView { head: self.head@, at: self.at }
    }
}

/// View of [`UpgradeEntry`].
#[verifier::ext_equal]
pub ghost struct UpgradeEntryView {
    pub code: Seq<u8>,
    pub expected_at: BlockNumber,
}

/// A scheduled code upgrade: the new code and the round it takes effect.
pub struct UpgradeEntry {
    pub code: Vec<u8>,
    pub expected_at: BlockNumber,
}

impl View for UpgradeEntry {
    type V = UpgradeEntryView;

    open spec fn view(&self) -> UpgradeEntryView {
        UpgradeEntryView { code: self.code@, expected_at: self.expected_at }
    }
}

/// The hash of the persisted validation data the manager computes for a
/// shard.
#[derive(Clone, Copy, PartialEq, Eq, Structural, Debug)]
pub struct VdataEntry {
    pub hash: Digest,
}

impl View for VdataEntry {
    type V = VdataEntry;

    open spec fn view(&self) -> VdataEntry {
        *self
    }
}

/// View of [`Paras`].
#[verifier::ext_equal]
pub ghost struct ParasView {
    pub heads: Seq<(u32, HeadEntryView)>,
    pub upgrades: Seq<(u32, UpgradeEntryView)>,
    pub vdata: Seq<(u32, VdataEntry)>,
}

/// The shard-state manager: per-shard head data, scheduled code upgrades,
/// and persisted-validation-data hashes.
pub struct Paras {
    heads: Store<HeadEntry>,
    upgrades: Store<UpgradeEntry>,
    vdata: Store<VdataEntry>,
}

impl View for Paras {
    type V = ParasView;

    closed spec fn view(&self) -> ParasView {
        ParasView { heads: self.heads@, upgrades: self.upgrades@, vdata: self.vdata@ }
    }
}

impl Paras {
    pub open spec fn wf(self) -> bool {
        &&& crate::store::distinct_keys(self@.heads)
        &&& crate::store::distinct_keys(self@.upgrades)
        &&& crate::store::distinct_keys(self@.vdata)
    }

    pub fn new() -> (r: Paras)
        ensures
            r@.heads == Seq::<(u32, HeadEntryView)>::empty(),
            r@.upgrades == Seq::<(u32, UpgradeEntryView)>::empty(),
            r@.vdata == Seq::<(u32, VdataEntry)>::empty(),
            r.wf(),
    {
        Paras { heads: Store::new(), upgrades: Store::new(), vdata: Store::new() }
    }

    /// Fixes what the manager would compute as the persisted-validation-data
    /// hash for `para`.
    pub fn set_validation_data_hash(&mut self, para: ParaId, hash: Digest)
        requires
            old(self).wf(),
        ensures
            final(self)@.vdata == spec_insert(old(self)@.vdata, para, VdataEntry { hash }),
            final(self)@.heads == old(self)@.heads,
            final(self)@.upgrades == old(self)@.upgrades,
            final(self).wf(),
    {
        proof {
            crate::store::lemma_insert_get(old(self)@.vdata, para, VdataEntry { hash });
        }
        self.vdata.insert(para, VdataEntry { hash });
    }

    /// The persisted-validation-data hash for `para`, if the manager can
    /// compute one.
    pub fn validation_data_hash(&self, para: ParaId) -> (r: Option<Digest>)
        requires
            self.wf(),
        ensures
            r == match spec_get(self@.vdata, para) {
                Some(e) => Some(e.hash),
                None => None::<Digest>,
            },
    {
        match self.vdata.get(para) {
            Some(e) => Some(e.hash),
            None => None,
        }
    }

    /// Pushes a new head for `para`, tagged with the relay round `at`.
    pub fn note_new_head(&mut self, para: ParaId, head: Vec<u8>, at: BlockNumber)
        requires
            old(self).wf(),
        ensures
            final(self)@.heads == spec_insert(
                old(self)@.heads,
                para,
                HeadEntryView { head: head@, at },
            ),
            final(self)@.upgrades == old(self)@.upgrades,
            final(self)@.vdata == old(self)@.vdata,
            final(self).wf(),
    {
        proof {
            crate::store::lemma_insert_get(old(self)@.heads, para, HeadEntryView { head: head@, at });
        }
        self.heads.insert(para, HeadEntry { head, at });
    }

    /// The current head data of `para`, if any was noted.
    pub fn para_head(&self, para: ParaId) -> (r: Option<&Vec<u8>>)
        requires
            self.wf(),
        ensures
            match r {
                Some(h) => spec_get(self@.heads, para) is Some && spec_get(
                    self@.heads,
                    para,
                )->Some_0.head == h@,
                None => spec_get(self@.heads, para) is None,
            },
    {
        match self.heads.get(para) {
            Some(e) => Some(&e.head),
            None => None,
        }
    }

    /// Schedules a code upgrade for `para`, effective at `expected_at`.
    pub fn schedule_code_upgrade(&mut self, para: ParaId, code: Vec<u8>, expected_at: BlockNumber)
        requires
            old(self).wf(),
        ensures
            final(self)@.upgrades == spec_insert(
                old(self)@.upgrades,
                para,
                UpgradeEntryView { code: code@, expected_at },
            ),
            final(self)@.heads == old(self)@.heads,
            final(self)@.vdata == old(self)@.vdata,
            final(self).wf(),
    {
        proof {
            crate::store::lemma_insert_get(
                old(self)@.upgrades,
                para,
                UpgradeEntryView { code: code@, expected_at },
            );
        }
        self.upgrades.insert(para, UpgradeEntry { code, expected_at });
    }

    /// The round of the last code upgrade scheduled for `para`, if any.
    pub fn last_code_upgrade(&self, para: ParaId) -> (r: Option<BlockNumber>)
        requires
            self.wf(),
        ensures
            r == match spec_get(self@.upgrades, para) {
                Some(e) => Some(e.expected_at),
                None => None::<BlockNumber>,
            },
    {
        match self.upgrades.get(para) {
            Some(e) => Some(e.expected_at),
            None => None,
        }
    }

    /// The code scheduled for `para`, if an upgrade is pending.
    pub fn future_code(&self, para: ParaId) -> (r: Option<&Vec<u8>>)
        requires
            self.wf(),
        ensures
            match r {
                Some(c) => spec_get(self@.upgrades, para) is Some && spec_get(
                    self@.upgrades,
                    para,
                )->Some_0.code == c@,
                None => spec_get(self@.upgrades, para) is None,
            },
    {
        match self.upgrades.get(para) {
            Some(e) => Some(&e.code),
            None => None,
        }
    }
}

} // verus!
