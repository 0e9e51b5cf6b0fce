//! Owner-side streamed staging of one payload, one sector at a time.
//!
//! A stage lets a caller supply a file of up to the largest file size one
//! sector at a time instead of lending the whole payload. A fresh stage
//! reserves its planned runs and one retained slot in memory only: other
//! planners avoid the reservation, which is never written into the mounted
//! map, so the map keeps describing exact durable ownership. Aborting,
//! releasing all stages, remounting and any fence release every reservation
//! without I/O. A stage that matches a retained retry record reserves nothing
//! and checks each supplied sector against the immutable snapshot instead.
use vstd::prelude::*;
use crate::checksum::{crc_fold, crc_update};
use crate::format7::{Record7, MAX_FILE_BYTES, payload_ok};
use crate::volume6::{PayloadPlan, sectors_for};
use crate::volume7::{Volume7, WriteIdentity7};
use crate::volume7::payload::{plan_free, reserve_plan, plan_payload};
use crate::volume7::replacement::{replace_refusal7, retry_record7};
use crate::volume7::admission::{admission_opening7, Opening7};
use crate::format7::{RecordState, check_payload, PAYLOAD_SECTOR};
use crate::volume7::poll::{sector_of, nth_sector, lemma_sector_bounded};
use crate::volume7::mount::{cleared7, content7};
use crate::volume6::{least, padded_at, read_runs};
use crate::storage::Disk;
use crate::codec::{put, slices_equal};
use crate::volume6::covered;
use crate::extent::{bit, free_run, MAP_WORDS, DATA_SECTORS, EXTENTS_PER_FILE};
use crate::Error;

verus! {

/// Open stages one owner holds at most.
pub const STAGES: usize = 2;

/// The token of one open stage. It names the issuing owner's identity, the
/// stage's slot and a per-owner nonce, so a token of another owner, of an
/// ended stage or of a remounted owner is refused as `Invalid`.
#[derive(Debug)]
pub struct Stage7 {
    owner: u64,
    slot: u8,
    nonce: u64,
}

/// Which mutation a stage finishes as.
#[derive(Clone, Copy, Debug, PartialEq, Eq, Structural)]
pub enum Stage7Kind {
    /// A direct committed replacement.
    Replacement,
    /// A durable admission.
    Admission,
}

/// How a stage treats the sectors it is given.
#[derive(Clone, Copy)]
pub enum StageMode {
    /// New payload written to planned, currently free runs.
    Fresh(PayloadPlan),
    /// An exact retry checked against a retained snapshot.
    Retry { record: Record7, matches: bool },
}

/// One open stage.
#[derive(Clone, Copy)]
pub struct StageSlot {
    pub nonce: u64,
    pub kind: Stage7Kind,
    pub identity: WriteIdentity7,
    pub expected_version: u64,
    pub length: u32,
    pub mode: StageMode,
    pub written: u32,
    pub checksum: u32,
}

/// A stage's own invariant: progress within the length, a sound plan for a
/// fresh stage, a sound snapshot of that length for a retry.
pub open spec fn slot_wf(s: StageSlot) -> bool {
    &&& s.written <= s.length <= MAX_FILE_BYTES
    &&& match s.mode {
        StageMode::Fresh(plan) => plan.wf() && plan.total() == sectors_for(s.length as int),
        StageMode::Retry { record, .. } => record.extents_used <= 8 && record.length == s.length
            && payload_ok(record.extents@, record.extents_used as int, record.length as int),
    }
}

/// Sector `s` is reserved by an open fresh stage.
/// `m` is the map a planner works on for owner `v`: the mounted map with the
/// runs of every open fresh stage marked allocated.
pub open spec fn planned7(m: Seq<u64>, v: Volume7) -> bool {
    &&& m.len() == MAP_WORDS
    &&& forall|s: int| 0 <= s < DATA_SECTORS ==> #[trigger] bit(m, s) == (bit(v.map@, s) || reserved7(v.stages@, s))
}

/// Only one map is planned for an owner.
pub proof fn lemma_planned_unique(a: Seq<u64>, b: Seq<u64>, v: Volume7)
    requires
        planned7(a, v),
        planned7(b, v),
    ensures
        a == b,
{
    assert forall|s: int| 0 <= s < DATA_SECTORS implies #[trigger] bit(a, s) == bit(b, s) by {
        assert(bit(a, s) == (bit(v.map@, s) || reserved7(v.stages@, s)));
    }
    crate::extent::lemma_words_from_bits(a, b);
}

pub open spec fn reserved7(stages: Seq<Option<StageSlot>>, s: int) -> bool {
    exists|k: int| 0 <= k < stages.len() && (#[trigger] stages[k] matches Some(slot)
        && slot.mode matches StageMode::Fresh(plan) && covered(plan.runs@, plan.used as int, s))
}

/// Some open stage holds `id`'s retry scope.
pub open spec fn stage_scope7(stages: Seq<Option<StageSlot>>, id: WriteIdentity7) -> bool {
    exists|k: int| 0 <= k < stages.len() && (#[trigger] stages[k] matches Some(slot)
        && slot.identity.subject == id.subject && slot.identity.workspace == id.workspace
        && slot.identity.retry_epoch == id.retry_epoch && slot.identity.retry_key == id.retry_key)
}

/// How many stages are open.
pub open spec fn open_count7(stages: Seq<Option<StageSlot>>) -> int
    decreases stages.len(),
{
    if stages.len() == 0 {
        0
    } else {
        open_count7(stages.drop_last()) + if stages.last() is Some { 1int } else { 0int }
    }
}

/// A plan free in a map that marks at least what `map` marks is free in `map`.
pub proof fn lemma_plan_free_below(plan: PayloadPlan, wider: Seq<u64>, map: Seq<u64>)
    requires
        plan_free(plan, wider),
        forall|s: int| 0 <= s < DATA_SECTORS && #[trigger] bit(map, s) ==> bit(wider, s),
    ensures
        plan_free(plan, map),
{
    assert forall|k: int| 0 <= k < plan.used implies free_run(map, (#[trigger] plan.runs@[k]).start as int, plan.runs@[k].sectors as int) by {
        assert(free_run(wider, plan.runs@[k].start as int, plan.runs@[k].sectors as int));
    }
}

impl Volume7 {
    /// The mounted map with every open fresh stage's runs marked allocated.
    /// Its words are fixed by those bits: see `planned7`.
    /// Planners use it so a new payload never overlaps a reservation; the
    /// mounted map itself is not changed.
    pub fn planning_map(&self) -> (r: Vec<u64>)
        requires
            self.wf(),
        ensures
            r@.len() == MAP_WORDS,
            forall|s: int| 0 <= s < DATA_SECTORS ==> #[trigger] bit(r@, s) == (bit(self.map@, s) || reserved7(self.stages@, s)),
            planned7(r@, *self),
    {
        let mut words: Vec<u64> = Vec::new();
        let mut w: usize = 0;
        while w < MAP_WORDS
            invariant
                0 <= w <= MAP_WORDS,
                self.wf(),
                words@ == self.map@.take(w as int),
            decreases MAP_WORDS - w,
        {
            words.push(self.map[w]);
            w = w + 1;
            assert(words@ =~= self.map@.take(w as int));
        }
        assert(words@ =~= self.map@);
        let mut k: usize = 0;
        while k < STAGES
            invariant
                0 <= k <= STAGES,
                self.wf(),
                words@.len() == MAP_WORDS,
                forall|s: int| 0 <= s < DATA_SECTORS ==> #[trigger] bit(words@, s) == (bit(self.map@, s)
                    || reserved7(self.stages@.take(k as int), s)),
            decreases STAGES - k,
        {
            let ghost before = words@;
            match &self.stages[k] {
                Some(slot) => match &slot.mode {
                    StageMode::Fresh(plan) => {
                        assert(slot_wf(self.stages@[k as int]->Some_0));
                        reserve_plan(&mut words, plan);
                    },
                    StageMode::Retry { .. } => {},
                },
                None => {},
            }
            proof {
                assert forall|s: int| 0 <= s < DATA_SECTORS implies #[trigger] bit(words@, s) == (bit(self.map@, s)
                    || reserved7(self.stages@.take(k + 1), s)) by {
                    let t0 = self.stages@.take(k as int);
                    let t1 = self.stages@.take(k + 1);
                    if reserved7(t0, s) {
                        let j = choose|j: int| 0 <= j < t0.len() && (#[trigger] t0[j] matches Some(slot)
                            && slot.mode matches StageMode::Fresh(plan) && covered(plan.runs@, plan.used as int, s));
                        assert(t1[j] == t0[j]);
                    }
                    if reserved7(t1, s) {
                        let j = choose|j: int| 0 <= j < t1.len() && (#[trigger] t1[j] matches Some(slot)
                            && slot.mode matches StageMode::Fresh(plan) && covered(plan.runs@, plan.used as int, s));
                        if j < k {
                            assert(t0[j] == t1[j]);
                        }
                    }
                    assert(t1[k as int] == self.stages@[k as int]);
                }
            }
            k = k + 1;
        }
        assert(self.stages@.take(STAGES as int) =~= self.stages@);
        words
    }

    /// Whether any open stage holds `identity`'s retry scope.
    pub fn stage_holds_scope(&self, identity: WriteIdentity7) -> (r: bool)
        ensures
            r == stage_scope7(self.stages@, identity),
    {
        let mut k: usize = 0;
        while k < STAGES
            invariant
                0 <= k <= STAGES,
                forall|j: int| 0 <= j < k ==> !(#[trigger] self.stages@[j] matches Some(slot)
                    && slot.identity.subject == identity.subject && slot.identity.workspace == identity.workspace
                    && slot.identity.retry_epoch == identity.retry_epoch && slot.identity.retry_key == identity.retry_key),
            decreases STAGES - k,
        {
            match &self.stages[k] {
                Some(slot) => {
                    if slot.identity.subject == identity.subject && slot.identity.workspace == identity.workspace
                        && slot.identity.retry_epoch == identity.retry_epoch && slot.identity.retry_key == identity.retry_key {
                        return true;
                    }
                },
                None => {},
            }
            k = k + 1;
        }
        false
    }

    /// Whether any stage is open, for operations that must not change the
    /// records or the epoch a stage depends on.
    pub fn stages_open(&self) -> (r: bool)
        ensures
            r == exists|k: int| 0 <= k < STAGES && #[trigger] self.stages@[k] is Some,
    {
        self.stages[0].is_some() || self.stages[1].is_some()
    }

    /// How many stages are open, including any whose token was dropped.
    pub fn open_stages(&self) -> (r: usize)
        ensures
            r == open_count7(self.stages@),
    {
        proof {
            reveal_with_fuel(open_count7, 3);
            assert(self.stages@.drop_last().drop_last().len() == 0);
        }
        let mut n: usize = 0;
        if self.stages[0].is_some() {
            n = n + 1;
        }
        if self.stages[1].is_some() {
            n = n + 1;
        }
        n
    }

    /// Release every open stage and its reservations without I/O and without
    /// fencing, so a service can recover from dropped tokens without a
    /// remount. Returns how many were released; their tokens are stale.
    pub fn release_stages(&mut self) -> (r: usize)
        requires
            old(self).wf(),
        ensures
            final(self).wf(),
            r == open_count7(old(self).stages@),
            forall|k: int| 0 <= k < STAGES ==> #[trigger] final(self).stages@[k] is None,
            final(self).header == old(self).header,
            final(self).nodes == old(self).nodes,
            final(self).records == old(self).records,
            final(self).map == old(self).map,
            final(self).fenced == old(self).fenced,
            final(self).stage_owner == old(self).stage_owner,
            final(self).stage_nonce == old(self).stage_nonce,
    {
        let released = self.open_stages();
        self.stages = [None, None];
        released
    }
}

impl Stage7 {
    pub closed spec fn spec_owner(&self) -> u64 {
        self.owner
    }

    pub closed spec fn spec_slot(&self) -> u8 {
        self.slot
    }

    pub closed spec fn spec_nonce(&self) -> u64 {
        self.nonce
    }
}

impl StageSlot {
    /// Every byte has been written or checked.
    pub fn complete(&self) -> (r: bool)
        ensures
            r == (self.written == self.length),
    {
        self.written == self.length
    }

    /// The checksum of the bytes supplied so far.
    pub fn payload_crc(&self) -> (r: u32)
        ensures
            r == !self.checksum,
    {
        !self.checksum
    }
}


/// The first stage slot that is not open.
pub open spec fn first_free7(stages: Seq<Option<StageSlot>>) -> Option<int> {
    if stages[0] is None {
        Some(0)
    } else if stages[1] is None {
        Some(1)
    } else {
        None
    }
}

/// The slot token `t` names on `v`, if the token is current there: issued by
/// this owner, for a stage still open with the token's nonce.
pub open spec fn token_slot7(v: Volume7, t: Stage7) -> Option<int> {
    let i = t.spec_slot() as int;
    if i < STAGES && t.spec_owner() == v.stage_owner && v.stages@[i] is Some && v.stages@[i]->Some_0.nonce == t.spec_nonce() {
        Some(i)
    } else {
        None
    }
}

/// Token `t` names an open stage of `kind` on `v` with every byte supplied.
pub open spec fn finishable7(v: Volume7, t: Stage7, kind: Stage7Kind) -> bool {
    token_slot7(v, t) matches Some(i) && v.stages@[i]->Some_0.kind == kind
        && v.stages@[i]->Some_0.written == v.stages@[i]->Some_0.length
}

/// What opening a stage of `kind` decides: a refusal, a retained retry to
/// check (its record), or a fresh stage (`None`). The preflight is the one
/// the borrowed-bytes form of the same mutation applies.
pub open spec fn stage_opening7(v: Volume7, id: WriteIdentity7, expected: u64, length: int, kind: Stage7Kind) -> Result<Option<Record7>, Error> {
    match kind {
        Stage7Kind::Replacement => match replace_refusal7(v, id, expected, length) {
            Some(e) => Err(e),
            None => match retry_record7(v, id) {
                Some(r) => if payload_ok(r.extents@, r.extents_used as int, r.length as int) {
                    Ok(Some(r))
                } else {
                    Err(Error::Corrupt)
                },
                None => Ok(None),
            },
        },
        Stage7Kind::Admission => match admission_opening7(v, id, expected, length) {
            Err(e) => Err(e),
            Ok(Some(k)) => Ok(Some(v.records@[k]->Some_0)),
            Ok(None) => Ok(None),
        },
    }
}

/// Every sector of `plan` is free in `v`'s map and reserved by no open stage.
pub open spec fn plan_clear7(plan: PayloadPlan, v: Volume7) -> bool {
    forall|s: int| 0 <= s < DATA_SECTORS && #[trigger] covered(plan.runs@, plan.used as int, s)
        ==> !bit(v.map@, s) && !reserved7(v.stages@, s)
}

/// A newly opened stage of `kind` for `id`, nothing supplied yet.
pub open spec fn opened7(s: StageSlot, kind: Stage7Kind, id: WriteIdentity7, expected: u64, length: u32) -> bool {
    &&& s.kind == kind
    &&& s.identity == id
    &&& s.expected_version == expected
    &&& s.length == length
    &&& s.written == 0
    &&& s.checksum == 0xffff_ffffu32
}

/// `b` differs from `a` at most in its stages.
pub open spec fn stages_only7(a: Volume7, b: Volume7) -> bool {
    &&& b.header == a.header
    &&& b.nodes == a.nodes
    &&& b.records == a.records
    &&& b.map == a.map
    &&& b.validation == a.validation
    &&& b.fenced == a.fenced
    &&& b.recovered_from_header == a.recovered_from_header
    &&& b.stage_owner == a.stage_owner
    &&& b.stage_nonce == a.stage_nonce
}

impl Volume7 {
    /// The preflight and reservation plan of a stage of `kind` that is not
    /// yet registered.
    fn open_slot(&self, identity: WriteIdentity7, expected_version: u64, length: u32, kind: Stage7Kind) -> (r: Result<StageSlot, Error>)
        requires
            self.wf(),
        ensures
            r matches Ok(s) ==> slot_wf(s) && opened7(s, kind, identity, expected_version, length),
            match stage_opening7(*self, identity, expected_version, length as int, kind) {
                Err(e) => r == Err::<StageSlot, Error>(e),
                Ok(Some(rec)) => r matches Ok(s) && s.mode == (StageMode::Retry { record: rec, matches: true }),
                Ok(None) => (r matches Ok(s) && s.mode matches StageMode::Fresh(plan) && plan_clear7(plan, *self))
                    || r == Err::<StageSlot, Error>(Error::Full),
            },
    {
        self.ready()?;
        if length > MAX_FILE_BYTES {
            return Err(Error::Size);
        }
        self.validate_identity(identity)?;
        if self.stage_holds_scope(identity) {
            return Err(Error::Busy);
        }
        let mode = match kind {
            Stage7Kind::Replacement => {
                match self.find_retry(identity) {
                    Some(k) => {
                        let record = self.records[k].unwrap();
                        if record.object != identity.object || record.instance != identity.instance
                            || record.previous != expected_version || record.length != length {
                            return Err(Error::IdempotencyConflict);
                        }
                        if record.state != RecordState::DirectCommitted {
                            return Err(Error::OutcomeUnknown);
                        }
                        check_payload(record.extents.as_slice(), record.extents_used, record.length)?;
                        StageMode::Retry { record, matches: true }
                    },
                    None => {
                        self.tracked_target(identity, expected_version)?;
                        self.fresh_mode(length)?
                    },
                }
            },
            Stage7Kind::Admission => {
                match self.open_admission(identity, expected_version, length)? {
                    Opening7::Retry(record) => StageMode::Retry { record, matches: true },
                    Opening7::Fresh(_) => self.fresh_mode(length)?,
                }
            },
        };
        Ok(StageSlot {
            nonce: 0,
            kind,
            identity,
            expected_version,
            length,
            mode,
            written: 0,
            checksum: 0xffff_ffffu32,
        })
    }

    /// A fresh plan for `length` bytes around the map and every reservation.
    fn fresh_mode(&self, length: u32) -> (r: Result<StageMode, Error>)
        requires
            self.wf(),
            length <= MAX_FILE_BYTES,
        ensures
            r matches Ok(m) ==> m matches StageMode::Fresh(plan) && plan.wf() && plan.total() == sectors_for(length as int)
                && plan_clear7(plan, *self),
            r is Err ==> r == Err::<StageMode, Error>(Error::Full),
    {
        let planning = self.planning_map();
        let plan = plan_payload(planning.as_slice(), length as usize)?;
        proof {
            assert forall|s: int| 0 <= s < DATA_SECTORS && #[trigger] covered(plan.runs@, plan.used as int, s)
                implies !bit(self.map@, s) && !reserved7(self.stages@, s) by {
                let k = choose|k: int| 0 <= k < plan.used && #[trigger] plan.runs@[k].start <= s < plan.runs@[k].start + plan.runs@[k].sectors;
                assert(free_run(planning@, plan.runs@[k].start as int, plan.runs@[k].sectors as int));
                assert(!bit(planning@, s));
            }
        }
        Ok(StageMode::Fresh(plan))
    }
}


impl Volume7 {
    /// Open a stage for a file of `length` bytes and return its token.
    ///
    /// Applies the preflight of the borrowed-bytes mutation of `kind` without
    /// I/O. A fresh stage plans its payload around the free sectors and every
    /// other open stage (`Full` when none fit); a matching retained retry
    /// opens a checking stage that reserves nothing. `Busy` when both stages
    /// are open or another stage holds the same retry scope. `owner` is the
    /// identity this owner's tokens carry from its first stage on; the caller
    /// hands out values no other owner uses, and zero is refused as
    /// `Exhausted`.
    pub fn open_stage(&mut self, owner: u64, identity: WriteIdentity7, expected_version: u64, length: u32, kind: Stage7Kind)
        -> (r: Result<Stage7, Error>)
        requires
            old(self).wf(),
        ensures
            final(self).wf(),
            r is Err ==> *final(self) == *old(self),
            old(self).fenced ==> r == Err::<Stage7, Error>(Error::Uncertain),
            !old(self).fenced && first_free7(old(self).stages@) is None ==> r == Err::<Stage7, Error>(Error::Busy),
            !old(self).fenced && first_free7(old(self).stages@) is Some && old(self).stage_nonce == u64::MAX
                ==> r == Err::<Stage7, Error>(Error::Exhausted),
            !old(self).fenced && first_free7(old(self).stages@) is Some && old(self).stage_nonce < u64::MAX ==> {
                let i = first_free7(old(self).stages@)->Some_0;
                let unowned = old(self).stage_owner == 0 && owner == 0;
                match stage_opening7(*old(self), identity, expected_version, length as int, kind) {
                    Err(e) => r == Err::<Stage7, Error>(e),
                    Ok(o) => {
                        &&& r is Err ==> (unowned && r == Err::<Stage7, Error>(Error::Exhausted))
                            || (o is None && r == Err::<Stage7, Error>(Error::Full))
                        &&& o is Some && !unowned ==> r is Ok
                        &&& r matches Ok(t) ==> {
                            let s = final(self).stages@[i]->Some_0;
                            &&& final(self).stages@ == old(self).stages@.update(i, Some(s))
                            &&& opened7(s, kind, identity, expected_version, length)
                            &&& s.nonce == old(self).stage_nonce + 1
                            &&& (o matches Some(rec) ==> s.mode == (StageMode::Retry { record: rec, matches: true }))
                            &&& (o is None ==> (s.mode matches StageMode::Fresh(plan) && plan_clear7(plan, *old(self))))
                            &&& token_slot7(*final(self), t) == Some(i)
                            &&& final(self).stage_nonce == old(self).stage_nonce + 1
                            &&& final(self).stage_owner == if old(self).stage_owner == 0 { owner } else { old(self).stage_owner }
                            &&& final(self).header == old(self).header
                            &&& final(self).nodes == old(self).nodes
                            &&& final(self).records == old(self).records
                            &&& final(self).map == old(self).map
                            &&& final(self).fenced == old(self).fenced
                        }
                    },
                }
            },
    {
        self.ready()?;
        let index: usize = if self.stages[0].is_none() {
            0
        } else if self.stages[1].is_none() {
            1
        } else {
            return Err(Error::Busy);
        };
        if self.stage_nonce == u64::MAX {
            return Err(Error::Exhausted);
        }
        let nonce = self.stage_nonce + 1;
        let mut slot = self.open_slot(identity, expected_version, length, kind)?;
        if self.stage_owner == 0 {
            if owner == 0 {
                return Err(Error::Exhausted);
            }
            self.stage_owner = owner;
        }
        slot.nonce = nonce;
        self.stage_nonce = nonce;
        self.stages[index] = Some(slot);
        proof {
            assert forall|k: int| 0 <= k < STAGES implies (#[trigger] self.stages@[k] matches Some(s) ==> slot_wf(s)) by {
                if k != index {
                    assert(self.stages@[k] == old(self).stages@[k]);
                }
            }
        }
        let slot_number: u8 = if index == 0 { 0 } else { 1 };
        Ok(Stage7 { owner: self.stage_owner, slot: slot_number, nonce })
    }

    /// The open slot `stage` names, or `Invalid` for a stale or foreign token.
    fn stage_index(&self, stage: &Stage7) -> (r: Result<usize, Error>)
        ensures
            match token_slot7(*self, *stage) {
                Some(i) => r == Ok::<usize, Error>(i as usize),
                None => r == Err::<usize, Error>(Error::Invalid),
            },
    {
        let index: usize = if stage.slot == 0 {
            0
        } else if stage.slot == 1 {
            1
        } else {
            return Err(Error::Invalid);
        };
        match &self.stages[index] {
            Some(slot) => {
                if stage.owner == self.stage_owner && slot.nonce == stage.nonce {
                    Ok(index)
                } else {
                    Err(Error::Invalid)
                }
            },
            None => Err(Error::Invalid),
        }
    }

    /// Release an open stage without I/O. Never fences; sectors a fresh stage
    /// already wrote stay free because no metadata names them.
    pub fn abort_stage(&mut self, stage: Stage7) -> (r: Result<(), Error>)
        requires
            old(self).wf(),
        ensures
            final(self).wf(),
            stages_only7(*old(self), *final(self)),
            match token_slot7(*old(self), stage) {
                Some(i) => r is Ok && final(self).stages@ == old(self).stages@.update(i, None),
                None => r == Err::<(), Error>(Error::Invalid) && final(self).stages == old(self).stages,
            },
    {
        let index = self.stage_index(&stage)?;
        self.stages[index] = None;
        proof {
            assert forall|k: int| 0 <= k < STAGES implies (#[trigger] self.stages@[k] matches Some(s) ==> slot_wf(s)) by {
                if k != index {
                    assert(self.stages@[k] == old(self).stages@[k]);
                }
            }
        }
        Ok(())
    }

    /// Remove a complete stage of `kind` so it can be finished. A wrong kind
    /// or an incomplete stage is `Invalid` and stays open.
    pub(crate) fn take_finishable(&mut self, stage: &Stage7, kind: Stage7Kind) -> (r: Result<StageSlot, Error>)
        requires
            old(self).wf(),
        ensures
            final(self).wf(),
            stages_only7(*old(self), *final(self)),
            r is Err ==> r == Err::<StageSlot, Error>(Error::Invalid) && final(self).stages == old(self).stages,
            r is Ok <==> finishable7(*old(self), *stage, kind),
            r matches Ok(s) ==> {
                let i = token_slot7(*old(self), *stage)->Some_0;
                &&& s == old(self).stages@[i]->Some_0
                &&& slot_wf(s)
                &&& final(self).stages@ == old(self).stages@.update(i, None)
            },
    {
        let index = self.stage_index(stage)?;
        let slot = self.stages[index].unwrap();
        if slot.kind != kind || !slot.complete() {
            return Err(Error::Invalid);
        }
        self.stages[index] = None;
        proof {
            assert(slot_wf(old(self).stages@[index as int]->Some_0));
            assert forall|k: int| 0 <= k < STAGES implies (#[trigger] self.stages@[k] matches Some(s) ==> slot_wf(s)) by {
                if k != index {
                    assert(self.stages@[k] == old(self).stages@[k]);
                }
            }
        }
        Ok(slot)
    }
}


/// The sector a supplied chunk is written as: the bytes, then zeros.
pub open spec fn sector_image7(bytes: Seq<u8>) -> Seq<u8> {
    Seq::new(512, |p: int| padded_at(bytes, p))
}

/// The bytes a retry stage's snapshot holds at `[from, from + n)`.
pub open spec fn snapshot_part7(c: Map<u64, Seq<u8>>, record: Record7, from: int, n: int) -> Seq<u8> {
    content7(c, record.extents@.take(record.extents_used as int), record.length as int).subrange(from, from + n)
}

impl Volume7 {
    /// Supply the next sector of a staged file and return the bytes still
    /// expected.
    ///
    /// `bytes` must hold exactly the smaller of a sector and what remains,
    /// else `Invalid` with the stage unchanged. A fresh stage writes the
    /// chunk, zero padded, to its next planned sector; a failed write fences
    /// and clears the owner with `Uncertain`. A retry stage reads the stored
    /// sector, folds the stored bytes into its checksum and notes any
    /// difference without stopping; a failed read ends the stage with the
    /// device's error and no fence.
    pub fn stage_write<D: Disk>(&mut self, disk: &mut D, stage: &mut Stage7, bytes: &[u8]) -> (r: Result<u32, Error>)
        requires
            old(self).wf(),
        ensures
            final(self).wf(),
            *final(stage) == *old(stage),
            old(self).fenced ==> r == Err::<u32, Error>(Error::Uncertain) && *final(self) == *old(self)
                && final(disk).contents() == old(disk).contents() && final(disk).requests() == old(disk).requests(),
            !old(self).fenced && token_slot7(*old(self), *old(stage)) is None ==> r == Err::<u32, Error>(Error::Invalid)
                && *final(self) == *old(self) && final(disk).contents() == old(disk).contents() && final(disk).requests() == old(disk).requests(),
            !old(self).fenced && token_slot7(*old(self), *old(stage)) is Some ==> {
                let i = token_slot7(*old(self), *old(stage))->Some_0;
                let s = old(self).stages@[i]->Some_0;
                let n = bytes@.len() as int;
                if !(s.written < s.length && n == least(512, s.length - s.written)) {
                    r == Err::<u32, Error>(Error::Invalid) && *final(self) == *old(self) && final(disk).contents() == old(disk).contents()
                         && final(disk).requests() == old(disk).requests()
                } else {
                    match s.mode {
                        StageMode::Fresh(plan) => match sector_of(plan.runs@.take(plan.used as int), (s.written / 512) as int) {
                            None => r == Err::<u32, Error>(Error::Corrupt) && stages_only7(*old(self), *final(self))
                                && final(self).stages@ == old(self).stages@.update(i, None) && final(disk).contents() == old(disk).contents(),
                            Some(x) => {
                                &&& r matches Ok(rest) ==> {
                                    &&& rest == s.length - s.written - n
                                    &&& stages_only7(*old(self), *final(self))
                                    &&& final(self).stages@ == old(self).stages@.update(i, Some(StageSlot {
                                        written: (s.written + n) as u32,
                                        checksum: crc_fold(s.checksum, bytes@),
                                        ..s
                                    }))
                                    &&& final(disk).contents() == old(disk).contents().insert((PAYLOAD_SECTOR + x) as u64, sector_image7(bytes@))
                                }
                                &&& r is Err ==> r == Err::<u32, Error>(Error::Uncertain) && cleared7(*final(self))
                            },
                        },
                        StageMode::Retry { record, matches } => {
                            let stored = snapshot_part7(old(disk).contents(), record, s.written as int, n);
                            &&& final(disk).contents() == old(disk).contents()
                            &&& stages_only7(*old(self), *final(self))
                            &&& r matches Ok(rest) ==> rest == s.length - s.written - n
                                && final(self).stages@ == old(self).stages@.update(i, Some(StageSlot {
                                    written: (s.written + n) as u32,
                                    checksum: crc_fold(s.checksum, stored),
                                    mode: StageMode::Retry { record, matches: matches && stored == bytes@ },
                                    ..s
                                }))
                            &&& r is Err ==> final(self).stages@ == old(self).stages@.update(i, None)
                        },
                    }
                }
            },
    {
        self.ready()?;
        let index = self.stage_index(stage)?;
        let slot = self.stages[index].unwrap();
        proof {
            assert(slot_wf(slot));
        }
        if slot.written >= slot.length {
            return Err(Error::Invalid);
        }
        let remaining = slot.length - slot.written;
        let want: usize = if remaining < 512 { remaining as usize } else { 512 };
        if bytes.len() != want {
            return Err(Error::Invalid);
        }
        let n = want as u32;
        match slot.mode {
            StageMode::Fresh(plan) => {
                proof {
                    assert forall|k: int| 0 <= k < plan.runs@.take(plan.used as int).len()
                        implies #[trigger] plan.runs@.take(plan.used as int)[k].start + plan.runs@.take(plan.used as int)[k].sectors <= DATA_SECTORS by {
                        assert(plan.runs@.take(plan.used as int)[k] == plan.runs@[k]);
                    }
                }
                let sector = match nth_sector(plan.runs(), (slot.written / 512) as u64) {
                    Some(x) => x,
                    None => {
                        self.stages[index] = None;
                        return Err(Error::Corrupt);
                    },
                };
                proof {
                    lemma_sector_bounded(plan.runs@.take(plan.used as int), (slot.written / 512) as int);
                }
                let mut block = [0u8; 512];
                let ghost zeros = block@;
                put(&mut block, 0, bytes);
                assert(block@ =~= sector_image7(bytes@));
                if disk.write(PAYLOAD_SECTOR + sector, &block).is_err() {
                    self.clear();
                    self.fenced = true;
                    return Err(Error::Uncertain);
                }
                let mut checksum = slot.checksum;
                crc_update(&mut checksum, bytes);
                self.stages[index] = Some(StageSlot { written: slot.written + n, checksum, ..slot });
                proof {
                    assert forall|k: int| 0 <= k < STAGES implies (#[trigger] self.stages@[k] matches Some(t) ==> slot_wf(t)) by {
                        if k != index {
                            assert(self.stages@[k] == old(self).stages@[k]);
                        }
                    }
                }
                Ok(slot.length - slot.written - n)
            },
            StageMode::Retry { record, matches } => {
                proof {
                    assert forall|k: int| 0 <= k < EXTENTS_PER_FILE implies #[trigger] record.extents@[k].start + record.extents@[k].sectors <= DATA_SECTORS by {
                        if k < record.extents_used {
                            assert(crate::format7::run_live(record.extents@[k]));
                        } else {
                            assert(crate::format7::is_zero_run(record.extents@[k]));
                        }
                    }
                }
                let ghost c = disk.contents();
                let mut block = [0u8; 512];
                let count = match read_runs(disk, PAYLOAD_SECTOR, &record.extents, record.extents_used as usize, record.length as u64, slot.written as u64, &mut block) {
                    Ok(count) => count,
                    Err(e) => {
                        self.stages[index] = None;
                        return Err(e);
                    },
                };
                let part = vstd::slice::slice_subrange(block.as_slice(), 0, count);
                assert(part@ =~= snapshot_part7(c, record, slot.written as int, n as int));
                let same = slices_equal(part, bytes);
                let mut checksum = slot.checksum;
                crc_update(&mut checksum, part);
                self.stages[index] = Some(StageSlot {
                    written: slot.written + n,
                    checksum,
                    mode: StageMode::Retry { record, matches: matches && same },
                    ..slot
                });
                proof {
                    assert forall|k: int| 0 <= k < STAGES implies (#[trigger] self.stages@[k] matches Some(t) ==> slot_wf(t)) by {
                        if k != index {
                            assert(self.stages@[k] == old(self).stages@[k]);
                        }
                    }
                }
                Ok(slot.length - slot.written - n)
            },
        }
    }
}


/// Whether every run of `plan` is still free in `map`.
pub fn plan_still_free(map: &[u64], plan: &PayloadPlan) -> (r: bool)
    requires
        map@.len() == MAP_WORDS,
        plan.wf(),
    ensures
        r == plan_free(*plan, map@),
{
    let mut k: usize = 0;
    while k < plan.used
        invariant
            map@.len() == MAP_WORDS,
            plan.wf(),
            0 <= k <= plan.used,
            forall|j: int| 0 <= j < k ==> free_run(map@, (#[trigger] plan.runs@[j]).start as int, plan.runs@[j].sectors as int),
        decreases plan.used - k,
    {
        let run = plan.runs[k];
        let end = run.start + run.sectors;
        let mut sector = run.start;
        while sector < end
            invariant
                map@.len() == MAP_WORDS,
                plan.wf(),
                0 <= k < plan.used,
                run == plan.runs@[k as int],
                run.start <= sector <= end <= DATA_SECTORS,
                end == run.start + run.sectors,
                forall|t: int| run.start <= t < sector ==> !bit(map@, t),
            decreases end - sector,
        {
            if crate::volume7::payload::allocated(map, sector) {
                assert(!free_run(map@, plan.runs@[k as int].start as int, plan.runs@[k as int].sectors as int));
                return false;
            }
            sector = sector + 1;
        }
        assert(free_run(map@, plan.runs@[k as int].start as int, plan.runs@[k as int].sectors as int));
        k = k + 1;
    }
    true
}

} // verus!
