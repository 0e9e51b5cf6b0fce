//! Durable admission of a replacement, its explicit execution and its
//! cancellation, each prepared as a pollable publication.
use vstd::prelude::*;
use crate::admission::PreventionReason;
use crate::checksum::{crc, spec_crc};
use crate::codec::zero_runs;
use crate::extent::{Extent, DATA_SECTORS};
use crate::format7::{Header7, NODES, Node7, RETAINED, Record7, RecordState, MAX_FILE_BYTES, MAX_EXTENTS, check_payload, payload_ok};
use crate::namespace::Kind;
use crate::volume6::{PayloadPlan, sectors_for};
use crate::volume7::{Volume7, WriteIdentity7, find7, lemma_find7, live7};
use crate::volume7::namespace::{retained_owns7, retained_owns_run};
use crate::volume7::payload::{plan_payload, plan_free, greedy7};
use crate::volume7::poll::{
    cand_nodes7, cand_records7, Candidate7, PollPublication7, Publication7Phase, Step7, validate_candidate, candidate_valid7, candidate_shaped7,
    map_delta, added7, released7, runs_bounded,
};
use crate::volume7::replacement::{retry_scope7, find_retry7, free_slot7, identity_ok7};
use crate::format7::validation::holds7;
use crate::extent::bit;
use crate::format7::record::record7_local_ok;
use crate::volume7::stage::{Stage7, Stage7Kind, StageMode, StageSlot, slot_wf, token_slot7, finishable7, plan_still_free, stages_only7, planned7, lemma_planned_unique};
use crate::Error;

verus! {

/// Record `r` answers exactly `id`'s request on version `expected`.
pub open spec fn same_identity7(r: Record7, id: WriteIdentity7, expected: u64) -> bool {
    &&& r.object == id.object
    &&& r.instance == id.instance
    &&& r.previous == expected
    &&& retry_scope7(r, id)
}

/// The retained slot holding `id`'s retry scope; a miss in another epoch is
/// `ExpiredEpoch`, in this one `OutcomeUnknown`.
pub open spec fn spec_lookup7(v: Volume7, id: WriteIdentity7) -> Result<int, Error> {
    match find_retry7(v.records@, id, 0) {
        Some(k) => Ok(k),
        None => if id.retry_epoch != v.header.epoch {
            Err(Error::ExpiredEpoch)
        } else {
            Err(Error::OutcomeUnknown)
        },
    }
}

/// The retained slot and admission number a fresh admission of `id` on
/// version `expected` would take, or what refuses it.
pub open spec fn admission_target7(v: Volume7, id: WriteIdentity7, expected: u64) -> Result<(int, u64), Error> {
    if id.retry_epoch != v.header.epoch {
        Err(Error::ExpiredEpoch)
    } else if find7(v.nodes@, id.object, 0) is None {
        Err(Error::NotFound)
    } else if v.nodes@[find7(v.nodes@, id.object, 0)->Some_0].kind != Kind::File {
        Err(Error::IsDirectory)
    } else if v.nodes@[find7(v.nodes@, id.object, 0)->Some_0].version != expected {
        Err(Error::Version)
    } else if crate::volume7::replacement::slots_short7(v) {
        Err(Error::Full)
    } else if v.header.sequence == u64::MAX {
        Err(Error::Exhausted)
    } else if id.instance > v.header.sequence + 1 {
        Err(Error::Invalid)
    } else {
        Ok((free_slot7(v.records@, 0)->Some_0, (v.header.sequence + 1) as u64))
    }
}

/// The admitted record for `id` on version `expected`: the caller's length
/// and checksum, admission number `number`, and the planned runs (the zero
/// runs for an empty file).
pub open spec fn admitted_record7(id: WriteIdentity7, expected: u64, length: u32, checksum: u32, number: u64, plan: PayloadPlan) -> Record7 {
    Record7 {
        subject: id.subject,
        workspace: id.workspace,
        object: id.object,
        instance: id.instance,
        retry_epoch: id.retry_epoch,
        retry_key: id.retry_key,
        previous: expected,
        committed: 0,
        admission_number: number,
        terminal: 0,
        length,
        payload_crc32: checksum,
        state: RecordState::Admitted,
        prevention: None,
        extents_used: plan.used as u8,
        extents: if plan.used == 0 { zero_runs() } else { plan.runs },
    }
}

/// `v` with the fence up and nothing else changed.
pub open spec fn fenced7(v: Volume7) -> Volume7 {
    Volume7 { fenced: true, ..v }
}

/// Whether `r` answers exactly `id`'s request.
fn same_record_identity(record: &Record7, identity: WriteIdentity7, expected_version: u64) -> (r: bool)
    ensures
        r == same_identity7(*record, identity, expected_version),
{
    record.object == identity.object && record.instance == identity.instance && record.previous == expected_version
        && record.subject == identity.subject && record.workspace == identity.workspace
        && record.retry_epoch == identity.retry_epoch && record.retry_key == identity.retry_key
}

impl Volume7 {
    /// The retained slot and record holding `identity`'s retry scope.
    fn lookup_record(&self, identity: WriteIdentity7) -> (r: Result<(usize, Record7), Error>)
        ensures
            match spec_lookup7(*self, identity) {
                Ok(k) => r == Ok::<(usize, Record7), Error>((k as usize, self.records@[k]->Some_0)) && 0 <= k < RETAINED && self.records@[k] is Some,
                Err(e) => r == Err::<(usize, Record7), Error>(e),
            },
    {
        match self.find_retry(identity) {
            Some(k) => {
                let record = self.records[k].unwrap();
                Ok((k, record))
            },
            None => {
                if identity.retry_epoch != self.header.epoch {
                    Err(Error::ExpiredEpoch)
                } else {
                    Err(Error::OutcomeUnknown)
                }
            },
        }
    }

    /// The retained slot and admission number a fresh admission would use.
    pub(crate) fn admission_target(&self, identity: WriteIdentity7, expected_version: u64) -> (r: Result<(usize, u64), Error>)
        ensures
            match admission_target7(*self, identity, expected_version) {
                Ok(t) => r == Ok::<(usize, u64), Error>((t.0 as usize, t.1)) && 0 <= t.0 < RETAINED,
                Err(e) => r == Err::<(usize, u64), Error>(e),
            },
    {
        if identity.retry_epoch != self.header.epoch {
            return Err(Error::ExpiredEpoch);
        }
        proof {
            lemma_find7(self.nodes@, identity.object, 0);
        }
        let index = match self.position(identity.object) {
            Some(i) => i,
            None => {
                return Err(Error::NotFound);
            },
        };
        let node = self.nodes[index];
        if node.kind != Kind::File {
            return Err(Error::IsDirectory);
        }
        if node.version != expected_version {
            return Err(Error::Version);
        }
        if self.receipts_short() {
            return Err(Error::Full);
        }
        let slot = match self.free_record_slot() {
            Some(k) => k,
            None => {
                proof {
                    crate::volume7::replacement::lemma_free_slot_exists(self.records@);
                }
                return Err(Error::Full);
            },
        };
        let number = match self.header.sequence.checked_add(1) {
            Some(n) => n,
            None => {
                return Err(Error::Exhausted);
            },
        };
        if identity.instance > number {
            return Err(Error::Invalid);
        }
        Ok((slot, number))
    }
}


/// `b` decodes to the same generation as `a`: header, records, retained
/// slots and map; the fence and the validator's scratch may differ.
pub open spec fn kept7(a: Volume7, b: Volume7) -> bool {
    &&& a.header == b.header
    &&& a.nodes@ == b.nodes@
    &&& a.records@ == b.records@
    &&& a.map@ == b.map@
    &&& a.recovered_from_header == b.recovered_from_header
}

/// A candidate that only rewrites retained slot `k` with `record`.
pub open spec fn record_only7(c: Candidate7, k: int, record: Record7) -> bool {
    &&& c.record_slot == k
    &&& c.record == record
    &&& c.node_update is None
    &&& c.added.used == 0
    &&& c.released_used == 0
}

/// A publication that answers `record` again without touching the device.
pub open spec fn replays7(p: PollPublication7, record: Record7) -> bool {
    &&& p.wf()
    &&& p.spec_phase() == Publication7Phase::Committed
    &&& p.spec_result() == Some(record)
    &&& p.spec_step() == Step7::Done
}

/// A publication of candidate `c` starting at step `step`, with caller
/// bytes of length `bytes_len` if any.
pub open spec fn publishes7(p: PollPublication7, c: Candidate7, step: Step7, bytes_len: Option<usize>) -> bool {
    &&& p.wf()
    &&& p.spec_candidate() == Some(c)
    &&& p.spec_step() == step
    &&& p.spec_phase() == Publication7Phase::Preparing
    &&& p.spec_bytes_len() == bytes_len
    &&& !p.spec_pending()
    &&& !p.spec_stopping()
    &&& !p.spec_prepared()
    &&& p.spec_sums() == (0xffff_ffffu32, 0xffff_ffffu32, 0xffff_ffffu32)
}

/// The record a cancellation of `rec` publishes at terminal sequence
/// `terminal` with cause `prevention`.
pub open spec fn cancelled_record7(rec: Record7, terminal: u64, prevention: PreventionReason) -> Record7 {
    Record7 { committed: 0, terminal, state: RecordState::Cancelled, prevention: Some(prevention), ..rec }
}

/// What preparing a cancellation decides before any candidate is validated:
/// the retained slot and its record, and whether the record is only answered
/// again (an exact earlier cancellation or a commit).
pub open spec fn cancellation7(v: Volume7, id: WriteIdentity7, expected: u64, prevention: PreventionReason) -> Result<(int, Record7, bool), Error> {
    if v.fenced {
        Err(Error::Uncertain)
    } else if !identity_ok7(id, v.header) {
        Err(Error::Invalid)
    } else {
        match spec_lookup7(v, id) {
            Err(e) => Err(e),
            Ok(k) => {
                let rec = v.records@[k]->Some_0;
                if !same_identity7(rec, id, expected) {
                    Err(Error::IdempotencyConflict)
                } else if rec.state == RecordState::Cancelled {
                    if rec.prevention != Some(prevention) {
                        Err(Error::IdempotencyConflict)
                    } else {
                        Ok((k, rec, true))
                    }
                } else if rec.state == RecordState::AdmittedCommitted || rec.state == RecordState::DirectCommitted {
                    Ok((k, rec, true))
                } else if v.header.sequence == u64::MAX {
                    Err(Error::Exhausted)
                } else {
                    Ok((k, rec, false))
                }
            },
        }
    }
}

/// A candidate with no runs leaves the map it is validated on as it was.
proof fn lemma_runless_restores(old_map: Seq<u64>, new_map: Seq<u64>, c: Candidate7)
    requires
        old_map.len() == crate::extent::MAP_WORDS,
        new_map.len() == crate::extent::MAP_WORDS,
        c.added.used == 0,
        c.released_used == 0,
        forall|s: int| 0 <= s < DATA_SECTORS ==> #[trigger] bit(new_map, s)
            == ((bit(old_map, s) || holds7(released7(c), s)) && !holds7(added7(c), s)),
    ensures
        new_map == old_map,
        map_delta(old_map, old_map, added7(c), released7(c)),
{
    assert(added7(c).len() == 0);
    assert(released7(c).len() == 0);
    assert forall|s: int| 0 <= s < DATA_SECTORS implies #[trigger] bit(new_map, s) == bit(old_map, s) by {
        assert(!holds7(added7(c), s));
        assert(!holds7(released7(c), s));
    }
    crate::extent::lemma_words_from_bits(new_map, old_map);
}

impl Volume7 {
    /// Prepare a durable, no-effect terminal cancellation of an admission with
    /// its supplied cause. The live record and every run stay as they are. An
    /// exact earlier cancellation is answered again, a different cause is a
    /// conflict, and a committed record is answered as it is, so the caller
    /// sees that cancellation came too late.
    pub fn prepare_cancellation(&mut self, identity: WriteIdentity7, expected_version: u64, prevention: PreventionReason)
        -> (r: Result<PollPublication7, Error>)
        requires
            old(self).wf(),
        ensures
            final(self).wf(),
            match cancellation7(*old(self), identity, expected_version, prevention) {
                Err(e) => r == Err::<PollPublication7, Error>(e) && kept7(*old(self), *final(self)) && final(self).fenced == old(self).fenced,
                Ok((k, rec, true)) => (r matches Ok(p) && replays7(p, rec)) && kept7(*old(self), *final(self)) && final(self).fenced == old(self).fenced,
                Ok((k, rec, false)) => {
                    let record = cancelled_record7(rec, (old(self).header.sequence + 1) as u64, prevention);
                    &&& kept7(*old(self), *final(self))
                    &&& r matches Ok(p) ==> (p.spec_candidate() matches Some(c) && record_only7(c, k, record)
                        && candidate_valid7(*old(self), c, old(self).map@) && publishes7(p, c, Step7::NodesWrite(0), None) && final(self).fenced)
                    &&& r is Err ==> final(self).fenced == old(self).fenced
                        && forall|c: Candidate7| #[trigger] record_only7(c, k, record) ==> !candidate_valid7(*old(self), c, old(self).map@)
                },
            },
    {
        self.ready()?;
        self.validate_identity(identity)?;
        let (slot, record) = self.lookup_record(identity)?;
        if !same_record_identity(&record, identity, expected_version) {
            return Err(Error::IdempotencyConflict);
        }
        match record.state {
            RecordState::Cancelled => {
                if record.prevention != Some(prevention) {
                    return Err(Error::IdempotencyConflict);
                }
                return Ok(PollPublication7::replay(record));
            },
            RecordState::AdmittedCommitted | RecordState::DirectCommitted => {
                return Ok(PollPublication7::replay(record));
            },
            RecordState::Admitted => {},
        }
        let terminal = match self.header.sequence.checked_add(1) {
            Some(t) => t,
            None => {
                return Err(Error::Exhausted);
            },
        };
        let mut cancelled = record;
        cancelled.committed = 0;
        cancelled.terminal = terminal;
        cancelled.state = RecordState::Cancelled;
        cancelled.prevention = Some(prevention);
        proof {
            assert(spec_lookup7(*self, identity) is Ok);
            assert(slot < RETAINED);
            assert(self.records@[slot as int] == Some(record));
            assert(self.records@[slot as int] matches Some(r) ==> r.extents_used <= 8);
        }
        let candidate = Candidate7::empty(slot, cancelled);
        let ghost before = *self;
        let checked = validate_candidate(self, candidate);
        proof {
            if record7_local_ok(cancelled) && before.header.sequence < u64::MAX {
                lemma_runless_restores(before.map@, self.map@, candidate);
            }
        }
        checked?;
        let publication = PollPublication7::publish(self, candidate, None);
        proof {
            assert(cancellation7(before, identity, expected_version, prevention) == Ok::<(int, Record7, bool), Error>((slot as int, record, false)));
            assert(cancelled == cancelled_record7(record, (before.header.sequence + 1) as u64, prevention));
            assert(record_only7(candidate, slot as int, cancelled));
            assert(map_delta(before.map@, before.map@, added7(candidate), released7(candidate)));
            assert(candidate_valid7(before, candidate, before.map@));
            assert(publishes7(publication, candidate, Step7::NodesWrite(0), None));
            assert(kept7(before, *self));
        }
        Ok(publication)
    }
}


/// Runs no retained record still shares.
pub open spec fn not_retained7(records: Seq<Option<Record7>>) -> spec_fn(Extent) -> bool {
    |run: Extent| !retained_owns7(records, run)
}

/// The runs of `n` that executing over it frees: those no retained record
/// still shares, in order.
pub open spec fn freed_runs7(n: Node7, records: Seq<Option<Record7>>) -> Seq<Extent> {
    n.extents@.take(n.extents_used as int).filter(not_retained7(records))
}

/// The record an execution of admitted `rec` publishes after sequence `seq`.
pub open spec fn committed_record7(rec: Record7, seq: u64) -> Record7 {
    Record7 { committed: (seq + 1) as u64, terminal: (seq + 1) as u64, state: RecordState::AdmittedCommitted, ..rec }
}

/// The live record an execution of `rec` over `n` publishes after sequence
/// `seq`: the admitted payload at the next version.
pub open spec fn executed_node7(n: Node7, rec: Record7, seq: u64) -> Node7 {
    Node7 {
        version: (seq + 1) as u64,
        length: rec.length,
        payload_crc32: rec.payload_crc32,
        extents_used: rec.extents_used,
        extents: rec.extents,
        ..n
    }
}

/// What preparing an execution decides before any candidate is validated:
/// the retained slot and its record, and whether the record is only answered
/// again (an earlier execution).
pub open spec fn execution7(v: Volume7, id: WriteIdentity7, expected: u64) -> Result<(int, Record7, bool), Error> {
    if v.fenced {
        Err(Error::Uncertain)
    } else if !identity_ok7(id, v.header) {
        Err(Error::Invalid)
    } else {
        match spec_lookup7(v, id) {
            Err(e) => Err(e),
            Ok(k) => {
                let rec = v.records@[k]->Some_0;
                let found = find7(v.nodes@, id.object, 0);
                if !same_identity7(rec, id, expected) {
                    Err(Error::IdempotencyConflict)
                } else if rec.state == RecordState::Cancelled {
                    Err(Error::Cancelled)
                } else if rec.state == RecordState::DirectCommitted {
                    Err(Error::IdempotencyConflict)
                } else if rec.state == RecordState::AdmittedCommitted {
                    Ok((k, rec, true))
                } else if found is None {
                    Err(Error::NotFound)
                } else if v.nodes@[found->Some_0].kind != Kind::File {
                    Err(Error::IsDirectory)
                } else if v.nodes@[found->Some_0].version != rec.previous {
                    Err(Error::Version)
                } else if v.header.sequence == u64::MAX {
                    Err(Error::Exhausted)
                } else if !payload_ok(v.nodes@[found->Some_0].extents@, v.nodes@[found->Some_0].extents_used as int,
                    v.nodes@[found->Some_0].length as int) {
                    Err(Error::Corrupt)
                } else {
                    Ok((k, rec, false))
                }
            },
        }
    }
}

/// The candidate an execution of `rec` in slot `k` over live slot `index`
/// holding `n` publishes after sequence `seq`, with retained slots `records`.
pub open spec fn execution_candidate7(c: Candidate7, k: int, rec: Record7, index: int, n: Node7, records: Seq<Option<Record7>>, seq: u64) -> bool {
    &&& c.record_slot == k
    &&& c.record == committed_record7(rec, seq)
    &&& c.node_update == Some((index as usize, executed_node7(n, rec, seq)))
    &&& c.added.used == 0
    &&& released7(c) == freed_runs7(n, records)
}

impl Volume7 {
    /// Prepare the explicit execution of a durable admission: the admitted
    /// payload becomes the file's next version, and the runs of the old
    /// version that no retained record shares are released. The file and its
    /// version are checked again first; a version conflict leaves the
    /// admission intact so it can be cancelled durably instead. An executed
    /// admission is answered again; a cancelled one is `Cancelled`.
    pub fn prepare_execute(&mut self, identity: WriteIdentity7, expected_version: u64) -> (r: Result<PollPublication7, Error>)
        requires
            old(self).wf(),
        ensures
            final(self).wf(),
            match execution7(*old(self), identity, expected_version) {
                Err(e) => r == Err::<PollPublication7, Error>(e) && kept7(*old(self), *final(self)) && final(self).fenced == old(self).fenced,
                Ok((k, rec, true)) => (r matches Ok(p) && replays7(p, rec)) && kept7(*old(self), *final(self)) && final(self).fenced == old(self).fenced,
                Ok((k, rec, false)) => {
                    let index = find7(old(self).nodes@, identity.object, 0)->Some_0;
                    let n = old(self).nodes@[index];
                    let seq = old(self).header.sequence;
                    &&& final(self).header == old(self).header
                    &&& final(self).nodes@ == old(self).nodes@
                    &&& final(self).records@ == old(self).records@
                    &&& final(self).recovered_from_header == old(self).recovered_from_header
                    &&& forall|s: int| 0 <= s < DATA_SECTORS ==> #[trigger] bit(final(self).map@, s)
                        == (bit(old(self).map@, s) || (holds7(freed_runs7(n, old(self).records@), s) && record7_local_ok(committed_record7(rec, seq))))
                    &&& r matches Ok(p) ==> (p.spec_candidate() matches Some(c)
                        && execution_candidate7(c, k, rec, index, n, old(self).records@, seq)
                        && (forall|m: Seq<u64>| #[trigger] map_delta(old(self).map@, m, added7(c), released7(c)) ==> candidate_valid7(*old(self), c, m))
                        && publishes7(p, c, Step7::NodesWrite(0), None) && final(self).fenced)
                    &&& r is Err ==> final(self).fenced == old(self).fenced && (forall|c: Candidate7, m: Seq<u64>|
                        #[trigger] execution_candidate7(c, k, rec, index, n, old(self).records@, seq)
                        && #[trigger] map_delta(old(self).map@, m, added7(c), released7(c)) ==> !candidate_valid7(*old(self), c, m))
                },
            },
    {
        self.ready()?;
        self.validate_identity(identity)?;
        let (slot, record) = self.lookup_record(identity)?;
        if !same_record_identity(&record, identity, expected_version) {
            return Err(Error::IdempotencyConflict);
        }
        match record.state {
            RecordState::Cancelled => {
                return Err(Error::Cancelled);
            },
            RecordState::DirectCommitted => {
                return Err(Error::IdempotencyConflict);
            },
            RecordState::AdmittedCommitted => {
                return Ok(PollPublication7::replay(record));
            },
            RecordState::Admitted => {},
        }
        proof {
            lemma_find7(self.nodes@, identity.object, 0);
        }
        let index = match self.position(identity.object) {
            Some(i) => i,
            None => {
                return Err(Error::NotFound);
            },
        };
        let old_node = self.nodes[index];
        if old_node.kind != Kind::File {
            return Err(Error::IsDirectory);
        }
        if old_node.version != record.previous {
            return Err(Error::Version);
        }
        let committed = match self.header.sequence.checked_add(1) {
            Some(c) => c,
            None => {
                return Err(Error::Exhausted);
            },
        };
        check_payload(old_node.extents.as_slice(), old_node.extents_used, old_node.length)?;
        let mut committed_record = record;
        committed_record.committed = committed;
        committed_record.terminal = committed;
        committed_record.state = RecordState::AdmittedCommitted;
        let mut next_node = old_node;
        next_node.version = committed;
        next_node.length = record.length;
        next_node.payload_crc32 = record.payload_crc32;
        next_node.extents_used = record.extents_used;
        next_node.extents = record.extents;
        proof {
            assert(spec_lookup7(*self, identity) is Ok);
            assert(self.records@[slot as int] == Some(record));
            assert(self.records@[slot as int] matches Some(r) ==> r.extents_used <= 8);
            assert(self.nodes@[index as int].name_length <= 32);
        }
        let mut candidate = Candidate7::empty(slot, committed_record);
        candidate.node_update = Some((index, next_node));
        let ghost pred = not_retained7(self.records@);
        let ghost old_runs = old_node.extents@.take(old_node.extents_used as int);
        let mut j: usize = 0;
        while j < old_node.extents_used as usize
            invariant
                0 <= j <= old_node.extents_used,
                old_node.extents_used <= 8,
                payload_ok(old_node.extents@, old_node.extents_used as int, old_node.length as int),
                candidate.released_used <= j,
                old_runs == old_node.extents@.take(old_node.extents_used as int),
                pred == not_retained7(self.records@),
                candidate.released@.take(candidate.released_used as int) == old_node.extents@.take(j as int).filter(pred),
                forall|k: int| 0 <= k < RETAINED ==> (#[trigger] self.records@[k] matches Some(r) ==> r.extents_used <= 8),
                candidate.record_slot == slot,
                candidate.record == committed_record,
                candidate.node_update == Some((index, next_node)),
                candidate.added.used == 0,
            decreases old_node.extents_used - j,
        {
            let run = old_node.extents[j];
            let ghost before = old_node.extents@.take(j as int);
            let ghost after = old_node.extents@.take(j + 1);
            proof {
                assert(after.drop_last() =~= before);
                assert(after.last() == run);
                reveal(Seq::filter);
                assert(after.filter(pred) == if pred(run) { before.filter(pred).push(run) } else { before.filter(pred) });
            }
            if !retained_owns_run(&self.records, run) {
                let ghost kept = candidate.released@.take(candidate.released_used as int);
                candidate.released[candidate.released_used] = run;
                candidate.released_used = candidate.released_used + 1;
                proof {
                    assert(candidate.released@.take(candidate.released_used as int) =~= kept.push(run));
                }
            }
            j = j + 1;
        }
        proof {
            assert(old_node.extents@.take(old_node.extents_used as int) == old_runs);
            assert(released7(candidate) == freed_runs7(old_node, self.records@));
            assert forall|k: int| 0 <= k < released7(candidate).len() implies #[trigger] released7(candidate)[k].start + released7(candidate)[k].sectors <= DATA_SECTORS by {
                let x = released7(candidate)[k];
                assert(old_runs.filter(pred)[k] == x);
                assert(old_runs.filter(pred).contains(x));
                old_runs.lemma_filter_contains_rev(pred, x);
                let q = choose|q: int| 0 <= q < old_runs.len() && old_runs[q] == x;
                assert(old_runs[q] == old_node.extents@[q]);
                assert(crate::format7::run_live(old_node.extents@[q]));
            }
            assert(candidate_shaped7(candidate));
        }
        let ghost before = *self;
        let checked = validate_candidate(self, candidate);
        proof {
            assert(execution7(before, identity, expected_version) == Ok::<(int, Record7, bool), Error>((slot as int, record, false)));
            assert(committed_record == committed_record7(record, before.header.sequence));
            assert(next_node == executed_node7(old_node, record, before.header.sequence));
            assert(execution_candidate7(candidate, slot as int, record, index as int, old_node, before.records@, before.header.sequence));
            assert(added7(candidate).len() == 0);
            assert forall|s: int| 0 <= s < DATA_SECTORS implies #[trigger] bit(self.map@, s)
                == (bit(before.map@, s) || (holds7(freed_runs7(old_node, before.records@), s) && record7_local_ok(committed_record7(record, before.header.sequence)))) by {
                assert(!holds7(added7(candidate), s));
            }
            assert forall|c: Candidate7, m: Seq<u64>|
                #[trigger] execution_candidate7(c, slot as int, record, index as int, old_node, before.records@, before.header.sequence)
                && #[trigger] map_delta(before.map@, m, added7(c), released7(c))
                implies (checked is Ok <==> candidate_valid7(before, c, m)) by {
                assert(added7(c) =~= added7(candidate));
                assert(cand_nodes7(before.nodes@, c) == cand_nodes7(before.nodes@, candidate));
                assert(cand_records7(before.records@, c) == cand_records7(before.records@, candidate));
                assert(map_delta(before.map@, m, added7(candidate), released7(candidate)));
            }
        }
        checked?;
        let publication = PollPublication7::publish(self, candidate, None);
        proof {
            assert(publishes7(publication, candidate, Step7::NodesWrite(0), None));
        }
        Ok(publication)
    }
}


/// Record `r` answers `id`'s request on version `expected` for `length` bytes.
pub open spec fn same_request7(r: Record7, id: WriteIdentity7, expected: u64, length: int) -> bool {
    same_identity7(r, id, expected) && r.length == length
}

/// What preparing an admission of `length` bytes decides before any payload
/// is planned: a retained exact retry to verify (its slot), or a fresh
/// admission (`None`) whose target is free.
pub open spec fn admission_opening7(v: Volume7, id: WriteIdentity7, expected: u64, length: int) -> Result<Option<int>, Error> {
    if v.fenced {
        Err(Error::Uncertain)
    } else if length > MAX_FILE_BYTES {
        Err(Error::Size)
    } else if !identity_ok7(id, v.header) {
        Err(Error::Invalid)
    } else if crate::volume7::stage::stage_scope7(v.stages@, id) {
        Err(Error::Busy)
    } else {
        match find_retry7(v.records@, id, 0) {
            Some(k) => {
                let rec = v.records@[k]->Some_0;
                if !same_request7(rec, id, expected, length) {
                    Err(Error::IdempotencyConflict)
                } else if !payload_ok(rec.extents@, rec.extents_used as int, rec.length as int) {
                    Err(Error::Corrupt)
                } else {
                    Ok(Some(k))
                }
            },
            None => match admission_target7(v, id, expected) {
                Err(e) => Err(e),
                Ok(_) => Ok(None),
            },
        }
    }
}

/// A fresh admission candidate: the admitted record in the target slot,
/// sound free runs for the payload, nothing else.
pub open spec fn admission_candidate7(c: Candidate7, v: Volume7, id: WriteIdentity7, expected: u64, length: u32, checksum: u32) -> bool {
    let t = admission_target7(v, id, expected)->Ok_0;
    &&& c.record_slot == t.0
    &&& c.record == admitted_record7(id, expected, length, checksum, t.1, c.added)
    &&& c.node_update is None
    &&& c.released_used == 0
    &&& c.added.wf()
    &&& c.added.total() == sectors_for(length as int)
    &&& plan_free(c.added, v.map@)
}

/// `c` is the candidate a fresh admission of `bytes` builds on `v`: the
/// admitted record on the runs the planner chooses.
pub open spec fn chosen_admission7(c: Candidate7, v: Volume7, id: WriteIdentity7, expected: u64, bytes: Seq<u8>) -> bool {
    &&& admission_candidate7(c, v, id, expected, bytes.len() as u32, spec_crc(bytes))
    &&& forall|m: Seq<u64>| planned7(m, v) ==> #[trigger] greedy7(m, Seq::empty(), sectors_for(bytes.len() as int))
        == Ok::<Seq<Extent>, Error>(c.added.runs@.take(c.added.used as int))
}

/// Candidate `c` would not validate on `v`, whatever map its runs are
/// applied to.
pub open spec fn refused_candidate7(v: Volume7, c: Candidate7) -> bool {
    forall|m: Seq<u64>| #[trigger] map_delta(v.map@, m, added7(c), released7(c)) ==> !candidate_valid7(v, c, m)
}

/// What opening an admission found.
pub(crate) enum Opening7 {
    Fresh(PayloadPlan),
    Retry(Record7),
}

/// A plan of free runs leaves the map it is validated on as it was.
proof fn lemma_free_plan_restores(old_map: Seq<u64>, new_map: Seq<u64>, c: Candidate7)
    requires
        old_map.len() == crate::extent::MAP_WORDS,
        new_map.len() == crate::extent::MAP_WORDS,
        c.released_used == 0,
        c.added.wf(),
        plan_free(c.added, old_map),
        forall|s: int| 0 <= s < DATA_SECTORS ==> #[trigger] bit(new_map, s)
            == ((bit(old_map, s) || holds7(released7(c), s)) && !holds7(added7(c), s)),
    ensures
        new_map == old_map,
{
    assert(released7(c).len() == 0);
    assert forall|s: int| 0 <= s < DATA_SECTORS implies #[trigger] bit(new_map, s) == bit(old_map, s) by {
        assert(!holds7(released7(c), s));
        if holds7(added7(c), s) {
            let k = choose|k: int| 0 <= k < added7(c).len() && #[trigger] added7(c)[k].start <= s < added7(c)[k].start + added7(c)[k].sectors;
            assert(added7(c)[k] == c.added.runs@[k]);
            assert(crate::extent::free_run(old_map, c.added.runs@[k].start as int, c.added.runs@[k].sectors as int));
        }
    }
    crate::extent::lemma_words_from_bits(new_map, old_map);
}

impl Volume7 {
    /// Build and validate the admitted candidate for a planned payload.
    pub(crate) fn admission_candidate(&mut self, identity: WriteIdentity7, expected_version: u64, length: u32, checksum: u32, plan: PayloadPlan)
        -> (r: Result<Candidate7, Error>)
        requires
            old(self).wf(),
            plan.wf(),
            plan.total() == sectors_for(length as int),
            plan_free(plan, old(self).map@),
            admission_target7(*old(self), identity, expected_version) is Ok,
        ensures
            final(self).wf(),
            kept7(*old(self), *final(self)),
            final(self).fenced == old(self).fenced,
            final(self).stages == old(self).stages,
            final(self).stage_owner == old(self).stage_owner,
            final(self).stage_nonce == old(self).stage_nonce,
            r matches Ok(c) ==> admission_candidate7(c, *old(self), identity, expected_version, length, checksum) && c.added == plan
                && candidate_shaped7(c)
                && forall|m: Seq<u64>| #[trigger] map_delta(old(self).map@, m, added7(c), released7(c)) ==> candidate_valid7(*old(self), c, m),
            r is Err ==> r == Err::<Candidate7, Error>(Error::Corrupt),
            r is Err ==> exists|c: Candidate7| #[trigger] admission_candidate7(c, *old(self), identity, expected_version, length, checksum)
                && c.added == plan && refused_candidate7(*old(self), c),
    {
        let (slot, number) = match self.admission_target(identity, expected_version) {
            Ok(t) => t,
            Err(e) => {
                return Err(e);
            },
        };
        let mut record = Record7 {
            subject: identity.subject,
            workspace: identity.workspace,
            object: identity.object,
            instance: identity.instance,
            retry_epoch: identity.retry_epoch,
            retry_key: identity.retry_key,
            previous: expected_version,
            committed: 0,
            admission_number: number,
            terminal: 0,
            length,
            payload_crc32: checksum,
            state: RecordState::Admitted,
            prevention: None,
            extents_used: plan.used as u8,
            extents: plan.runs,
        };
        if plan.used == 0 {
            record.extents = [Extent { start: 0, sectors: 0 }; MAX_EXTENTS];
            proof {
                crate::codec::lemma_zero_runs(record.extents);
            }
        }
        let mut candidate = Candidate7::empty(slot, record);
        candidate.added = plan;
        proof {
            assert(record == admitted_record7(identity, expected_version, length, checksum, number, plan));
            assert forall|k: int| 0 <= k < added7(candidate).len() implies #[trigger] added7(candidate)[k].start + added7(candidate)[k].sectors <= DATA_SECTORS by {
                assert(added7(candidate)[k] == plan.runs@[k]);
            }
            assert(released7(candidate).len() == 0);
            assert(candidate_shaped7(candidate));
        }
        let ghost before = *self;
        let checked = validate_candidate(self, candidate);
        proof {
            if record7_local_ok(record) && before.header.sequence < u64::MAX {
                lemma_free_plan_restores(before.map@, self.map@, candidate);
            }
            assert(kept7(before, *self));
            assert(admission_candidate7(candidate, before, identity, expected_version, length, checksum));
            if checked is Err {
                assert(refused_candidate7(before, candidate));
            }
        }
        match checked {
            Ok(()) => Ok(candidate),
            Err(e) => Err(e),
        }
    }

    /// Admission preflight: the exact retry rules, then the fresh target and
    /// a plan of free runs.
    pub(crate) fn open_admission(&self, identity: WriteIdentity7, expected_version: u64, length: u32) -> (r: Result<Opening7, Error>)
        requires
            self.wf(),
            !self.fenced,
            length <= MAX_FILE_BYTES,
            identity_ok7(identity, self.header),
            !crate::volume7::stage::stage_scope7(self.stages@, identity),
        ensures
            match admission_opening7(*self, identity, expected_version, length as int) {
                Err(e) => r == Err::<Opening7, Error>(e),
                Ok(Some(k)) => r == Ok::<Opening7, Error>(Opening7::Retry(self.records@[k]->Some_0)),
                Ok(None) => (r matches Ok(Opening7::Fresh(plan)) && plan.wf() && plan.total() == sectors_for(length as int)
                    && plan_free(plan, self.map@)) || r is Err,
            },
            admission_opening7(*self, identity, expected_version, length as int) is Ok && r is Err ==> r == Err::<Opening7, Error>(Error::Full),
            admission_opening7(*self, identity, expected_version, length as int) == Ok::<Option<int>, Error>(None) ==> (r is Err <==> forall|m: Seq<u64>|
                planned7(m, *self) ==> #[trigger] greedy7(m, Seq::empty(), sectors_for(length as int)) is Err),
            r matches Ok(Opening7::Fresh(plan)) ==> forall|m: Seq<u64>| planned7(m, *self) ==> #[trigger] greedy7(m, Seq::empty(), sectors_for(length as int))
                == Ok::<Seq<Extent>, Error>(plan.runs@.take(plan.used as int)),
            r matches Ok(Opening7::Retry(rec)) ==> rec.extents_used <= 8 && payload_ok(rec.extents@, rec.extents_used as int, rec.length as int),
    {
        match self.find_retry(identity) {
            Some(k) => {
                let record = self.records[k].unwrap();
                if !same_record_identity(&record, identity, expected_version) || record.length != length {
                    return Err(Error::IdempotencyConflict);
                }
                check_payload(record.extents.as_slice(), record.extents_used, record.length)?;
                return Ok(Opening7::Retry(record));
            },
            None => {},
        }
        self.admission_target(identity, expected_version)?;
        let planning = self.planning_map();
        let planned = plan_payload(planning.as_slice(), length as usize);
        proof {
            assert forall|m: Seq<u64>| planned7(m, *self) implies #[trigger] greedy7(m, Seq::empty(), sectors_for(length as int))
                == greedy7(planning@, Seq::empty(), sectors_for(length as int)) by {
                lemma_planned_unique(m, planning@, *self);
            }
        }
        let plan = match planned {
            Ok(plan) => plan,
            Err(error) => {
                return Err(error);
            },
        };
        proof {
            crate::volume7::stage::lemma_plan_free_below(plan, planning@, self.map@);
        }
        Ok(Opening7::Fresh(plan))
    }

    /// Begin a pollable durable admission of `bytes` for an existing file.
    /// The caller lends the bytes until settlement: they are written to the
    /// planned free runs and flushed, and only then named by the admitted
    /// record and the new header. A retained exact retry is verified by
    /// reading its snapshot back and publishes nothing.
    pub fn prepare_admission(&mut self, identity: WriteIdentity7, expected_version: u64, bytes: &[u8]) -> (r: Result<PollPublication7, Error>)
        requires
            old(self).wf(),
        ensures
            final(self).wf(),
            kept7(*old(self), *final(self)),
            match admission_opening7(*old(self), identity, expected_version, bytes@.len() as int) {
                Err(e) => r == Err::<PollPublication7, Error>(e) && final(self).fenced == old(self).fenced,
                Ok(Some(k)) => final(self).fenced && (r matches Ok(p) && p.wf() && p.spec_retry_record() == Some(old(self).records@[k]->Some_0)
                    && p.spec_bytes_len() == Some(bytes@.len() as usize) && p.spec_step() == Step7::RetryRead(0)
                    && p.spec_phase() == Publication7Phase::Retrying && p.spec_retry_matches() && p.spec_offset() == 0
                    && p.spec_retry_checksum() == 0xffff_ffffu32),
                Ok(None) => {
                    &&& r matches Ok(p) ==> (p.spec_candidate() matches Some(c)
                        && admission_candidate7(c, *old(self), identity, expected_version, bytes@.len() as u32, spec_crc(bytes@))
                        && (forall|m: Seq<u64>| #[trigger] map_delta(old(self).map@, m, added7(c), released7(c)) ==> candidate_valid7(*old(self), c, m))
                        && publishes7(p, c, if crate::volume7::poll::run_count(added7(c)) != 0 { Step7::PayloadWrite(0) } else { Step7::PayloadFlush },
                            Some(bytes@.len() as usize))
                        && final(self).fenced)
                    &&& r is Err ==> final(self).fenced == old(self).fenced && (r == Err::<PollPublication7, Error>(Error::Full)
                        || r == Err::<PollPublication7, Error>(Error::Corrupt))
                    &&& r matches Ok(p) ==> p.spec_candidate() matches Some(c) && chosen_admission7(c, *old(self), identity, expected_version, bytes@)
                    &&& r == Err::<PollPublication7, Error>(Error::Full) <==> forall|m: Seq<u64>| planned7(m, *old(self))
                        ==> #[trigger] greedy7(m, Seq::empty(), sectors_for(bytes@.len() as int)) is Err
                    &&& r is Err && r != Err::<PollPublication7, Error>(Error::Full) ==> exists|c: Candidate7|
                        #[trigger] chosen_admission7(c, *old(self), identity, expected_version, bytes@) && refused_candidate7(*old(self), c)
                },
            },
    {
        self.ready()?;
        if bytes.len() > MAX_FILE_BYTES as usize {
            return Err(Error::Size);
        }
        self.validate_identity(identity)?;
        if self.stage_holds_scope(identity) {
            return Err(Error::Busy);
        }
        let length = bytes.len() as u32;
        assert(length as int == bytes@.len());
        let ghost before = *self;
        let opening = self.open_admission(identity, expected_version, length)?;
        match opening {
            Opening7::Retry(record) => {
                proof {
                    assert forall|q: int| 0 <= q < record.extents@.take(record.extents_used as int).len()
                        implies #[trigger] record.extents@.take(record.extents_used as int)[q].start + record.extents@.take(record.extents_used as int)[q].sectors <= DATA_SECTORS by {
                        assert(crate::format7::run_live(record.extents@[q]));
                    }
                }
                let publication = PollPublication7::retry(self, record, bytes.len());
                proof {
                    assert(admission_opening7(before, identity, expected_version, bytes@.len() as int) is Ok);
                    assert(admission_opening7(before, identity, expected_version, bytes@.len() as int) is Ok
                        && admission_opening7(before, identity, expected_version, bytes@.len() as int)->Ok_0 is Some);
                    assert(kept7(before, *self));
                }
                Ok(publication)
            },
            Opening7::Fresh(plan) => {
                let built = self.admission_candidate(identity, expected_version, length, crc(bytes), plan);
                proof {
                    if built is Err {
                        let c = choose|c: Candidate7| #[trigger] admission_candidate7(c, before, identity, expected_version, length, spec_crc(bytes@))
                            && c.added == plan && refused_candidate7(before, c);
                        assert(chosen_admission7(c, before, identity, expected_version, bytes@));
                    }
                }
                let candidate = match built {
                    Ok(c) => c,
                    Err(error) => {
                        return Err(error);
                    },
                };
                let publication = PollPublication7::publish(self, candidate, Some(bytes.len()));
                proof {
                    assert(admission_opening7(before, identity, expected_version, bytes@.len() as int) == Ok::<Option<int>, Error>(None));
                    assert(admission_candidate7(candidate, before, identity, expected_version, bytes@.len() as u32, spec_crc(bytes@)));
                    assert(publishes7(publication, candidate, if crate::volume7::poll::run_count(added7(candidate)) != 0 { Step7::PayloadWrite(0) } else { Step7::PayloadFlush },
                        Some(bytes@.len() as usize)));
                    assert(kept7(before, *self));
                }
                Ok(publication)
            },
        }
    }
}

} // verus!

verus! {

/// What finishing fresh admission stage `s` on `v` (the owner once the stage
/// has ended) does: the rechecks of a borrowed-bytes admission, then a
/// publication of the admitted candidate from the payload flush on.
pub open spec fn admission_finish7(v: Volume7, fin: Volume7, s: StageSlot, plan: PayloadPlan, r: Result<PollPublication7, Error>) -> bool {
    if find_retry7(v.records@, s.identity, 0) is Some {
        r == Err::<PollPublication7, Error>(Error::IdempotencyConflict) && !fin.fenced
    } else {
        match admission_target7(v, s.identity, s.expected_version) {
            Err(e) => r == Err::<PollPublication7, Error>(e) && !fin.fenced,
            Ok(_) => {
                &&& !plan_free(plan, v.map@) ==> r == Err::<PollPublication7, Error>(Error::Corrupt) && !fin.fenced
                &&& r matches Ok(p) ==> (p.spec_candidate() matches Some(c)
                    && admission_candidate7(c, v, s.identity, s.expected_version, s.length, !s.checksum)
                    && c.added == plan
                    && (forall|m: Seq<u64>| #[trigger] map_delta(v.map@, m, added7(c), released7(c)) ==> candidate_valid7(v, c, m))
                    && p.wf() && p.spec_step() == Step7::PayloadFlush && p.spec_bytes_len() is None
                    && p.spec_phase() == Publication7Phase::Preparing && fin.fenced)
                &&& r is Err ==> !fin.fenced && r == Err::<PollPublication7, Error>(Error::Corrupt)
                &&& plan_free(plan, v.map@) && r is Err ==> exists|c: Candidate7|
                    #[trigger] admission_candidate7(c, v, s.identity, s.expected_version, s.length, !s.checksum)
                    && c.added == plan && refused_candidate7(v, c)
            },
        }
    }
}

impl Volume7 {
    /// Finish a fully supplied admission stage as a pollable publication.
    ///
    /// A stage of another kind or with bytes still expected is `Invalid` and
    /// stays open; otherwise the stage ends. A checking retry whose snapshot
    /// checksum differs fences the owner with `Corrupt`; a byte difference is
    /// `IdempotencyConflict`; else the retained record, which execution or
    /// cancellation may have advanced meanwhile, is answered. A fresh stage,
    /// whose payload is already written, rechecks the retry scope and the
    /// target and publishes from the payload flush on.
    pub fn finish_admission(&mut self, stage: &mut Stage7) -> (r: Result<PollPublication7, Error>)
        requires
            old(self).wf(),
        ensures
            final(self).wf(),
            *final(stage) == *old(stage),
            old(self).fenced ==> r == Err::<PollPublication7, Error>(Error::Uncertain) && *final(self) == *old(self),
            !old(self).fenced && !finishable7(*old(self), *old(stage), Stage7Kind::Admission)
                ==> r == Err::<PollPublication7, Error>(Error::Invalid) && *final(self) == *old(self),
            !old(self).fenced && finishable7(*old(self), *old(stage), Stage7Kind::Admission) ==> {
                let i = token_slot7(*old(self), *old(stage))->Some_0;
                let s = old(self).stages@[i]->Some_0;
                let ended = old(self).stages@.update(i, None);
                &&& final(self).stages@ == ended
                &&& kept7(*old(self), *final(self))
                &&& match s.mode {
                    StageMode::Retry { record, matches } => if !s.checksum != record.payload_crc32 {
                        r == Err::<PollPublication7, Error>(Error::Corrupt) && final(self).fenced
                    } else if !matches {
                        r == Err::<PollPublication7, Error>(Error::IdempotencyConflict) && !final(self).fenced
                    } else {
                        !final(self).fenced && match find_retry7(old(self).records@, s.identity, 0) {
                            Some(k) => r matches Ok(p) && p.wf() && p.spec_phase() == Publication7Phase::Committed
                                && p.spec_result() == Some(old(self).records@[k]->Some_0) && p.spec_step() == Step7::Done,
                            None => r == Err::<PollPublication7, Error>(Error::Corrupt),
                        }
                    },
                    StageMode::Fresh(plan) => exists|mid: Volume7| #[trigger] stages_only7(*old(self), mid)
                        && mid.stages@ == ended && admission_finish7(mid, *final(self), s, plan, r),
                }
            },
    {
        self.ready()?;
        let slot = self.take_finishable(stage, Stage7Kind::Admission)?;
        let ghost mid = *self;
        match slot.mode {
            StageMode::Retry { record, matches } => {
                if slot.payload_crc() != record.payload_crc32 {
                    self.fenced = true;
                    return Err(Error::Corrupt);
                }
                if !matches {
                    return Err(Error::IdempotencyConflict);
                }
                match self.find_retry(slot.identity) {
                    Some(k) => {
                        let current = self.records[k].unwrap();
                        Ok(PollPublication7::replay(current))
                    },
                    None => Err(Error::Corrupt),
                }
            },
            StageMode::Fresh(plan) => {
                let r = self.finish_fresh_admission(slot, plan);
                proof {
                    assert(admission_finish7(mid, *self, slot, plan, r));
                    assert(stages_only7(*old(self), mid));
                }
                r
            },
        }
    }
}


impl Volume7 {
    /// The fresh half of finishing an admission stage.
    fn finish_fresh_admission(&mut self, slot: StageSlot, plan: PayloadPlan) -> (r: Result<PollPublication7, Error>)
        requires
            old(self).wf(),
            slot_wf(slot),
            slot.mode == StageMode::Fresh(plan),
        ensures
            final(self).wf(),
            kept7(*old(self), *final(self)),
            final(self).stages == old(self).stages,
            final(self).stage_owner == old(self).stage_owner,
            final(self).stage_nonce == old(self).stage_nonce,
            !old(self).fenced ==> admission_finish7(*old(self), *final(self), slot, plan, r),
    {
        if self.find_retry(slot.identity).is_some() {
            return Err(Error::IdempotencyConflict);
        }
        self.admission_target(slot.identity, slot.expected_version)?;
        if !plan_still_free(self.map.as_slice(), &plan) {
            return Err(Error::Corrupt);
        }
        let candidate = self.admission_candidate(slot.identity, slot.expected_version, slot.length, slot.payload_crc(), plan)?;
        let publication = PollPublication7::staged(self, candidate);
        Ok(publication)
    }
}

} // verus!
