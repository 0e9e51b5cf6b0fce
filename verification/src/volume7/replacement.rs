//! Tracked file replacement: exact retry handling, preflight, payload
//! staging and the copy-on-write commit with a retained snapshot record.
use vstd::prelude::*;
use crate::checksum::{crc, crc_fold, crc_update, spec_crc, lemma_crc_fold_append};
use crate::extent::{Extent, DATA_SECTORS, MAP_WORDS, EXTENTS_PER_FILE, bit, set_bit, total_sectors};
use crate::format7::{
    Header7, NODES, Node7, RETAINED, Record7, RecordState, NEXT_MIN, MAX_FILE_BYTES, PAYLOAD_SECTOR,
    check_payload, payload_ok, overlap,
};
use crate::format7::validation::{generation_valid7, validate_generation};
use crate::namespace::Kind;
use crate::storage::Disk;
use crate::volume6::{PayloadPlan, covered, least, payload_byte, padded_at, read_runs, write_runs, sectors_for};
use crate::volume7::{Volume7, WriteIdentity7, find7, lemma_find7, live7};
use crate::volume7::mount::{cleared7, content7};
use crate::volume7::namespace::{retained_owns7, retained_owns_run, committed7};
use crate::volume7::payload::{plan_payload, plan_free, reserve_plan, greedy7};
use crate::volume7::publication::{candidate_of7, published7, with_sums7};
use crate::volume7::stage::{Stage7, Stage7Kind, StageMode, StageSlot, token_slot7, finishable7, stages_only7, planned7, lemma_planned_unique};
use crate::Error;

verus! {

/// `r` carries `id`'s retry scope.
pub open spec fn retry_scope7(r: Record7, id: WriteIdentity7) -> bool {
    r.subject == id.subject && r.workspace == id.workspace && r.retry_epoch == id.retry_epoch && r.retry_key == id.retry_key
}

/// The first retained slot at or after `from` holding `id`'s retry scope.
pub open spec fn find_retry7(records: Seq<Option<Record7>>, id: WriteIdentity7, from: int) -> Option<int>
    decreases records.len() - from,
{
    if from < 0 || from >= records.len() {
        None
    } else if records[from] is Some && retry_scope7(records[from]->Some_0, id) {
        Some(from)
    } else {
        find_retry7(records, id, from + 1)
    }
}

/// The first empty retained slot at or after `from`.
pub open spec fn free_slot7(records: Seq<Option<Record7>>, from: int) -> Option<int>
    decreases records.len() - from,
{
    if from < 0 || from >= records.len() {
        None
    } else if records[from] is None {
        Some(from)
    } else {
        free_slot7(records, from + 1)
    }
}

/// How many retained slots are empty.
pub open spec fn free_count7(records: Seq<Option<Record7>>) -> int
    decreases records.len(),
{
    if records.len() == 0 {
        0
    } else {
        free_count7(records.drop_last()) + if records.last() is None { 1int } else { 0int }
    }
}

/// How many retained slots open fresh stages hold back for their records.
pub open spec fn reserved_slots7(stages: Seq<Option<StageSlot>>) -> int {
    (if stages[0] matches Some(s) && s.mode is Fresh { 1int } else { 0int })
        + (if stages[1] matches Some(s) && s.mode is Fresh { 1int } else { 0int })
}

/// No empty retained slot is left beyond those open fresh stages reserve.
pub open spec fn slots_short7(v: Volume7) -> bool {
    free_count7(v.records@) <= reserved_slots7(v.stages@)
}

/// Without an empty slot at or after `from`, every slot there is occupied.
proof fn lemma_no_free_slot(records: Seq<Option<Record7>>, from: int)
    requires
        0 <= from,
        free_slot7(records, from) is None,
    ensures
        forall|j: int| from <= j < records.len() ==> #[trigger] records[j] is Some,
    decreases records.len() - from,
{
    if from < records.len() {
        lemma_no_free_slot(records, from + 1);
    }
}

/// A table whose slots are all occupied counts no empty slot.
proof fn lemma_full_count(records: Seq<Option<Record7>>)
    requires
        forall|j: int| 0 <= j < records.len() ==> #[trigger] records[j] is Some,
    ensures
        free_count7(records) == 0,
    decreases records.len(),
{
    if records.len() > 0 {
        let rest = records.drop_last();
        assert forall|j: int| 0 <= j < rest.len() implies #[trigger] rest[j] is Some by {
            assert(rest[j] == records[j]);
        }
        lemma_full_count(rest);
    }
}

/// An empty slot is found wherever the count says one exists.
pub proof fn lemma_free_slot_exists(records: Seq<Option<Record7>>)
    requires
        free_count7(records) > 0,
    ensures
        free_slot7(records, 0) is Some,
{
    if free_slot7(records, 0) is None {
        lemma_no_free_slot(records, 0);
        lemma_full_count(records);
    }
}

/// An identity the volume can persist: nonzero fields, scoped objects below
/// the watermark, and a workspace other than the object.
pub open spec fn identity_ok7(id: WriteIdentity7, h: Header7) -> bool {
    &&& id.subject != 0
    &&& id.workspace != 0
    &&& id.object >= NEXT_MIN
    &&& id.instance != 0
    &&& id.retry_epoch != 0
    &&& id.retry_key != 0
    &&& id.workspace < h.next
    &&& id.object < h.next
    &&& id.workspace != id.object
}

/// What the fresh-target preflight refuses, if anything.
pub open spec fn target_refusal7(v: Volume7, id: WriteIdentity7, expected: u64) -> Option<Error> {
    if id.retry_epoch != v.header.epoch {
        Some(Error::ExpiredEpoch)
    } else if find7(v.nodes@, id.object, 0) is None {
        Some(Error::NotFound)
    } else if v.nodes@[find7(v.nodes@, id.object, 0)->Some_0].kind != Kind::File {
        Some(Error::IsDirectory)
    } else if v.nodes@[find7(v.nodes@, id.object, 0)->Some_0].version != expected {
        Some(Error::Version)
    } else if slots_short7(v) {
        Some(Error::Full)
    } else if v.header.sequence == u64::MAX || expected == u64::MAX {
        Some(Error::Exhausted)
    } else if v.header.sequence < expected {
        Some(Error::Corrupt)
    } else if id.instance > v.header.sequence + 1 {
        Some(Error::Invalid)
    } else {
        None
    }
}

/// The retained record that retries `id`, if one does.
pub open spec fn retry_record7(v: Volume7, id: WriteIdentity7) -> Option<Record7> {
    match find_retry7(v.records@, id, 0) {
        Some(k) => v.records@[k],
        None => None,
    }
}

/// What a tracked replacement refuses before any I/O, if anything.
pub open spec fn replace_refusal7(v: Volume7, id: WriteIdentity7, expected: u64, length: int) -> Option<Error> {
    if v.fenced {
        Some(Error::Uncertain)
    } else if length > MAX_FILE_BYTES {
        Some(Error::Size)
    } else if !identity_ok7(id, v.header) {
        Some(Error::Invalid)
    } else if crate::volume7::stage::stage_scope7(v.stages@, id) {
        Some(Error::Busy)
    } else if retry_record7(v, id) is Some {
        let r = retry_record7(v, id)->Some_0;
        if r.object != id.object || r.instance != id.instance || r.previous != expected || r.length != length {
            Some(Error::IdempotencyConflict)
        } else if r.state != RecordState::DirectCommitted {
            Some(Error::OutcomeUnknown)
        } else {
            None
        }
    } else {
        target_refusal7(v, id, expected)
    }
}

/// The record a fresh replacement retains.
pub open spec fn tracked_record7(id: WriteIdentity7, expected: u64, sequence: u64, length: u32, checksum: u32, plan: PayloadPlan) -> Record7 {
    Record7 {
        subject: id.subject,
        workspace: id.workspace,
        object: id.object,
        instance: id.instance,
        retry_epoch: id.retry_epoch,
        retry_key: id.retry_key,
        previous: expected,
        committed: sequence,
        admission_number: 0,
        terminal: sequence,
        length,
        payload_crc32: checksum,
        state: RecordState::DirectCommitted,
        prevention: None,
        extents_used: plan.used as u8,
        extents: plan.runs,
    }
}

/// The live record a fresh replacement publishes: `previous` moved onto the
/// planned runs at the new version.
pub open spec fn replaced7(previous: Node7, sequence: u64, length: u32, checksum: u32, plan: PayloadPlan) -> Node7 {
    Node7 {
        version: sequence,
        length,
        payload_crc32: checksum,
        extents_used: plan.used as u8,
        extents: plan.runs,
        ..previous
    }
}

/// Sector `s` is in one of the first `k` runs of `n` that no retained record
/// owns.
pub open spec fn released7(n: Node7, records: Seq<Option<Record7>>, k: int, s: int) -> bool {
    exists|j: int| 0 <= j < k && !retained_owns7(records, n.extents@[j])
        && #[trigger] n.extents@[j].start <= s < n.extents@[j].start + n.extents@[j].sectors
}

/// The map a fresh replacement publishes: the planned runs allocated, the
/// replaced version's unshared runs free, every other bit as it was.
pub open spec fn staged_map7(old: Seq<u64>, new: Seq<u64>, plan: PayloadPlan, previous: Node7, records: Seq<Option<Record7>>) -> bool {
    &&& new.len() == MAP_WORDS
    &&& forall|s: int| 0 <= s < DATA_SECTORS ==> #[trigger] bit(new, s) == ((bit(old, s) || covered(plan.runs@, plan.used as int, s))
        && !released7(previous, records, previous.extents_used as int, s))
}

pub(crate) struct TrackedTarget {
    pub(crate) index: usize,
    pub(crate) previous: Node7,
    pub(crate) receipt_slot: usize,
    pub(crate) sequence: u64,
}

impl Volume7 {
    pub(crate) fn validate_identity(&self, identity: WriteIdentity7) -> (r: Result<(), Error>)
        ensures
            r is Ok <==> identity_ok7(identity, self.header),
            r is Err ==> r == Err::<(), Error>(Error::Invalid),
    {
        if identity.subject == 0 || identity.workspace == 0 || identity.object < NEXT_MIN || identity.instance == 0
            || identity.retry_epoch == 0 || identity.retry_key == 0 || identity.workspace >= self.header.next
            || identity.object >= self.header.next || identity.workspace == identity.object {
            return Err(Error::Invalid);
        }
        Ok(())
    }

    pub(crate) fn find_retry(&self, identity: WriteIdentity7) -> (r: Option<usize>)
        ensures
            r == (match find_retry7(self.records@, identity, 0) {
                Some(k) => Some(k as usize),
                None => None::<usize>,
            }),
            r matches Some(k) ==> k < RETAINED && find_retry7(self.records@, identity, 0) == Some(k as int)
                && self.records@[k as int] is Some,
    {
        let mut k: usize = 0;
        while k < RETAINED
            invariant
                0 <= k <= RETAINED,
                find_retry7(self.records@, identity, 0) == find_retry7(self.records@, identity, k as int),
            decreases RETAINED - k,
        {
            if let Some(record) = self.records[k] {
                if record.subject == identity.subject && record.workspace == identity.workspace
                    && record.retry_epoch == identity.retry_epoch && record.retry_key == identity.retry_key {
                    return Some(k);
                }
            }
            k = k + 1;
        }
        None
    }

    pub(crate) fn free_record_slot(&self) -> (r: Option<usize>)
        ensures
            r == (match free_slot7(self.records@, 0) {
                Some(k) => Some(k as usize),
                None => None::<usize>,
            }),
            r matches Some(k) ==> k < RETAINED && free_slot7(self.records@, 0) == Some(k as int) && self.records@[k as int] is None,
    {
        let mut k: usize = 0;
        while k < RETAINED
            invariant
                0 <= k <= RETAINED,
                free_slot7(self.records@, 0) == free_slot7(self.records@, k as int),
            decreases RETAINED - k,
        {
            if self.records[k].is_none() {
                return Some(k);
            }
            k = k + 1;
        }
        None
    }

    /// Whether open fresh stages hold back every empty retained slot.
    pub(crate) fn receipts_short(&self) -> (r: bool)
        ensures
            r == slots_short7(*self),
    {
        let mut free: usize = 0;
        let mut k: usize = 0;
        while k < RETAINED
            invariant
                0 <= k <= RETAINED,
                free <= k,
                free == free_count7(self.records@.take(k as int)),
            decreases RETAINED - k,
        {
            proof {
                assert(self.records@.take(k + 1).drop_last() =~= self.records@.take(k as int));
            }
            if self.records[k].is_none() {
                free = free + 1;
            }
            k = k + 1;
        }
        assert(self.records@.take(RETAINED as int) =~= self.records@);
        let mut reserved: usize = 0;
        if let Some(slot) = &self.stages[0] {
            if let StageMode::Fresh(_) = slot.mode {
                reserved = reserved + 1;
            }
        }
        if let Some(slot) = &self.stages[1] {
            if let StageMode::Fresh(_) = slot.mode {
                reserved = reserved + 1;
            }
        }
        free <= reserved
    }

    pub(crate) fn tracked_target(&self, identity: WriteIdentity7, expected_version: u64) -> (r: Result<TrackedTarget, Error>)
        requires
            self.wf(),
        ensures
            target_refusal7(*self, identity, expected_version) matches Some(e) ==> r == Err::<TrackedTarget, Error>(e),
            target_refusal7(*self, identity, expected_version) is None ==> (r matches Ok(t) && {
                &&& find7(self.nodes@, identity.object, 0) == Some(t.index as int)
                &&& t.index < NODES
                &&& t.previous == self.nodes@[t.index as int]
                &&& free_slot7(self.records@, 0) == Some(t.receipt_slot as int)
                &&& t.receipt_slot < RETAINED
                &&& t.sequence == self.header.sequence + 1
            }),
    {
        if identity.retry_epoch != self.header.epoch {
            return Err(Error::ExpiredEpoch);
        }
        proof {
            lemma_find7(self.nodes@, identity.object, 0);
        }
        let index = match self.position(identity.object) {
            Some(i) => i,
            None => {
                return Err(Error::NotFound);
            },
        };
        let previous = self.nodes[index];
        if previous.kind != Kind::File {
            return Err(Error::IsDirectory);
        }
        if previous.version != expected_version {
            return Err(Error::Version);
        }
        if self.receipts_short() {
            return Err(Error::Full);
        }
        let receipt_slot = match self.free_record_slot() {
            Some(k) => k,
            None => {
                proof {
                    lemma_free_slot_exists(self.records@);
                }
                return Err(Error::Full);
            },
        };
        if self.header.sequence == u64::MAX || expected_version == u64::MAX {
            return Err(Error::Exhausted);
        }
        let sequence = self.header.sequence + 1;
        if sequence < expected_version + 1 {
            return Err(Error::Corrupt);
        }
        if identity.instance > sequence {
            return Err(Error::Invalid);
        }
        Ok(TrackedTarget { index, previous, receipt_slot, sequence })
    }
}

} // verus!

verus! {

impl Volume7 {
    /// Check a retry against its retained snapshot: the stored bytes must
    /// checksum as recorded (else `Corrupt`) and equal `bytes` (else
    /// `IdempotencyConflict`). Nothing is written.
    fn verify_retry<D: Disk>(&self, disk: &mut D, record: Record7, bytes: &[u8]) -> (r: Result<Record7, Error>)
        requires
            bytes@.len() == record.length,
            record.extents_used <= 8,
        ensures
            final(disk).contents() == old(disk).contents(),
            r is Ok ==> {
                let stored = content7(old(disk).contents(), record.extents@.take(record.extents_used as int), record.length as int);
                &&& r == Ok::<Record7, Error>(record)
                &&& payload_ok(record.extents@, record.extents_used as int, record.length as int)
                &&& spec_crc(stored) == record.payload_crc32
                &&& stored == bytes@
            },
            !payload_ok(record.extents@, record.extents_used as int, record.length as int) ==> r == Err::<Record7, Error>(Error::Corrupt),
    {
        check_payload(record.extents.as_slice(), record.extents_used, record.length)?;
        proof {
            assert forall|k: int| 0 <= k < EXTENTS_PER_FILE implies #[trigger] record.extents@[k].start + record.extents@[k].sectors <= DATA_SECTORS by {
                if k < record.extents_used {
                    assert(crate::format7::run_live(record.extents@[k]));
                } else {
                    assert(crate::format7::is_zero_run(record.extents@[k]));
                }
            }
        }
        let ghost c = disk.contents();
        let ghost stored = content7(c, record.extents@.take(record.extents_used as int), record.length as int);
        let total = record.length as u64;
        let mut offset: u64 = 0;
        let mut checksum: u32 = 0xffff_ffffu32;
        let mut matches = true;
        let mut block = [0u8; 512];
        assert(stored.take(0) =~= bytes@.take(0));
        while offset < total
            invariant
                record.extents_used <= 8,
                payload_ok(record.extents@, record.extents_used as int, record.length as int),
                forall|k: int| 0 <= k < EXTENTS_PER_FILE ==> #[trigger] record.extents@[k].start + record.extents@[k].sectors <= DATA_SECTORS,
                total == record.length,
                bytes@.len() == total,
                stored == content7(c, record.extents@.take(record.extents_used as int), record.length as int),
                disk.contents() == c,
                c == old(disk).contents(),
                offset <= total,
                checksum == crc_fold(0xffff_ffffu32, stored.take(offset as int)),
                matches == (stored.take(offset as int) == bytes@.take(offset as int)),
            decreases total - offset,
        {
            let count = read_runs(disk, PAYLOAD_SECTOR, &record.extents, record.extents_used as usize, total, offset, &mut block)?;
            let part = vstd::slice::slice_subrange(block.as_slice(), 0, count);
            let given = vstd::slice::slice_subrange(bytes, offset as usize, offset as usize + count);
            let same = crate::codec::slices_equal(part, given);
            proof {
                assert(part@ =~= stored.subrange(offset as int, offset + count));
                assert(stored.take(offset + count) =~= stored.take(offset as int) + part@);
                assert(bytes@.take(offset + count) =~= bytes@.take(offset as int) + given@);
                lemma_crc_fold_append(0xffff_ffffu32, stored.take(offset as int), part@);
                if matches && same {
                    assert(stored.take(offset + count) =~= bytes@.take(offset + count));
                }
                if stored.take(offset + count) == bytes@.take(offset + count) {
                    assert(stored.take(offset as int) =~= stored.take(offset + count).take(offset as int));
                    assert(bytes@.take(offset as int) =~= bytes@.take(offset + count).take(offset as int));
                    assert(part@ =~= stored.take(offset + count).subrange(offset as int, offset + count));
                    assert(given@ =~= bytes@.take(offset + count).subrange(offset as int, offset + count));
                }
            }
            matches = matches && same;
            crc_update(&mut checksum, part);
            offset = offset + count as u64;
        }
        assert(stored.take(total as int) =~= stored);
        assert(bytes@.take(total as int) =~= bytes@);
        if !checksum != record.payload_crc32 {
            return Err(Error::Corrupt);
        }
        if !matches {
            return Err(Error::IdempotencyConflict);
        }
        Ok(record)
    }

    /// The map a fresh replacement would publish: the plan allocated and the
    /// replaced version's runs no retained record shares freed.
    fn stage_map(&self, plan: &PayloadPlan, previous: &Node7) -> (r: Vec<u64>)
        requires
            self.wf(),
            plan.wf(),
            previous.extents_used <= 8,
            forall|k: int| 0 <= k < previous.extents_used ==> #[trigger] previous.extents@[k].start + previous.extents@[k].sectors <= DATA_SECTORS,
        ensures
            staged_map7(self.map@, r@, *plan, *previous, self.records@),
    {
        let mut words: Vec<u64> = Vec::new();
        let mut w: usize = 0;
        while w < MAP_WORDS
            invariant
                0 <= w <= MAP_WORDS,
                self.wf(),
                words@ == self.map@.take(w as int),
            decreases MAP_WORDS - w,
        {
            words.push(self.map[w]);
            w = w + 1;
            assert(words@ =~= self.map@.take(w as int));
        }
        assert(words@ =~= self.map@);
        reserve_plan(&mut words, plan);
        let ghost reserved = words@;
        let mut k: usize = 0;
        while k < previous.extents_used as usize
            invariant
                0 <= k <= previous.extents_used <= 8,
                self.wf(),
                plan.wf(),
                words@.len() == MAP_WORDS,
                forall|j: int| 0 <= j < previous.extents_used ==> #[trigger] previous.extents@[j].start + previous.extents@[j].sectors <= DATA_SECTORS,
                forall|s: int| 0 <= s < DATA_SECTORS ==> #[trigger] bit(reserved, s) == (bit(self.map@, s) || covered(plan.runs@, plan.used as int, s)),
                forall|s: int| 0 <= s < DATA_SECTORS ==> #[trigger] bit(words@, s) == (bit(reserved, s) && !released7(*previous, self.records@, k as int, s)),
            decreases previous.extents_used - k,
        {
            let run = previous.extents[k];
            let owned = retained_owns_run(&self.records, run);
            let ghost before = words@;
            if !owned {
                let end = run.start + run.sectors;
                let mut sector = run.start;
                while sector < end
                    invariant
                        run.start <= sector <= end <= DATA_SECTORS,
                        end == run.start + run.sectors,
                        words@.len() == MAP_WORDS,
                        forall|s: int| 0 <= s < DATA_SECTORS ==> #[trigger] bit(words@, s) == (bit(before, s) && !(run.start <= s < sector)),
                    decreases end - sector,
                {
                    let ghost prior = words@;
                    set_bit(&mut words, sector, false);
                    assert forall|s: int| 0 <= s < DATA_SECTORS implies #[trigger] bit(words@, s) == (bit(before, s) && !(run.start <= s < sector + 1)) by {
                        assert(bit(words@, s) == if sector <= s < sector + 1 { false } else { bit(prior, s) });
                    }
                    sector = sector + 1;
                }
            }
            proof {
                assert forall|s: int| 0 <= s < DATA_SECTORS implies #[trigger] bit(words@, s) == (bit(reserved, s) && !released7(*previous, self.records@, k + 1, s)) by {
                    assert(previous.extents@[k as int] == run);
                    if released7(*previous, self.records@, k + 1, s) {
                        let j = choose|j: int| 0 <= j < k + 1 && !retained_owns7(self.records@, previous.extents@[j])
                            && #[trigger] previous.extents@[j].start <= s < previous.extents@[j].start + previous.extents@[j].sectors;
                        if j < k {
                            assert(released7(*previous, self.records@, k as int, s));
                        }
                    }
                    if released7(*previous, self.records@, k as int, s) {
                        let j = choose|j: int| 0 <= j < k && !retained_owns7(self.records@, previous.extents@[j])
                            && #[trigger] previous.extents@[j].start <= s < previous.extents@[j].start + previous.extents@[j].sectors;
                        assert(released7(*previous, self.records@, k + 1, s));
                    }
                    if !owned && run.start <= s < run.start + run.sectors {
                        assert(released7(*previous, self.records@, k + 1, s));
                    }
                }
            }
            k = k + 1;
        }
        words
    }
}

} // verus!

verus! {

/// A fresh replacement's candidate validates: the replaced live record is
/// sound, the new retained record is locally sound, and the generation it
/// would publish, over the map it stages, is valid.
pub open spec fn commit_sound7(v: Volume7, previous: Node7, record: Record7, plan: PayloadPlan, nodes: Seq<Node7>,
    records: Seq<Option<Record7>>) -> bool {
    &&& crate::format7::node::node7_valid(previous)
    &&& crate::format7::record::record7_local_ok(record)
    &&& forall|m: Seq<u64>| #[trigger] staged_map7(v.map@, m, plan, previous, v.records@)
        ==> generation_valid7(candidate_of7(v.header), nodes, records, m)
}

/// `plan` is the one the planner chose for `bytes` on `v`, and publishing
/// the replacement on it would not validate.
pub open spec fn unsound_plan7(v: Volume7, id: WriteIdentity7, expected: u64, bytes: Seq<u8>, plan: PayloadPlan) -> bool {
    let index = find7(v.nodes@, id.object, 0)->Some_0;
    let slot = free_slot7(v.records@, 0)->Some_0;
    let previous = v.nodes@[index];
    let sequence = (v.header.sequence + 1) as u64;
    let record = tracked_record7(id, expected, sequence, bytes.len() as u32, spec_crc(bytes), plan);
    &&& plan.wf()
    &&& forall|m: Seq<u64>| planned7(m, v) ==> #[trigger] greedy7(m, Seq::empty(), sectors_for(bytes.len() as int))
        == Ok::<Seq<Extent>, Error>(plan.runs@.take(plan.used as int))
    &&& !commit_sound7(v, previous, record, plan, v.nodes@.update(index, replaced7(previous, sequence, bytes.len() as u32, spec_crc(bytes), plan)),
        v.records@.update(slot, Some(record)))
}

/// Two owners hold the same decoded state; the validator workspace may differ.
pub open spec fn same_state7(a: Volume7, b: Volume7) -> bool {
    &&& a.header == b.header
    &&& a.nodes == b.nodes
    &&& a.records == b.records
    &&& a.map == b.map
    &&& a.fenced == b.fenced
    &&& a.recovered_from_header == b.recovered_from_header
}

impl Volume7 {
    /// Recheck, validate and publish a fresh replacement whose payload is
    /// already on the medium in `plan`. Refusals change nothing; a generation
    /// that would not validate is `Corrupt` before any metadata write; a
    /// failed publication fences and clears the owner.
    fn commit_tracked<D: Disk>(&mut self, disk: &mut D, identity: WriteIdentity7, expected_version: u64, length: u32, payload_crc: u32, plan: PayloadPlan) -> (r: Result<Record7, Error>)
        requires
            old(self).wf(),
            !old(self).fenced,
            plan.wf(),
        ensures
            final(self).wf(),
            find_retry7(old(self).records@, identity, 0) is Some ==> r == Err::<Record7, Error>(Error::IdempotencyConflict)
                && same_state7(*final(self), *old(self)) && final(disk).contents() == old(disk).contents(),
            find_retry7(old(self).records@, identity, 0) is None && target_refusal7(*old(self), identity, expected_version) is Some
                ==> r == Err::<Record7, Error>(target_refusal7(*old(self), identity, expected_version)->Some_0) && same_state7(*final(self), *old(self))
                && final(disk).contents() == old(disk).contents(),
            find_retry7(old(self).records@, identity, 0) is None && target_refusal7(*old(self), identity, expected_version) is None ==> {
                let index = find7(old(self).nodes@, identity.object, 0)->Some_0;
                let slot = free_slot7(old(self).records@, 0)->Some_0;
                let previous = old(self).nodes@[index];
                let sequence = (old(self).header.sequence + 1) as u64;
                let record = tracked_record7(identity, expected_version, sequence, length, payload_crc, plan);
                let nodes = old(self).nodes@.update(index, replaced7(previous, sequence, length, payload_crc, plan));
                let records = old(self).records@.update(slot, Some(record));
                &&& r matches Ok(rec) ==> {
                    &&& rec == record
                    &&& final(self).nodes@ == nodes
                    &&& final(self).records@ == records
                    &&& staged_map7(old(self).map@, final(self).map@, plan, previous, old(self).records@)
                    &&& committed7(old(disk).contents(), final(disk).contents(), old(self).header, *final(self))
                }
                &&& r is Err ==> (r == Err::<Record7, Error>(Error::Corrupt) && same_state7(*final(self), *old(self))
                    && final(disk).contents() == old(disk).contents())
                    || (r == Err::<Record7, Error>(Error::Uncertain) && cleared7(*final(self)))
                &&& r == Err::<Record7, Error>(Error::Corrupt) <==> !commit_sound7(*old(self), previous, record, plan, nodes, records)
            },
    {
        if self.find_retry(identity).is_some() {
            return Err(Error::IdempotencyConflict);
        }
        let target = self.tracked_target(identity, expected_version)?;
        let previous = target.previous;
        if previous.validate().is_err() {
            return Err(Error::Corrupt);
        }
        proof {
            assert forall|k: int| 0 <= k < previous.extents_used implies #[trigger] previous.extents@[k].start + previous.extents@[k].sectors <= DATA_SECTORS by {
                assert(crate::format7::run_live(previous.extents@[k]));
            }
        }
        let record = Record7 {
            subject: identity.subject,
            workspace: identity.workspace,
            object: identity.object,
            instance: identity.instance,
            retry_epoch: identity.retry_epoch,
            retry_key: identity.retry_key,
            previous: expected_version,
            committed: target.sequence,
            admission_number: 0,
            terminal: target.sequence,
            length,
            payload_crc32: payload_crc,
            state: RecordState::DirectCommitted,
            prevention: None,
            extents_used: plan.used as u8,
            extents: plan.runs,
        };
        let next_node = Node7 {
            version: target.sequence,
            length,
            payload_crc32: payload_crc,
            extents_used: plan.used as u8,
            extents: plan.runs,
            ..previous
        };
        if record.check_local().is_err() {
            return Err(Error::Corrupt);
        }
        let staged_map = self.stage_map(&plan, &previous);
        let mut nodes = self.nodes;
        nodes[target.index] = next_node;
        let mut records = self.records;
        records[target.receipt_slot] = Some(record);
        let candidate = Header7 { sequence: target.sequence, generation: self.header.generation ^ 1u8, ..self.header };
        let mut scratch: Vec<u64> = Vec::new();
        core::mem::swap(&mut scratch, &mut self.validation);
        let checked = validate_generation(&candidate, &nodes, &records, staged_map.as_slice(), &mut scratch);
        self.validation = scratch;
        proof {
            assert(candidate == candidate_of7(old(self).header));
            assert forall|m: Seq<u64>| #[trigger] staged_map7(old(self).map@, m, plan, previous, old(self).records@) implies m == staged_map@ by {
                crate::extent::lemma_words_from_bits(m, staged_map@);
            }
        }
        if checked.is_err() {
            return Err(Error::Corrupt);
        }
        self.fenced = true;
        self.map = staged_map;
        self.nodes = nodes;
        self.records = records;
        proof {
            assert forall|i: int| 0 <= i < NODES implies (#[trigger] self.nodes@[i]).name_length <= 32 && self.nodes@[i].extents_used <= 8 by {
                if i != target.index {
                    assert(self.nodes@[i] == old(self).nodes@[i]);
                }
            }
            assert forall|k: int| 0 <= k < RETAINED implies (#[trigger] self.records@[k] matches Some(r) ==> r.extents_used <= 8) by {
                if k != target.receipt_slot {
                    assert(self.records@[k] == old(self).records@[k]);
                }
            }
            assert(candidate == candidate_of7(self.header));
        }
        match self.publish_candidate(disk) {
            Ok(header) => {
                self.header = header;
                self.fenced = false;
                Ok(record)
            },
            Err(error) => {
                self.clear();
                self.fenced = true;
                Err(error)
            },
        }
    }
}

} // verus!

verus! {

impl Volume7 {
    /// Replace one file and retain a direct-commit retry record with the exact
    /// bytes produced. An exact retained retry verifies its immutable snapshot
    /// and writes nothing. A new operation writes its payload only to sectors
    /// the selected generation marks free, then publishes the candidate through
    /// the inactive generation's header. A failed payload write fences and
    /// clears the owner.
    pub fn replace_tracked<D: Disk>(&mut self, disk: &mut D, identity: WriteIdentity7, expected_version: u64, bytes: &[u8]) -> (r: Result<Record7, Error>)
        requires
            old(self).wf(),
        ensures
            final(self).wf(),
            replace_refusal7(*old(self), identity, expected_version, bytes@.len() as int) is Some ==> r == Err::<Record7, Error>(
                replace_refusal7(*old(self), identity, expected_version, bytes@.len() as int)->Some_0,
            ) && *final(self) == *old(self) && final(disk).contents() == old(disk).contents(),
            replace_refusal7(*old(self), identity, expected_version, bytes@.len() as int) is None && retry_record7(*old(self), identity) is Some ==> {
                let record = retry_record7(*old(self), identity)->Some_0;
                &&& *final(self) == *old(self)
                &&& final(disk).contents() == old(disk).contents()
                &&& r is Ok ==> r == Ok::<Record7, Error>(record)
                    && content7(old(disk).contents(), record.extents@.take(record.extents_used as int), record.length as int) == bytes@
            },
            replace_refusal7(*old(self), identity, expected_version, bytes@.len() as int) is None && retry_record7(*old(self), identity) is None ==> {
                let index = find7(old(self).nodes@, identity.object, 0)->Some_0;
                let previous = old(self).nodes@[index];
                let sequence = (old(self).header.sequence + 1) as u64;
                &&& r matches Ok(rec) ==> {
                    &&& rec == tracked_record7(identity, expected_version, sequence, bytes@.len() as u32, spec_crc(bytes@), PayloadPlan { runs: rec.extents, used: rec.extents_used as usize })
                    &&& final(self).nodes@[index] == replaced7(previous, sequence, bytes@.len() as u32, spec_crc(bytes@), PayloadPlan { runs: rec.extents, used: rec.extents_used as usize })
                    &&& content7(final(disk).contents(), rec.extents@.take(rec.extents_used as int), rec.length as int) == bytes@
                    &&& !final(self).fenced
                    &&& forall|x: int| 0 <= x < DATA_SECTORS && #[trigger] covered(rec.extents@, rec.extents_used as int, x)
                        ==> !crate::volume7::stage::reserved7(old(self).stages@, x)
                    &&& published7(final(disk).contents(), final(self).header, *final(self))
                    &&& exists|sums: (u32, u32, u32)| final(self).header == #[trigger] with_sums7(candidate_of7(old(self).header), candidate_of7(old(self).header).generation, sums)
                }
                &&& r is Err ==> same_state7(*final(self), *old(self)) || cleared7(*final(self))
                &&& r == Err::<Record7, Error>(Error::Full) <==> forall|m: Seq<u64>| planned7(m, *old(self))
                    ==> #[trigger] greedy7(m, Seq::empty(), sectors_for(bytes@.len() as int)) is Err
                &&& r is Err && same_state7(*final(self), *old(self)) ==> r == Err::<Record7, Error>(Error::Full)
                    || (r == Err::<Record7, Error>(Error::Corrupt) && exists|plan: PayloadPlan| #[trigger] unsound_plan7(*old(self), identity, expected_version, bytes@, plan))
            },
    {
        self.ready()?;
        if bytes.len() > MAX_FILE_BYTES as usize {
            return Err(Error::Size);
        }
        let length = bytes.len() as u32;
        self.validate_identity(identity)?;
        if self.stage_holds_scope(identity) {
            return Err(Error::Busy);
        }
        if let Some(k) = self.find_retry(identity) {
            let record = match self.records[k] {
                Some(record) => record,
                None => {
                    return Err(Error::Corrupt);
                },
            };
            if record.object != identity.object || record.instance != identity.instance || record.previous != expected_version
                || record.length != length {
                return Err(Error::IdempotencyConflict);
            }
            if record.state != RecordState::DirectCommitted {
                return Err(Error::OutcomeUnknown);
            }
            return self.verify_retry(disk, record, bytes);
        }
        self.tracked_target(identity, expected_version)?;
        let planning = self.planning_map();
        let planned = plan_payload(planning.as_slice(), length as usize);
        proof {
            assert forall|m: Seq<u64>| planned7(m, *old(self)) implies #[trigger] greedy7(m, Seq::empty(), sectors_for(bytes@.len() as int))
                == greedy7(planning@, Seq::empty(), sectors_for(bytes@.len() as int)) by {
                lemma_planned_unique(m, planning@, *old(self));
            }
        }
        let plan = match planned {
            Ok(plan) => plan,
            Err(error) => {
                return Err(error);
            },
        };
        proof {
            assert forall|x: int| 0 <= x < DATA_SECTORS && #[trigger] covered(plan.runs@, plan.used as int, x)
                implies !crate::volume7::stage::reserved7(self.stages@, x) by {
                let k = choose|k: int| 0 <= k < plan.used && #[trigger] plan.runs@[k].start <= x < plan.runs@[k].start + plan.runs@[k].sectors;
                assert(crate::extent::free_run(planning@, plan.runs@[k].start as int, plan.runs@[k].sectors as int));
                assert(!bit(planning@, x));
            }
        }
        let ghost c0 = disk.contents();
        if write_runs(disk, PAYLOAD_SECTOR, &plan, bytes).is_err() {
            self.clear();
            self.fenced = true;
            return Err(Error::Uncertain);
        }
        let ghost c1 = disk.contents();
        let checksum = crc(bytes);
        let result = self.commit_tracked(disk, identity, expected_version, length, checksum, plan);
        proof {
            assert(greedy7(planning@, Seq::empty(), sectors_for(bytes@.len() as int)) is Ok);
            if result == Err::<Record7, Error>(Error::Corrupt) {
                assert(unsound_plan7(*old(self), identity, expected_version, bytes@, plan));
            }
            if result is Ok {
                let c2 = disk.contents();
                let runs = plan.runs@.take(plan.used as int);
                let h = self.header;
                assert forall|s: u64| s >= PAYLOAD_SECTOR implies #[trigger] c2[s] == c1[s] by {
                    assert(!(crate::volume7::mount::nodes_base7(h.generation) <= s < crate::volume7::mount::nodes_base7(h.generation) + 100));
                }
                assert forall|k: int| 0 <= k < runs.len() implies #[trigger] runs[k].start + runs[k].sectors <= DATA_SECTORS by {
                    assert(runs[k] == plan.runs@[k]);
                }
                assert forall|p: int| 0 <= p < length implies #[trigger] content7(c2, runs, length as int)[p] == bytes@[p] by {
                    crate::volume6::lemma_payload_byte_frame(c2, c1, PAYLOAD_SECTOR, runs, p);
                    assert(payload_byte(c1, PAYLOAD_SECTOR, runs, p) == padded_at(bytes@, p));
                }
                assert(content7(c2, runs, length as int) =~= bytes@);
            }
        }
        result
    }
}


} // verus!

verus! {

/// What finishing fresh replacement stage `s` on `v` (the owner once the
/// stage has ended) does: the rechecks of the borrowed-bytes replacement,
/// then the publication of the stage's checksum and plan.
pub open spec fn tracked_finish7(v: Volume7, fin: Volume7, c0: Map<u64, Seq<u8>>, c1: Map<u64, Seq<u8>>, s: StageSlot, plan: PayloadPlan,
    r: Result<Record7, Error>) -> bool {
    let identity = s.identity;
    let expected = s.expected_version;
    &&& find_retry7(v.records@, identity, 0) is Some ==> r == Err::<Record7, Error>(Error::IdempotencyConflict)
        && same_state7(fin, v) && c1 == c0
    &&& find_retry7(v.records@, identity, 0) is None && target_refusal7(v, identity, expected) is Some
        ==> r == Err::<Record7, Error>(target_refusal7(v, identity, expected)->Some_0) && same_state7(fin, v) && c1 == c0
    &&& find_retry7(v.records@, identity, 0) is None && target_refusal7(v, identity, expected) is None ==> {
        let index = find7(v.nodes@, identity.object, 0)->Some_0;
        let slot = free_slot7(v.records@, 0)->Some_0;
        let previous = v.nodes@[index];
        let sequence = (v.header.sequence + 1) as u64;
        let record = tracked_record7(identity, expected, sequence, s.length, !s.checksum, plan);
        &&& r matches Ok(rec) ==> {
            &&& rec == record
            &&& fin.nodes@ == v.nodes@.update(index, replaced7(previous, sequence, s.length, !s.checksum, plan))
            &&& fin.records@ == v.records@.update(slot, Some(record))
            &&& staged_map7(v.map@, fin.map@, plan, previous, v.records@)
            &&& committed7(c0, c1, v.header, fin)
        }
        &&& r is Err ==> (r == Err::<Record7, Error>(Error::Corrupt) && same_state7(fin, v) && c1 == c0)
            || (r == Err::<Record7, Error>(Error::Uncertain) && cleared7(fin))
        &&& r == Err::<Record7, Error>(Error::Corrupt) <==> !commit_sound7(v, previous, record, plan,
            v.nodes@.update(index, replaced7(previous, sequence, s.length, !s.checksum, plan)), v.records@.update(slot, Some(record)))
    }
}

impl Volume7 {
    /// Finish a fully supplied replacement stage.
    ///
    /// A stage of another kind or with bytes still expected is `Invalid` and
    /// stays open. Otherwise the stage ends. A checking retry returns its
    /// retained record without writes: a snapshot checksum mismatch is
    /// `Corrupt`, and a byte difference then `IdempotencyConflict`. A fresh
    /// stage, whose payload is already on the medium, rechecks the retry
    /// scope and the target and publishes as the borrowed-bytes replacement
    /// does.
    pub fn finish_tracked<D: Disk>(&mut self, disk: &mut D, stage: &mut Stage7) -> (r: Result<Record7, Error>)
        requires
            old(self).wf(),
        ensures
            final(self).wf(),
            *final(stage) == *old(stage),
            old(self).fenced ==> r == Err::<Record7, Error>(Error::Uncertain) && *final(self) == *old(self)
                && final(disk).contents() == old(disk).contents() && final(disk).requests() == old(disk).requests(),
            !old(self).fenced && !finishable7(*old(self), *old(stage), Stage7Kind::Replacement) ==> r == Err::<Record7, Error>(Error::Invalid)
                && *final(self) == *old(self) && final(disk).contents() == old(disk).contents() && final(disk).requests() == old(disk).requests(),
            !old(self).fenced && finishable7(*old(self), *old(stage), Stage7Kind::Replacement) ==> {
                let i = token_slot7(*old(self), *old(stage))->Some_0;
                let s = old(self).stages@[i]->Some_0;
                match s.mode {
                    StageMode::Retry { record, matches } => {
                        &&& final(disk).contents() == old(disk).contents()
                        &&& final(disk).requests() == old(disk).requests()
                        &&& stages_only7(*old(self), *final(self))
                        &&& final(self).stages@ == old(self).stages@.update(i, None)
                        &&& r == if !s.checksum != record.payload_crc32 {
                            Err::<Record7, Error>(Error::Corrupt)
                        } else if !matches {
                            Err::<Record7, Error>(Error::IdempotencyConflict)
                        } else {
                            Ok::<Record7, Error>(record)
                        }
                    },
                    StageMode::Fresh(plan) => exists|mid: Volume7| #[trigger] stages_only7(*old(self), mid)
                        && mid.stages@ == old(self).stages@.update(i, None)
                        && tracked_finish7(mid, *final(self), old(disk).contents(), final(disk).contents(), s, plan, r),
                }
            },
    {
        self.ready()?;
        let slot = self.take_finishable(stage, Stage7Kind::Replacement)?;
        match slot.mode {
            StageMode::Retry { record, matches } => {
                if slot.payload_crc() != record.payload_crc32 {
                    return Err(Error::Corrupt);
                }
                if !matches {
                    return Err(Error::IdempotencyConflict);
                }
                Ok(record)
            },
            StageMode::Fresh(plan) => {
                let ghost mid = *self;
                let ghost c0 = disk.contents();
                let r = self.commit_tracked(disk, slot.identity, slot.expected_version, slot.length, slot.payload_crc(), plan);
                proof {
                    assert(tracked_finish7(mid, *self, c0, disk.contents(), slot, plan, r));
                    assert(stages_only7(*old(self), mid));
                }
                r
            },
        }
    }
}

} // verus!
