//! The decisions of a pollable publication: an exact retry check or a
//! dual-generation publication advanced one device command at a time.
//!
//! The state here owns no device: each step names the command to submit, and
//! the caller reports how it settled. A candidate is a small delta on the
//! mounted generation (one retained slot, at most one record, added and
//! released runs); it is validated against the exact next header before any
//! of its bytes reach the device, and adopted only once the new header's flush
//! has settled.
use vstd::prelude::*;
use crate::extent::{Extent, DATA_SECTORS, MAP_WORDS, EXTENTS_PER_FILE, bit, set_bit};
use crate::format7::{Header7, NODES, Node7, RETAINED, Record7, MAX_EXTENTS};
use crate::format7::record::record7_local_ok;
use crate::format7::validation::{generation_valid7, validate_generation, holds7};
use crate::volume6::PayloadPlan;
use crate::volume7::Volume7;
use crate::volume7::publication::{lemma_zero_node, lemma_record_image_nonzero};
use crate::format7::node::{spec_decode_node7, empty_node7, lemma_node7_roundtrip};
use crate::format7::record::{spec_slot7, lemma_record7_roundtrip};
use crate::format7::{NODE_BYTES, RECEIPT_BLOCK_BYTES};
use crate::codec::{zero_range, put, put_u64, lemma_le64, take_array, spec_array, lemma_array, slices_equal};
use crate::checksum::{crc_fold, crc_update};
use crate::volume6::padded_at;
use crate::format7::header::encodes_header7;
use crate::format7::{PAYLOAD_SECTOR, HEADER_SECTOR, FIRST_GENERATION_SECTOR, GENERATIONS, GENERATION_SECTORS, NODES_SECTORS, MAP_SECTORS, RECEIPTS_SECTORS,
    nodes_sector, map_sector, receipts_sector, header_sector};
use vstd::bytes::{spec_u64_from_le_bytes, spec_u64_to_le_bytes};
use crate::Error;

verus! {

/// Where a publication stands.
#[derive(Clone, Copy, Debug, PartialEq, Eq, Structural)]
pub enum Publication7Phase {
    Retrying,
    Preparing,
    ReadyToPublish,
    /// The header may have been submitted; the final flush has not settled.
    Settling,
    Committed,
    Cancelled,
    Failed,
    Uncertain,
}

/// What stopping a publication before its header achieved.
#[derive(Clone, Copy, Debug, PartialEq, Eq, Structural)]
pub enum Publication7Cancel {
    Cancelled,
    TooLate,
    Draining,
}

/// A metadata delta on the mounted generation.
#[derive(Clone, Copy)]
pub struct Candidate7 {
    pub record_slot: usize,
    pub record: Record7,
    pub node_update: Option<(usize, Node7)>,
    pub added: PayloadPlan,
    pub released: [Extent; MAX_EXTENTS],
    pub released_used: usize,
}

/// The runs a candidate adds to the map.
pub open spec fn added7(c: Candidate7) -> Seq<Extent> {
    c.added.runs@.take(c.added.used as int)
}

/// The runs a candidate releases from the map.
pub open spec fn released7(c: Candidate7) -> Seq<Extent> {
    c.released@.take(c.released_used as int)
}

/// The record table with the candidate applied.
pub open spec fn cand_nodes7(nodes: Seq<Node7>, c: Candidate7) -> Seq<Node7> {
    match c.node_update {
        Some(update) => nodes.update(update.0 as int, update.1),
        None => nodes,
    }
}

/// The retained slots with the candidate applied.
pub open spec fn cand_records7(records: Seq<Option<Record7>>, c: Candidate7) -> Seq<Option<Record7>> {
    records.update(c.record_slot as int, Some(c.record))
}

/// The header a publication from `h` writes: the next sequence, into the
/// other generation.
pub open spec fn next_header7(h: Header7) -> Header7 {
    Header7 { sequence: (h.sequence + 1) as u64, generation: h.generation ^ 1u8, ..h }
}

/// `new` is `old` with `added` marked and then `released` cleared.
pub open spec fn map_delta(old: Seq<u64>, new: Seq<u64>, added: Seq<Extent>, released: Seq<Extent>) -> bool {
    &&& new.len() == old.len()
    &&& forall|s: int| 0 <= s < DATA_SECTORS ==> #[trigger] bit(new, s) == ((bit(old, s) || holds7(added, s)) && !holds7(released, s))
}

/// Every run lies in the payload region.
pub open spec fn runs_bounded(runs: Seq<Extent>) -> bool {
    forall|k: int| 0 <= k < runs.len() ==> #[trigger] runs[k].start + runs[k].sectors <= DATA_SECTORS
}

/// A candidate's shape: its slots exist, its runs lie in the region and its
/// records fit the owner's tables.
pub open spec fn candidate_shaped7(c: Candidate7) -> bool {
    &&& c.record_slot < RETAINED
    &&& c.record.extents_used <= 8
    &&& c.added.used <= EXTENTS_PER_FILE
    &&& c.released_used <= MAX_EXTENTS
    &&& runs_bounded(added7(c))
    &&& runs_bounded(released7(c))
    &&& c.node_update matches Some(u) ==> u.0 < NODES && u.1.name_length <= 32 && u.1.extents_used <= 8
}

/// Whether the candidate on `v` is a valid next generation: its record is
/// sound on its own, the sequence can advance, and the generation it makes,
/// under the next header and any map holding exactly its bits, is valid.
pub open spec fn candidate_valid7(v: Volume7, c: Candidate7, map: Seq<u64>) -> bool {
    &&& record7_local_ok(c.record)
    &&& v.header.sequence < u64::MAX
    &&& generation_valid7(next_header7(v.header), cand_nodes7(v.nodes@, c), cand_records7(v.records@, c), map)
}

impl Candidate7 {
    /// A candidate that only replaces retained slot `record_slot`.
    pub fn empty(record_slot: usize, record: Record7) -> (r: Self)
        ensures
            r.record_slot == record_slot,
            r.record == record,
            r.node_update is None,
            r.added.used == 0,
            r.released_used == 0,
            record_slot < RETAINED && record.extents_used <= 8 ==> candidate_shaped7(r),
    {
        let c = Candidate7 {
            record_slot,
            record,
            node_update: None,
            added: PayloadPlan::empty(),
            released: [Extent { start: 0, sectors: 0 }; MAX_EXTENTS],
            released_used: 0,
        };
        assert(added7(c).len() == 0);
        assert(released7(c).len() == 0);
        c
    }
}

/// Validity reads the map only through its bits.
proof fn lemma_valid_same_bits(h: Header7, nodes: Seq<Node7>, records: Seq<Option<Record7>>, m1: Seq<u64>, m2: Seq<u64>)
    requires
        forall|s: int| 0 <= s < DATA_SECTORS ==> #[trigger] bit(m1, s) == bit(m2, s),
    ensures
        generation_valid7(h, nodes, records, m1) == generation_valid7(h, nodes, records, m2),
{
    if generation_valid7(h, nodes, records, m1) {
        assert forall|s: int| 0 <= s < DATA_SECTORS implies #[trigger] bit(m2, s) == holds7(crate::format7::validation::owned7(nodes, records), s) by {
            assert(bit(m1, s) == bit(m2, s));
        }
    }
    if generation_valid7(h, nodes, records, m2) {
        assert forall|s: int| 0 <= s < DATA_SECTORS implies #[trigger] bit(m1, s) == holds7(crate::format7::validation::owned7(nodes, records), s) by {
            assert(bit(m1, s) == bit(m2, s));
        }
    }
}

/// Mark (or clear) every sector of `runs` in `map`.
pub(crate) fn mutate_map(map: &mut Vec<u64>, runs: &[Extent], allocated: bool)
    requires
        old(map)@.len() == MAP_WORDS,
        runs_bounded(runs@),
    ensures
        final(map)@.len() == MAP_WORDS,
        forall|s: int| 0 <= s < DATA_SECTORS ==> #[trigger] bit(final(map)@, s) == if holds7(runs@, s) {
            allocated
        } else {
            bit(old(map)@, s)
        },
{
    let ghost w0 = map@;
    let mut k: usize = 0;
    while k < runs.len()
        invariant
            0 <= k <= runs@.len(),
            map@.len() == MAP_WORDS,
            runs_bounded(runs@),
            forall|s: int| 0 <= s < DATA_SECTORS ==> #[trigger] bit(map@, s) == if holds7(runs@.take(k as int), s) {
                allocated
            } else {
                bit(w0, s)
            },
        decreases runs@.len() - k,
    {
        let run = runs[k];
        assert(run.start + run.sectors <= DATA_SECTORS);
        let end = run.start + run.sectors;
        let mut sector = run.start;
        while sector < end
            invariant
                run.start <= sector <= end,
                end == run.start + run.sectors,
                end <= DATA_SECTORS,
                map@.len() == MAP_WORDS,
                0 <= k < runs@.len(),
                run == runs@[k as int],
                forall|s: int| 0 <= s < DATA_SECTORS ==> #[trigger] bit(map@, s) == if holds7(runs@.take(k as int), s) || (run.start <= s < sector) {
                    allocated
                } else {
                    bit(w0, s)
                },
            decreases end - sector,
        {
            set_bit(map, sector, allocated);
            sector = sector + 1;
        }
        proof {
            let before = runs@.take(k as int);
            let after = runs@.take(k + 1);
            assert forall|s: int| 0 <= s < DATA_SECTORS implies #[trigger] holds7(after, s) == (holds7(before, s) || (run.start <= s < end)) by {
                if holds7(after, s) {
                    let j = choose|j: int| 0 <= j < after.len() && #[trigger] after[j].start <= s < after[j].start + after[j].sectors;
                    if j < k {
                        assert(before[j] == after[j]);
                    }
                }
                if holds7(before, s) {
                    let j = choose|j: int| 0 <= j < before.len() && #[trigger] before[j].start <= s < before[j].start + before[j].sectors;
                    assert(after[j] == before[j]);
                }
                if run.start <= s < end {
                    assert(after[k as int] == run);
                }
            }
        }
        k = k + 1;
    }
    assert(runs@.take(runs@.len() as int) =~= runs@);
}


/// Validate the candidate against the exact next header before any of its
/// bytes reach the device. The delta is applied in place and taken back
/// afterwards: the records and slots are restored exactly, and each map bit
/// ends as it was, marked if released, cleared if added.
pub(crate) fn validate_candidate(volume: &mut Volume7, candidate: Candidate7) -> (r: Result<(), Error>)
    requires
        old(volume).wf(),
        candidate_shaped7(candidate),
    ensures
        final(volume).wf(),
        final(volume).header == old(volume).header,
        final(volume).nodes == old(volume).nodes,
        final(volume).records == old(volume).records,
        final(volume).fenced == old(volume).fenced,
        final(volume).recovered_from_header == old(volume).recovered_from_header,
        final(volume).stages == old(volume).stages,
        final(volume).stage_owner == old(volume).stage_owner,
        final(volume).stage_nonce == old(volume).stage_nonce,
        !(record7_local_ok(candidate.record) && old(volume).header.sequence < u64::MAX) ==> *final(volume) == *old(volume),
        record7_local_ok(candidate.record) && old(volume).header.sequence < u64::MAX ==> forall|s: int| 0 <= s < DATA_SECTORS
            ==> #[trigger] bit(final(volume).map@, s) == ((bit(old(volume).map@, s) || holds7(released7(candidate), s)) && !holds7(added7(candidate), s)),
        forall|m: Seq<u64>| #[trigger] map_delta(old(volume).map@, m, added7(candidate), released7(candidate))
            ==> (r is Ok <==> candidate_valid7(*old(volume), candidate, m)),
        r is Err ==> r == Err::<(), Error>(Error::Corrupt) || r == Err::<(), Error>(Error::Exhausted),
        r == Err::<(), Error>(Error::Exhausted) <==> record7_local_ok(candidate.record) && old(volume).header.sequence == u64::MAX,
{
    let ghost v0 = *volume;
    if candidate.record.encode().is_err() {
        return Err(Error::Corrupt);
    }
    let sequence = match volume.header.sequence.checked_add(1) {
        Some(s) => s,
        None => {
            return Err(Error::Exhausted);
        },
    };
    let header = Header7 { sequence, generation: volume.header.generation ^ 1, ..volume.header };
    assert(header == next_header7(v0.header));
    let slot = candidate.record_slot;
    let old_record = volume.records[slot];
    let old_node = match candidate.node_update {
        Some((index, _)) => Some((index, volume.nodes[index])),
        None => None,
    };
    volume.records[slot] = Some(candidate.record);
    match candidate.node_update {
        Some((index, node)) => {
            volume.nodes[index] = node;
        },
        None => {},
    }
    let added = candidate.added.runs();
    let released = vstd::slice::slice_subrange(candidate.released.as_slice(), 0, candidate.released_used);
    mutate_map(&mut volume.map, added, true);
    mutate_map(&mut volume.map, released, false);
    let ghost mid = volume.map@;
    proof {
        assert(volume.nodes@ == cand_nodes7(v0.nodes@, candidate));
        assert(volume.records@ == cand_records7(v0.records@, candidate));
        assert(map_delta(v0.map@, mid, added7(candidate), released7(candidate)));
    }
    let mut scratch: Vec<u64> = Vec::new();
    core::mem::swap(&mut scratch, &mut volume.validation);
    let result = validate_generation(&header, &volume.nodes, &volume.records, volume.map.as_slice(), &mut scratch);
    volume.validation = scratch;
    mutate_map(&mut volume.map, released, true);
    mutate_map(&mut volume.map, added, false);
    volume.records[slot] = old_record;
    match old_node {
        Some((index, node)) => {
            volume.nodes[index] = node;
        },
        None => {},
    }
    proof {
        assert(volume.records@ =~= v0.records@);
        assert(volume.nodes@ =~= v0.nodes@);
        crate::codec::lemma_array_view_eq(volume.records, v0.records);
        crate::codec::lemma_array_view_eq(volume.nodes, v0.nodes);
        assert forall|m: Seq<u64>| #[trigger] map_delta(v0.map@, m, added7(candidate), released7(candidate))
            implies (result is Ok <==> candidate_valid7(v0, candidate, m)) by {
            lemma_valid_same_bits(header, cand_nodes7(v0.nodes@, candidate), cand_records7(v0.records@, candidate), m, mid);
        }
    }
    result
}

/// Adopt a published candidate and the header that names it.
pub(crate) fn adopt_candidate(volume: &mut Volume7, candidate: Candidate7, header: Header7)
    requires
        old(volume).wf(),
        candidate_shaped7(candidate),
    ensures
        final(volume).wf(),
        final(volume).header == header,
        final(volume).nodes@ == cand_nodes7(old(volume).nodes@, candidate),
        final(volume).records@ == cand_records7(old(volume).records@, candidate),
        map_delta(old(volume).map@, final(volume).map@, added7(candidate), released7(candidate)),
        final(volume).validation == old(volume).validation,
        final(volume).fenced == old(volume).fenced,
        final(volume).recovered_from_header == old(volume).recovered_from_header,
{
    volume.records[candidate.record_slot] = Some(candidate.record);
    match candidate.node_update {
        Some((index, node)) => {
            volume.nodes[index] = node;
        },
        None => {},
    }
    let added = candidate.added.runs();
    let released = vstd::slice::slice_subrange(candidate.released.as_slice(), 0, candidate.released_used);
    mutate_map(&mut volume.map, added, true);
    mutate_map(&mut volume.map, released, false);
    volume.header = header;
    proof {
        assert forall|i: int| 0 <= i < NODES implies (#[trigger] volume.nodes@[i]).name_length <= 32 && volume.nodes@[i].extents_used <= 8 by {
            assert(old(volume).nodes@[i].name_length <= 32);
        }
        assert forall|k: int| 0 <= k < RETAINED implies (#[trigger] volume.records@[k] matches Some(r) ==> r.extents_used <= 8) by {
            assert(old(volume).records@[k] matches Some(r) ==> r.extents_used <= 8);
        }
    }
}


/// The command a publication is at.
#[derive(Clone, Copy, Debug, PartialEq, Eq, Structural)]
pub enum Step7 {
    RetryRead(u64),
    PayloadWrite(u64),
    PayloadFlush,
    NodesWrite(u64),
    MapWrite(u64),
    ReceiptsWrite(u64),
    MetadataFlush,
    HeaderWrite,
    HeaderFlush,
    Done,
}

/// A device command to submit: read one sector, write one, or flush.
#[derive(Clone, Copy, Debug, PartialEq, Eq)]
pub enum Command7 {
    Read(u64),
    Write(u64, [u8; 512]),
    Flush,
}

/// Sector `i` of `runs`, counting through the runs in order.
pub open spec fn sector_of(runs: Seq<Extent>, i: int) -> Option<int>
    decreases runs.len(),
{
    if runs.len() == 0 || i < 0 {
        None
    } else if i < runs[0].sectors {
        Some(runs[0].start + i)
    } else {
        sector_of(runs.subrange(1, runs.len() as int), i - runs[0].sectors)
    }
}

/// Sectors `runs` hold, counted front to back.
pub open spec fn run_count(runs: Seq<Extent>) -> int
    decreases runs.len(),
{
    if runs.len() == 0 {
        0
    } else {
        runs[0].sectors + run_count(runs.subrange(1, runs.len() as int))
    }
}

/// Sector `index` of `runs`, if they hold that many.
pub(crate) fn nth_sector(runs: &[Extent], index: u64) -> (r: Option<u64>)
    requires
        runs_bounded(runs@),
    ensures
        match r {
            Some(x) => sector_of(runs@, index as int) == Some(x as int),
            None => sector_of(runs@, index as int) is None,
        },
{
    let mut k: usize = 0;
    let mut rest = index;
    assert(runs@.subrange(0, runs@.len() as int) =~= runs@);
    while k < runs.len()
        invariant
            0 <= k <= runs@.len(),
            runs_bounded(runs@),
            sector_of(runs@, index as int) == sector_of(runs@.subrange(k as int, runs@.len() as int), rest as int),
        decreases runs@.len() - k,
    {
        let run = runs[k];
        let ghost tail = runs@.subrange(k as int, runs@.len() as int);
        assert(tail[0] == run);
        assert(tail.subrange(1, tail.len() as int) =~= runs@.subrange(k + 1, runs@.len() as int));
        if rest < run.sectors {
            assert(run.start + run.sectors <= DATA_SECTORS);
            return Some(run.start + rest);
        }
        rest = rest - run.sectors;
        k = k + 1;
    }
    None
}

/// Sectors `runs` hold.
fn count_sectors(runs: &[Extent]) -> (r: u64)
    requires
        runs_bounded(runs@),
        runs@.len() <= 8,
    ensures
        r == run_count(runs@),
{
    let mut k: usize = runs.len();
    let mut total: u64 = 0;
    while k > 0
        invariant
            0 <= k <= runs@.len(),
            runs@.len() <= 8,
            runs_bounded(runs@),
            total == run_count(runs@.subrange(k as int, runs@.len() as int)),
            total <= (runs@.len() - k) * DATA_SECTORS,
        decreases k,
    {
        k = k - 1;
        let run = runs[k];
        let ghost tail = runs@.subrange(k as int, runs@.len() as int);
        assert(tail[0] == run);
        assert(tail.subrange(1, tail.len() as int) =~= runs@.subrange(k + 1, runs@.len() as int));
        assert(run.start + run.sectors <= DATA_SECTORS);
        total = total + run.sectors;
    }
    assert(runs@.subrange(0, runs@.len() as int) =~= runs@);
    total
}

/// A sector found in bounded runs lies in the region.
pub(crate) proof fn lemma_sector_bounded(runs: Seq<Extent>, i: int)
    requires
        runs_bounded(runs),
    ensures
        sector_of(runs, i) matches Some(x) ==> 0 <= x < DATA_SECTORS,
    decreases runs.len(),
{
    if runs.len() > 0 && i >= runs[0].sectors {
        let tail = runs.subrange(1, runs.len() as int);
        assert forall|k: int| 0 <= k < tail.len() implies #[trigger] tail[k].start + tail[k].sectors <= DATA_SECTORS by {
            assert(tail[k] == runs[k + 1]);
        }
        lemma_sector_bounded(tail, i - runs[0].sectors);
    }
}

/// Runs hold no negative count of sectors.
proof fn lemma_run_count_nonneg(runs: Seq<Extent>)
    ensures
        run_count(runs) >= 0,
    decreases runs.len(),
{
    if runs.len() > 0 {
        lemma_run_count_nonneg(runs.subrange(1, runs.len() as int));
    }
}

/// Every sector below the count of bounded runs exists.
proof fn lemma_sector_exists(runs: Seq<Extent>, i: int)
    requires
        0 <= i < run_count(runs),
    ensures
        sector_of(runs, i) is Some,
    decreases runs.len(),
{
    if runs.len() > 0 && i >= runs[0].sectors {
        lemma_sector_exists(runs.subrange(1, runs.len() as int), i - runs[0].sectors);
    }
}

/// A single retry check or storage publication, advanced one device command
/// at a time. It owns only the candidate delta, one sector of scratch and its
/// progress; the owner, the device and the caller's bytes are lent to each
/// call.
pub struct PollPublication7 {
    candidate: Option<Candidate7>,
    bytes_len: Option<usize>,
    retry_record: Option<Record7>,
    retry_matches: bool,
    retry_checksum: u32,
    payload_offset: usize,
    step: Step7,
    phase: Publication7Phase,
    result: Option<Record7>,
    error: Option<Error>,
    pending: bool,
    stopping: bool,
    io_started: bool,
    block_prepared: bool,
    block: [u8; 512],
    nodes_checksum: u32,
    map_checksum: u32,
    receipts_checksum: u32,
    published_header: Option<Header7>,
}

impl PollPublication7 {
    pub closed spec fn spec_candidate(&self) -> Option<Candidate7> {
        self.candidate
    }

    pub closed spec fn spec_bytes_len(&self) -> Option<usize> {
        self.bytes_len
    }

    pub closed spec fn spec_retry_record(&self) -> Option<Record7> {
        self.retry_record
    }

    pub closed spec fn spec_retry_matches(&self) -> bool {
        self.retry_matches
    }

    pub closed spec fn spec_retry_checksum(&self) -> u32 {
        self.retry_checksum
    }

    pub closed spec fn spec_offset(&self) -> usize {
        self.payload_offset
    }

    pub closed spec fn spec_step(&self) -> Step7 {
        self.step
    }

    pub closed spec fn spec_phase(&self) -> Publication7Phase {
        self.phase
    }

    pub closed spec fn spec_result(&self) -> Option<Record7> {
        self.result
    }

    pub closed spec fn spec_error(&self) -> Option<Error> {
        self.error
    }

    pub closed spec fn spec_pending(&self) -> bool {
        self.pending
    }

    pub closed spec fn spec_stopping(&self) -> bool {
        self.stopping
    }

    pub closed spec fn spec_io_started(&self) -> bool {
        self.io_started
    }

    pub closed spec fn spec_prepared(&self) -> bool {
        self.block_prepared
    }

    pub closed spec fn spec_block(&self) -> Seq<u8> {
        self.block@
    }

    pub closed spec fn spec_sums(&self) -> (u32, u32, u32) {
        (self.nodes_checksum, self.map_checksum, self.receipts_checksum)
    }

    pub closed spec fn spec_published(&self) -> Option<Header7> {
        self.published_header
    }

    /// The publication's own invariant: what each step needs is present and
    /// in range.
    pub open spec fn wf(&self) -> bool {
        &&& self.spec_candidate() matches Some(c) ==> candidate_shaped7(c)
        &&& self.spec_retry_record() matches Some(r) ==> r.extents_used <= 8 && runs_bounded(r.extents@.take(r.extents_used as int))
        &&& self.spec_bytes_len() matches Some(n) ==> self.spec_offset() <= n
        &&& self.spec_step() == Step7::Done ==> self.spec_phase() == Publication7Phase::Committed && !self.spec_pending()
        &&& match self.spec_step() {
            Step7::RetryRead(i) => self.spec_retry_record() is Some && self.spec_bytes_len() is Some && {
                let rec = self.spec_retry_record()->Some_0;
                let total = run_count(rec.extents@.take(rec.extents_used as int));
                i < total || (i == 0 && total == 0)
            },
            Step7::PayloadWrite(i) => self.spec_candidate() is Some && self.spec_bytes_len() is Some
                && i < run_count(added7(self.spec_candidate()->Some_0)),
            Step7::NodesWrite(i) => self.spec_candidate() is Some && i < 64,
            Step7::MapWrite(i) => self.spec_candidate() is Some && i < 32,
            Step7::ReceiptsWrite(i) => self.spec_candidate() is Some && i < 4,
            Step7::PayloadFlush | Step7::MetadataFlush => self.spec_candidate() is Some,
            Step7::HeaderWrite | Step7::HeaderFlush => self.spec_candidate() is Some && self.spec_published() is Some,
            Step7::Done => true,
        }
    }

    /// A publication of `candidate`, fencing `volume` until it settles. With
    /// caller bytes of `bytes_len` it starts by writing them into the added
    /// runs, or by flushing when none are added; without, at the metadata.
    pub(crate) fn publish(volume: &mut Volume7, candidate: Candidate7, bytes_len: Option<usize>) -> (r: Self)
        requires
            candidate_shaped7(candidate),
        ensures
            r.wf(),
            final(volume).fenced,
            *final(volume) == (Volume7 { fenced: true, ..*old(volume) }),
            r.spec_candidate() == Some(candidate),
            r.spec_bytes_len() == bytes_len,
            r.spec_retry_record() is None,
            r.spec_phase() == Publication7Phase::Preparing,
            r.spec_step() == if bytes_len is Some && run_count(added7(candidate)) != 0 {
                Step7::PayloadWrite(0)
            } else if bytes_len is Some {
                Step7::PayloadFlush
            } else {
                Step7::NodesWrite(0)
            },
            r.spec_result() is None,
            !r.spec_pending() && !r.spec_stopping() && !r.spec_io_started() && !r.spec_prepared(),
            r.spec_offset() == 0,
            r.spec_sums() == (0xffff_ffffu32, 0xffff_ffffu32, 0xffff_ffffu32),
            r.spec_published() is None,
    {
        volume.fenced = true;
        let added = count_sectors(candidate.added.runs());
        let step = if bytes_len.is_some() && added != 0 {
            Step7::PayloadWrite(0)
        } else if bytes_len.is_some() {
            Step7::PayloadFlush
        } else {
            Step7::NodesWrite(0)
        };
        PollPublication7 {
            candidate: Some(candidate),
            bytes_len,
            retry_record: None,
            retry_matches: true,
            retry_checksum: 0xffff_ffffu32,
            payload_offset: 0,
            step,
            phase: Publication7Phase::Preparing,
            result: None,
            error: None,
            pending: false,
            stopping: false,
            io_started: false,
            block_prepared: false,
            block: [0u8; 512],
            nodes_checksum: 0xffff_ffffu32,
            map_checksum: 0xffff_ffffu32,
            receipts_checksum: 0xffff_ffffu32,
            published_header: None,
        }
    }

    /// An exact retry check of `record`'s snapshot against caller bytes of
    /// `bytes_len`, fencing `volume` until it settles.
    pub(crate) fn retry(volume: &mut Volume7, record: Record7, bytes_len: usize) -> (r: Self)
        requires
            record.extents_used <= 8,
            runs_bounded(record.extents@.take(record.extents_used as int)),
        ensures
            r.wf(),
            *final(volume) == (Volume7 { fenced: true, ..*old(volume) }),
            r.spec_candidate() is None,
            r.spec_bytes_len() == Some(bytes_len),
            r.spec_retry_record() == Some(record),
            r.spec_retry_matches(),
            r.spec_retry_checksum() == 0xffff_ffffu32,
            r.spec_offset() == 0,
            r.spec_step() == Step7::RetryRead(0),
            r.spec_phase() == Publication7Phase::Retrying,
            r.spec_result() is None,
            !r.spec_pending() && !r.spec_stopping() && !r.spec_io_started() && !r.spec_prepared(),
    {
        proof {
            lemma_run_count_nonneg(record.extents@.take(record.extents_used as int));
        }
        volume.fenced = true;
        PollPublication7 {
            candidate: None,
            bytes_len: Some(bytes_len),
            retry_record: Some(record),
            retry_matches: true,
            retry_checksum: 0xffff_ffffu32,
            payload_offset: 0,
            step: Step7::RetryRead(0),
            phase: Publication7Phase::Retrying,
            result: None,
            error: None,
            pending: false,
            stopping: false,
            io_started: false,
            block_prepared: false,
            block: [0u8; 512],
            nodes_checksum: 0xffff_ffffu32,
            map_checksum: 0xffff_ffffu32,
            receipts_checksum: 0xffff_ffffu32,
            published_header: None,
        }
    }

    /// A publication of `candidate` whose payload a stage already wrote: it
    /// starts at the payload flush, so the barriers after the payload match
    /// those of a publication that writes the payload itself.
    pub(crate) fn staged(volume: &mut Volume7, candidate: Candidate7) -> (r: Self)
        requires
            candidate_shaped7(candidate),
        ensures
            r.wf(),
            *final(volume) == (Volume7 { fenced: true, ..*old(volume) }),
            r.spec_candidate() == Some(candidate),
            r.spec_bytes_len() is None,
            r.spec_retry_record() is None,
            r.spec_phase() == Publication7Phase::Preparing,
            r.spec_step() == Step7::PayloadFlush,
            r.spec_result() is None,
            !r.spec_pending() && !r.spec_stopping() && !r.spec_io_started() && !r.spec_prepared(),
            r.spec_offset() == 0,
            r.spec_sums() == (0xffff_ffffu32, 0xffff_ffffu32, 0xffff_ffffu32),
            r.spec_published() is None,
    {
        let mut publication = Self::publish(volume, candidate, None);
        publication.step = Step7::PayloadFlush;
        publication
    }

    /// An already settled publication answering with `record`.
    pub(crate) fn replay(record: Record7) -> (r: Self)
        ensures
            r.wf(),
            r.spec_phase() == Publication7Phase::Committed,
            r.spec_result() == Some(record),
            r.spec_step() == Step7::Done,
            !r.spec_pending(),
    {
        PollPublication7 {
            candidate: None,
            bytes_len: None,
            retry_record: None,
            retry_matches: true,
            retry_checksum: 0xffff_ffffu32,
            payload_offset: 0,
            step: Step7::Done,
            phase: Publication7Phase::Committed,
            result: Some(record),
            error: None,
            pending: false,
            stopping: false,
            io_started: false,
            block_prepared: false,
            block: [0u8; 512],
            nodes_checksum: 0xffff_ffffu32,
            map_checksum: 0xffff_ffffu32,
            receipts_checksum: 0xffff_ffffu32,
            published_header: None,
        }
    }

    pub fn phase(&self) -> (r: Publication7Phase)
        ensures
            r == self.spec_phase(),
    {
        self.phase
    }

    /// The durable record, hidden until the retry check or the header flush
    /// has settled.
    pub fn result(&self) -> (r: Option<Record7>)
        ensures
            r == if self.spec_phase() == Publication7Phase::Committed {
                self.spec_result()
            } else {
                None
            },
    {
        if self.phase == Publication7Phase::Committed {
            self.result
        } else {
            None
        }
    }

    pub fn pending(&self) -> (r: bool)
        ensures
            r == self.spec_pending(),
    {
        self.pending
    }

    /// The command step the publication is at.
    pub fn step(&self) -> (r: Step7)
        ensures
            r == self.spec_step(),
    {
        self.step
    }

    /// Stop before the header is submitted. An outstanding command must settle
    /// first (`Draining`); once the header may be out, stopping is too late
    /// and settlement decides the mounted head.
    pub fn abort_before_header(&mut self, volume: &mut Volume7) -> (r: Result<Publication7Cancel, Error>)
        requires
            old(self).wf(),
        ensures
            final(self).wf(),
            r == spec_abort7(old(self).spec_phase(), old(self).spec_pending(), old(self).spec_error()),
            final(self).spec_stopping() == (old(self).spec_stopping() || r == Ok::<Publication7Cancel, Error>(Publication7Cancel::Draining)),
            final(self).spec_phase() == if r == Ok::<Publication7Cancel, Error>(Publication7Cancel::Cancelled) {
                Publication7Phase::Cancelled
            } else {
                old(self).spec_phase()
            },
            r == Ok::<Publication7Cancel, Error>(Publication7Cancel::Cancelled) && old(self).spec_phase() != Publication7Phase::Cancelled
                ==> *final(volume) == (Volume7 { fenced: false, ..*old(volume) }),
            !(r == Ok::<Publication7Cancel, Error>(Publication7Cancel::Cancelled) && old(self).spec_phase() != Publication7Phase::Cancelled)
                ==> *final(volume) == *old(volume),
            final(self).spec_step() == old(self).spec_step(),
            final(self).spec_candidate() == old(self).spec_candidate(),
    {
        match self.phase {
            Publication7Phase::Settling | Publication7Phase::Committed => Ok(Publication7Cancel::TooLate),
            Publication7Phase::Uncertain | Publication7Phase::Failed => Err(match self.error {
                Some(e) => e,
                None => Error::Uncertain,
            }),
            Publication7Phase::Cancelled => Ok(Publication7Cancel::Cancelled),
            _ => {
                if self.pending {
                    self.stopping = true;
                    return Ok(Publication7Cancel::Draining);
                }
                self.phase = Publication7Phase::Cancelled;
                volume.fenced = false;
                Ok(Publication7Cancel::Cancelled)
            },
        }
    }
}

/// What stopping before the header answers in `phase`.
pub open spec fn spec_abort7(phase: Publication7Phase, pending: bool, error: Option<Error>) -> Result<Publication7Cancel, Error> {
    match phase {
        Publication7Phase::Settling | Publication7Phase::Committed => Ok(Publication7Cancel::TooLate),
        Publication7Phase::Uncertain | Publication7Phase::Failed => Err(match error {
            Some(e) => e,
            None => Error::Uncertain,
        }),
        Publication7Phase::Cancelled => Ok(Publication7Cancel::Cancelled),
        _ => if pending {
            Ok(Publication7Cancel::Draining)
        } else {
            Ok(Publication7Cancel::Cancelled)
        },
    }
}


/// Bit `j` of word `w`.
pub open spec fn word_bit(w: u64, j: int) -> bool {
    w & (1u64 << (j as u64)) != 0
}

/// Word `index` of the map goes from `old` to `new` under the delta: a bit is
/// set exactly when it was or its sector is added, and its sector is not
/// released.
pub open spec fn word_delta(old: u64, new: u64, index: int, added: Seq<Extent>, released: Seq<Extent>) -> bool {
    forall|j: int| 0 <= j < 64 ==> #[trigger] word_bit(new, j) == ((word_bit(old, j) || holds7(added, 64 * index + j)) && !holds7(released, 64 * index + j))
}

/// Node sector `sector` of a table holding `nodes`.
pub open spec fn nodes_block_ok(block: Seq<u8>, nodes: Seq<Node7>, sector: int) -> bool {
    &&& block.len() == 512
    &&& forall|o: int| 0 <= o < 4 ==> #[trigger] spec_decode_node7(block.subrange(128 * o, 128 * o + 128)) == Ok::<Node7, Error>(nodes[4 * sector + o])
}

/// Map sector `sector` of `map` under the delta.
pub open spec fn map_block_ok(block: Seq<u8>, map: Seq<u64>, sector: int, added: Seq<Extent>, released: Seq<Extent>) -> bool {
    &&& block.len() == 512
    &&& forall|o: int| 0 <= o < 64 ==> #[trigger] word_delta(map[64 * sector + o], spec_u64_from_le_bytes(block.subrange(8 * o, 8 * o + 8)), 64 * sector + o, added, released)
}

/// A receipt block holding `records`, zero past the retained slots.
pub open spec fn receipts_image_ok(full: Seq<u8>, records: Seq<Option<Record7>>) -> bool {
    &&& full.len() == 2048
    &&& forall|k: int| 0 <= k < RETAINED ==> Ok::<Option<Record7>, Error>(#[trigger] records[k]) == spec_slot7(full.subrange(192 * k, 192 * k + 192))
    &&& zero_range(full, 1536, 2048)
}

/// Bit operations on one sector's bit of a word.
proof fn lemma_word_bits(w: u64, k: u64, j: u64)
    requires
        k < 64,
        j < 64,
    ensures
        ((w | (1u64 << k)) & (1u64 << j) != 0) == ((w & (1u64 << j) != 0) || k == j),
        ((w & !(1u64 << k)) & (1u64 << j) != 0) == ((w & (1u64 << j) != 0) && k != j),
{
    assert(((w | (1u64 << k)) & (1u64 << j) != 0) == ((w & (1u64 << j) != 0) || k == j)) by (bit_vector)
        requires
            k < 64,
            j < 64,
    ;
    assert(((w & !(1u64 << k)) & (1u64 << j) != 0) == ((w & (1u64 << j) != 0) && k != j)) by (bit_vector)
        requires
            k < 64,
            j < 64,
    ;
}

/// Mark (or clear) the sectors of `runs` that fall in word `index`.
fn mutate_word(word: &mut u64, index: usize, runs: &[Extent], allocated: bool)
    requires
        index < MAP_WORDS,
        runs_bounded(runs@),
    ensures
        forall|j: int| 0 <= j < 64 ==> #[trigger] word_bit(*final(word), j) == if holds7(runs@, 64 * index + j) {
            allocated
        } else {
            word_bit(*old(word), j)
        },
{
    let ghost w0 = *word;
    let first_sector = index as u64 * 64;
    let end_sector = first_sector + 64;
    let mut k: usize = 0;
    while k < runs.len()
        invariant
            0 <= k <= runs@.len(),
            index < MAP_WORDS,
            first_sector == 64 * index,
            end_sector == first_sector + 64,
            runs_bounded(runs@),
            forall|j: int| 0 <= j < 64 ==> #[trigger] word_bit(*word, j) == if holds7(runs@.take(k as int), 64 * index + j) {
                allocated
            } else {
                word_bit(w0, j)
            },
        decreases runs@.len() - k,
    {
        let run = runs[k];
        assert(run.start + run.sectors <= DATA_SECTORS);
        let run_end = run.start + run.sectors;
        let first = if run.start > first_sector { run.start } else { first_sector };
        let end = if run_end < end_sector { run_end } else { end_sector };
        let mut sector = first;
        while sector < end
            invariant
                first <= sector,
                sector <= end || sector == first,
                first == if run.start > first_sector { run.start } else { first_sector },
                end == if run_end < end_sector { run_end } else { end_sector },
                run_end == run.start + run.sectors,
                first_sector == 64 * index,
                end_sector == first_sector + 64,
                run == runs@[k as int],
                0 <= k < runs@.len(),
                forall|j: int| 0 <= j < 64 ==> #[trigger] word_bit(*word, j) == if holds7(runs@.take(k as int), 64 * index + j) || (first <= 64 * index + j < sector) {
                    allocated
                } else {
                    word_bit(w0, j)
                },
            decreases end - sector,
        {
            let shift = sector % 64;
            let bit_mask = 1u64 << shift;
            let ghost before = *word;
            if allocated {
                *word = *word | bit_mask;
            } else {
                *word = *word & !bit_mask;
            }
            proof {
                assert(shift == sector - first_sector);
                assert forall|j: int| 0 <= j < 64 implies #[trigger] word_bit(*word, j) == if holds7(runs@.take(k as int), 64 * index + j) || (first <= 64 * index + j < sector + 1) {
                    allocated
                } else {
                    word_bit(w0, j)
                } by {
                    lemma_word_bits(before, shift, j as u64);
                    assert(word_bit(before, j) == if holds7(runs@.take(k as int), 64 * index + j) || (first <= 64 * index + j < sector) {
                        allocated
                    } else {
                        word_bit(w0, j)
                    });
                }
            }
            sector = sector + 1;
        }
        proof {
            let before = runs@.take(k as int);
            let after = runs@.take(k + 1);
            let last = sector;
            assert(forall|j: int| 0 <= j < 64 ==> ((first <= #[trigger] (64 * index + j) < last) == (run.start <= 64 * index + j < run_end)));
            assert forall|j: int| 0 <= j < 64 implies #[trigger] word_bit(*word, j) == if holds7(after, 64 * index + j) {
                allocated
            } else {
                word_bit(w0, j)
            } by {
                let s = 64 * index + j;
                assert(holds7(after, s) == (holds7(before, s) || (run.start <= s < run_end))) by {
                    if holds7(after, s) {
                        let q = choose|q: int| 0 <= q < after.len() && #[trigger] after[q].start <= s < after[q].start + after[q].sectors;
                        if q < k {
                            assert(before[q] == after[q]);
                        }
                    }
                    if holds7(before, s) {
                        let q = choose|q: int| 0 <= q < before.len() && #[trigger] before[q].start <= s < before[q].start + before[q].sectors;
                        assert(after[q] == before[q]);
                    }
                    if run.start <= s < run_end {
                        assert(after[k as int] == run);
                    }
                }
            }
        }
        k = k + 1;
    }
    assert(runs@.take(runs@.len() as int) =~= runs@);
}

/// Node sector `sector` of the table with the candidate's record in place.
#[verifier::rlimit(40)]
#[verifier::spinoff_prover]
fn encode_nodes(nodes: &[Node7; NODES], candidate: &Candidate7, sector: u64) -> (r: Result<[u8; 512], Error>)
    requires
        sector < 64,
        candidate_shaped7(*candidate),
    ensures
        r matches Ok(b) ==> nodes_block_ok(b@, cand_nodes7(nodes@, *candidate), sector as int),
        r is Err ==> r == Err::<[u8; 512], Error>(Error::Corrupt),
{
    let ghost cn = cand_nodes7(nodes@, *candidate);
    let mut block = [0u8; 512];
    let mut offset: usize = 0;
    while offset < 4
        invariant
            0 <= offset <= 4,
            sector < 64,
            candidate_shaped7(*candidate),
            cn == cand_nodes7(nodes@, *candidate),
            forall|o: int| 0 <= o < offset ==> #[trigger] spec_decode_node7(block@.subrange(128 * o, 128 * o + 128)) == Ok::<Node7, Error>(cn[4 * sector + o]),
        decreases 4 - offset,
    {
        let index = 4 * sector as usize + offset;
        let mut node = nodes[index];
        assert(node == nodes@[index as int]);
        match candidate.node_update {
            Some((changed, updated)) => {
                assert(cn == nodes@.update(changed as int, updated));
                if changed == index {
                    node = updated;
                } else {
                    assert(cn[index as int] == nodes@[index as int]);
                }
            },
            None => {},
        }
        assert(node == cn[index as int]);
        let encoded = match node.encode() {
            Ok(b) => b,
            Err(e) => {
                return Err(e);
            },
        };
        let ghost before = block@;
        put(&mut block, offset * NODE_BYTES, encoded.as_slice());
        proof {
            assert(block@.subrange(128 * offset as int, 128 * offset + 128) =~= encoded@);
            if node == empty_node7() {
                lemma_zero_node(encoded@);
            } else {
                lemma_node7_roundtrip(encoded@, node);
            }
            assert forall|o: int| 0 <= o < offset + 1 implies #[trigger] spec_decode_node7(block@.subrange(128 * o, 128 * o + 128)) == Ok::<Node7, Error>(cn[4 * sector + o]) by {
                if o < offset {
                    assert(block@.subrange(128 * o, 128 * o + 128) =~= before.subrange(128 * o, 128 * o + 128));
                }
            }
        }
        offset = offset + 1;
    }
    Ok(block)
}

/// Map sector `sector` of `map` with the candidate's runs added and released.
fn encode_map(map: &[u64], candidate: &Candidate7, sector: u64) -> (r: [u8; 512])
    requires
        sector < 32,
        map@.len() == MAP_WORDS,
        candidate_shaped7(*candidate),
    ensures
        map_block_ok(r@, map@, sector as int, added7(*candidate), released7(*candidate)),
{
    let added = candidate.added.runs();
    let released = vstd::slice::slice_subrange(candidate.released.as_slice(), 0, candidate.released_used);
    let mut block = [0u8; 512];
    let mut offset: usize = 0;
    while offset < 64
        invariant
            0 <= offset <= 64,
            sector < 32,
            map@.len() == MAP_WORDS,
            added@ == added7(*candidate),
            released@ == released7(*candidate),
            runs_bounded(added@),
            runs_bounded(released@),
            forall|o: int| 0 <= o < offset ==> #[trigger] word_delta(map@[64 * sector + o], spec_u64_from_le_bytes(block@.subrange(8 * o, 8 * o + 8)), 64 * sector + o, added@, released@),
        decreases 64 - offset,
    {
        let index = 64 * sector as usize + offset;
        let mut word = map[index];
        let ghost w0 = word;
        mutate_word(&mut word, index, added, true);
        let ghost w1 = word;
        mutate_word(&mut word, index, released, false);
        let ghost before = block@;
        put_u64(&mut block, offset * 8, word);
        proof {
            lemma_le64(word);
            assert(block@.subrange(8 * offset as int, 8 * offset + 8) =~= spec_u64_to_le_bytes(word));
            assert forall|o: int| 0 <= o < offset + 1 implies #[trigger] word_delta(map@[64 * sector + o], spec_u64_from_le_bytes(block@.subrange(8 * o, 8 * o + 8)), 64 * sector + o, added@, released@) by {
                if o < offset {
                    assert(block@.subrange(8 * o, 8 * o + 8) =~= before.subrange(8 * o, 8 * o + 8));
                } else {
                    assert(w0 == map@[64 * sector + o]);
                    assert forall|j: int| 0 <= j < 64 implies #[trigger] word_bit(word, j) == ((word_bit(w0, j) || holds7(added@, 64 * index + j)) && !holds7(released@, 64 * index + j)) by {
                        assert(word_bit(w1, j) == if holds7(added@, 64 * index + j) { true } else { word_bit(w0, j) });
                    }
                }
            }
        }
        offset = offset + 1;
    }
    block
}

/// The receipt block holding `records`.
fn receipts_image(records: &[Option<Record7>; RETAINED]) -> (r: Result<[u8; 2048], Error>)
    ensures
        r matches Ok(full) ==> receipts_image_ok(full@, records@),
        r is Err ==> r == Err::<[u8; 2048], Error>(Error::Corrupt),
{
    let mut full = [0u8; RECEIPT_BLOCK_BYTES];
    let mut k: usize = 0;
    while k < RETAINED
        invariant
            0 <= k <= RETAINED,
            forall|j: int| 0 <= j < k ==> Ok::<Option<Record7>, Error>(#[trigger] records@[j]) == spec_slot7(full@.subrange(192 * j, 192 * j + 192)),
            zero_range(full@, 192 * k, 2048),
        decreases RETAINED - k,
    {
        let slot = records[k];
        assert(slot == records@[k as int]);
        let ghost before = full@;
        match slot {
            Some(record) => {
                let encoded = match record.encode() {
                    Ok(b) => b,
                    Err(e) => {
                        return Err(e);
                    },
                };
                put(&mut full, 192 * k, encoded.as_slice());
                proof {
                    assert(full@.subrange(192 * k as int, 192 * k + 192) =~= encoded@);
                    lemma_record7_roundtrip(encoded@, record);
                    lemma_record_image_nonzero(encoded@, record);
                }
            },
            None => {
                proof {
                    assert(zero_range(full@.subrange(192 * k as int, 192 * k + 192), 0, 192));
                }
            },
        }
        proof {
            assert forall|j: int| 0 <= j < k + 1 implies Ok::<Option<Record7>, Error>(#[trigger] records@[j]) == spec_slot7(full@.subrange(192 * j, 192 * j + 192)) by {
                if j < k {
                    assert(full@.subrange(192 * j, 192 * j + 192) =~= before.subrange(192 * j, 192 * j + 192));
                }
            }
        }
        k = k + 1;
    }
    Ok(full)
}


/// The caller's bytes for a publication, as a sequence: none stands for the
/// empty one.
pub open spec fn bytes_of(bytes: Option<&[u8]>) -> Seq<u8> {
    match bytes {
        Some(b) => b@,
        None => Seq::empty(),
    }
}

/// The caller lends the bytes the publication was made for.
pub open spec fn lends7(p: PollPublication7, bytes: Option<&[u8]>) -> bool {
    match p.spec_bytes_len() {
        Some(n) => bytes matches Some(b) && b@.len() == n,
        None => bytes is None,
    }
}

/// Nothing but the scratch sector, the region checksums and the prepared
/// flag differs between `p` and `q`.
pub open spec fn same_progress7(p: PollPublication7, q: PollPublication7) -> bool {
    &&& q.spec_candidate() == p.spec_candidate()
    &&& q.spec_bytes_len() == p.spec_bytes_len()
    &&& q.spec_retry_record() == p.spec_retry_record()
    &&& q.spec_retry_matches() == p.spec_retry_matches()
    &&& q.spec_retry_checksum() == p.spec_retry_checksum()
    &&& q.spec_offset() == p.spec_offset()
    &&& q.spec_step() == p.spec_step()
    &&& q.spec_phase() == p.spec_phase()
    &&& q.spec_result() == p.spec_result()
    &&& q.spec_error() == p.spec_error()
    &&& q.spec_pending() == p.spec_pending()
    &&& q.spec_stopping() == p.spec_stopping()
    &&& q.spec_io_started() == p.spec_io_started()
    &&& q.spec_published() == p.spec_published()
}

/// The scratch sector `q` prepared from `p` for its step on `v`: the payload
/// sector of the caller's bytes, zero-padded; a node, map or receipt sector
/// of the candidate generation, folded into its region checksum; the header
/// to publish; nothing for a read or a flush.
pub open spec fn prepared7(p: PollPublication7, q: PollPublication7, v: Volume7, bytes: Seq<u8>) -> bool {
    let c = p.spec_candidate()->Some_0;
    let sums = p.spec_sums();
    match p.spec_step() {
        Step7::PayloadWrite(i) => q.spec_block() == Seq::new(512, |o: int| padded_at(bytes, 512 * i + o)) && q.spec_sums() == sums,
        Step7::NodesWrite(i) => nodes_block_ok(q.spec_block(), cand_nodes7(v.nodes@, c), i as int)
            && q.spec_sums() == (crc_fold(sums.0, q.spec_block()), sums.1, sums.2),
        Step7::MapWrite(i) => map_block_ok(q.spec_block(), v.map@, i as int, added7(c), released7(c))
            && q.spec_sums() == (sums.0, crc_fold(sums.1, q.spec_block()), sums.2),
        Step7::ReceiptsWrite(i) => (exists|full: Seq<u8>| #[trigger] receipts_image_ok(full, cand_records7(v.records@, c))
            && q.spec_block() == full.subrange(512 * i, 512 * i + 512))
            && q.spec_sums() == (sums.0, sums.1, crc_fold(sums.2, q.spec_block())),
        Step7::HeaderWrite => encodes_header7(q.spec_block(), p.spec_published()->Some_0) && q.spec_sums() == sums,
        _ => q.spec_block() == p.spec_block() && q.spec_sums() == sums,
    }
}

impl PollPublication7 {
    /// Fill the scratch sector for the current step, once per step.
    fn prepare_block(&mut self, volume: &Volume7, bytes: Option<&[u8]>) -> (r: Result<(), Error>)
        requires
            old(self).wf(),
            volume.wf(),
            lends7(*old(self), bytes),
        ensures
            final(self).wf(),
            same_progress7(*old(self), *final(self)),
            old(self).spec_prepared() ==> r is Ok && *final(self) == *old(self),
            !old(self).spec_prepared() && r is Ok ==> final(self).spec_prepared() && prepared7(*old(self), *final(self), *volume, bytes_of(bytes)),
            !old(self).spec_prepared() && r is Err ==> final(self).spec_sums() == old(self).spec_sums() && !final(self).spec_prepared(),
            !old(self).spec_prepared() && old(self).spec_step() == Step7::Done ==> r is Err,
    {
        if self.block_prepared {
            return Ok(());
        }
        let ghost p = *self;
        match self.step {
            Step7::PayloadWrite(index) => {
                let candidate = match self.candidate {
                    Some(c) => c,
                    None => {
                        return Err(Error::Corrupt);
                    },
                };
                if nth_sector(candidate.added.runs(), index).is_none() {
                    return Err(Error::Corrupt);
                }
                let b = match bytes {
                    Some(b) => b,
                    None => {
                        return Err(Error::Corrupt);
                    },
                };
                if index > (usize::MAX / 512) as u64 {
                    return Err(Error::Exhausted);
                }
                let offset = index as usize * 512;
                let mut block = [0u8; 512];
                let count: usize = if b.len() <= offset {
                    0
                } else if b.len() - offset < 512 {
                    b.len() - offset
                } else {
                    512
                };
                assert(count <= 512);
                let start = if count == 0 { 0 } else { offset };
                assert(start + count <= b@.len());
                put(&mut block, 0, vstd::slice::slice_subrange(b, start, start + count));
                self.block = block;
                proof {
                    assert(self.block@ =~= Seq::new(512, |o: int| padded_at(b@, 512 * index + o)));
                }
            },
            Step7::NodesWrite(index) => {
                let candidate = match self.candidate {
                    Some(c) => c,
                    None => {
                        return Err(Error::Corrupt);
                    },
                };
                let block = encode_nodes(&volume.nodes, &candidate, index)?;
                self.block = block;
                crc_update(&mut self.nodes_checksum, self.block.as_slice());
            },
            Step7::MapWrite(index) => {
                let candidate = match self.candidate {
                    Some(c) => c,
                    None => {
                        return Err(Error::Corrupt);
                    },
                };
                self.block = encode_map(volume.map.as_slice(), &candidate, index);
                crc_update(&mut self.map_checksum, self.block.as_slice());
            },
            Step7::ReceiptsWrite(index) => {
                let candidate = match self.candidate {
                    Some(c) => c,
                    None => {
                        return Err(Error::Corrupt);
                    },
                };
                let mut records = volume.records;
                records[candidate.record_slot] = Some(candidate.record);
                proof {
                    assert(records@ == cand_records7(volume.records@, candidate));
                }
                let full = receipts_image(&records)?;
                self.block = take_array(&full, 512 * index as usize);
                crc_update(&mut self.receipts_checksum, self.block.as_slice());
            },
            Step7::HeaderWrite => {
                let header = match self.published_header {
                    Some(h) => h,
                    None => {
                        return Err(Error::Corrupt);
                    },
                };
                self.block = header.encode()?;
            },
            Step7::RetryRead(_) | Step7::PayloadFlush | Step7::MetadataFlush | Step7::HeaderFlush => {},
            Step7::Done => {
                return Err(Error::Invalid);
            },
        }
        self.block_prepared = true;
        Ok(())
    }

    /// The command the current step submits, with the prepared scratch
    /// sector for a write.
    #[verifier::rlimit(20)]
    fn command(&self, volume: &Volume7) -> (r: Command7)
        requires
            self.wf(),
            self.spec_step() != Step7::Done,
            self.spec_step() matches Step7::RetryRead(i) ==> {
                let rec = self.spec_retry_record()->Some_0;
                sector_of(rec.extents@.take(rec.extents_used as int), i as int) is Some
            },
            self.spec_step() matches Step7::PayloadWrite(i) ==> sector_of(added7(self.spec_candidate()->Some_0), i as int) is Some,
        ensures
            r == spec_command7(*self, volume.header),
    {
        match self.step {
            Step7::RetryRead(index) => {
                let record = self.retry_record.unwrap();
                let sector = nth_sector(record.runs(), index).unwrap();
                proof {
                    lemma_array(self.block);
                    lemma_sector_bounded(record.extents@.take(record.extents_used as int), index as int);
                }
                Command7::Read(PAYLOAD_SECTOR + sector)
            },
            Step7::PayloadWrite(index) => {
                let candidate = self.candidate.unwrap();
                let sector = nth_sector(candidate.added.runs(), index).unwrap();
                proof {
                    lemma_array(self.block);
                    lemma_sector_bounded(added7(candidate), index as int);
                }
                Command7::Write(PAYLOAD_SECTOR + sector, self.block)
            },
            Step7::PayloadFlush | Step7::MetadataFlush | Step7::HeaderFlush => Command7::Flush,
            Step7::NodesWrite(index) => {
                proof {
                    lemma_array(self.block);
                }
                Command7::Write(nodes_sector(volume.header.generation ^ 1) + index, self.block)
            },
            Step7::MapWrite(index) => {
                proof {
                    lemma_array(self.block);
                }
                Command7::Write(map_sector(volume.header.generation ^ 1) + index, self.block)
            },
            Step7::ReceiptsWrite(index) => {
                proof {
                    lemma_array(self.block);
                }
                Command7::Write(receipts_sector(volume.header.generation ^ 1) + index, self.block)
            },
            Step7::HeaderWrite => {
                proof {
                    lemma_array(self.block);
                }
                Command7::Write(header_sector(self.published_header.unwrap().generation), self.block)
            },
            Step7::Done => Command7::Flush,
        }
    }
}

/// The command step `p` submits on a volume whose header is `h`: a payload
/// read or write at the step's sector of the runs, a flush, or a write of the
/// scratch sector into the inactive generation or the new header's copy.
pub open spec fn spec_command7(p: PollPublication7, h: Header7) -> Command7 {
    let other = h.generation ^ 1u8;
    let base = FIRST_GENERATION_SECTOR + (other % GENERATIONS) * GENERATION_SECTORS;
    match p.spec_step() {
        Step7::RetryRead(i) => {
            let rec = p.spec_retry_record()->Some_0;
            Command7::Read((PAYLOAD_SECTOR + sector_of(rec.extents@.take(rec.extents_used as int), i as int)->Some_0) as u64)
        },
        Step7::PayloadWrite(i) => Command7::Write(
            (PAYLOAD_SECTOR + sector_of(added7(p.spec_candidate()->Some_0), i as int)->Some_0) as u64,
            spec_array::<512>(p.spec_block()),
        ),
        Step7::NodesWrite(i) => Command7::Write((base + i) as u64, spec_array::<512>(p.spec_block())),
        Step7::MapWrite(i) => Command7::Write((base + NODES_SECTORS + i) as u64, spec_array::<512>(p.spec_block())),
        Step7::ReceiptsWrite(i) => Command7::Write((base + NODES_SECTORS + MAP_SECTORS + i) as u64, spec_array::<512>(p.spec_block())),
        Step7::HeaderWrite => Command7::Write(
            (HEADER_SECTOR + (p.spec_published()->Some_0.generation % GENERATIONS)) as u64,
            spec_array::<512>(p.spec_block()),
        ),
        _ => Command7::Flush,
    }
}


/// What starting the current command decided: nothing to submit, with the
/// answer to give, or a command to submit.
#[derive(Clone, Copy, Debug)]
pub enum Begin7 {
    Settled(Result<Publication7Phase, Error>),
    Submit(Command7),
}

/// The step after a settled command that neither reads nor publishes.
pub open spec fn next_step7(step: Step7, added: int) -> Step7 {
    match step {
        Step7::PayloadWrite(i) => if i + 1 == added {
            Step7::PayloadFlush
        } else {
            Step7::PayloadWrite((i + 1) as u64)
        },
        Step7::PayloadFlush => Step7::NodesWrite(0),
        Step7::NodesWrite(i) => if i + 1 == 64 {
            Step7::MapWrite(0)
        } else {
            Step7::NodesWrite((i + 1) as u64)
        },
        Step7::MapWrite(i) => if i + 1 == 32 {
            Step7::ReceiptsWrite(0)
        } else {
            Step7::MapWrite((i + 1) as u64)
        },
        Step7::ReceiptsWrite(i) => if i + 1 == 4 {
            Step7::MetadataFlush
        } else {
            Step7::ReceiptsWrite((i + 1) as u64)
        },
        Step7::MetadataFlush => Step7::HeaderWrite,
        Step7::HeaderWrite => Step7::HeaderFlush,
        _ => Step7::Done,
    }
}

/// The header a publication from `h` names with region checksums `sums`.
pub open spec fn published_header7(h: Header7, sums: (u32, u32, u32)) -> Header7 {
    Header7 { nodes_checksum: !sums.0, map_checksum: !sums.1, receipts_checksum: !sums.2, ..next_header7(h) }
}

/// The verdict of an exact retry check whose read snapshot folds to `sum`:
/// the snapshot must checksum as retained (else `Corrupt`, fenced), and the
/// caller's bytes must be the snapshot (else a conflict).
pub open spec fn retry_verdict7(record: Record7, sum: u32, matches: bool) -> Result<Publication7Phase, Error> {
    if !sum != record.payload_crc32 {
        Err(Error::Corrupt)
    } else if !matches {
        Err(Error::IdempotencyConflict)
    } else {
        Ok(Publication7Phase::Committed)
    }
}

/// The phase a pending command shows while its step is outstanding.
pub open spec fn stage_phase7(step: Step7, phase: Publication7Phase) -> Publication7Phase {
    match step {
        Step7::RetryRead(_) => Publication7Phase::Retrying,
        Step7::HeaderWrite | Step7::HeaderFlush => Publication7Phase::Settling,
        Step7::Done => phase,
        _ => Publication7Phase::Preparing,
    }
}

/// How a settled command moves the publication from `p` to `q` and the
/// owner from `v0` to `v1`, answering `r`, with the caller's bytes `b`: a
/// retry read folds the sector it read into the checksum and the comparison
/// and, at the last sector, gives the verdict; the metadata flush fixes the
/// header to publish; the header flush adopts the candidate; every other
/// command moves to the next step.
pub open spec fn after_complete7(p: PollPublication7, q: PollPublication7, v0: Volume7, v1: Volume7, b: Seq<u8>, r: Result<Publication7Phase, Error>) -> bool {
    !p.spec_stopping() ==> match p.spec_step() {
        Step7::RetryRead(i) => {
            let rec = p.spec_retry_record()->Some_0;
            let total = run_count(rec.extents@.take(rec.extents_used as int));
            let offset = p.spec_offset() as int;
            let count = if b.len() - offset < 512 { b.len() - offset } else { 512 };
            let read = p.spec_block().take(count);
            &&& q.spec_retry_checksum() == crc_fold(p.spec_retry_checksum(), read)
            &&& q.spec_retry_matches() == (p.spec_retry_matches() && read == b.subrange(offset, offset + count))
            &&& q.spec_offset() == offset + count
            &&& i + 1 == total ==> r == retry_verdict7(rec, q.spec_retry_checksum(), q.spec_retry_matches())
                && v1 == (Volume7 { fenced: r == Err::<Publication7Phase, Error>(Error::Corrupt), ..v0 })
                && (r is Ok ==> q.spec_result() == Some(rec))
            &&& i + 1 != total ==> r == Ok::<Publication7Phase, Error>(Publication7Phase::Retrying)
                && q.spec_step() == Step7::RetryRead((i + 1) as u64)
                && q.spec_phase() == Publication7Phase::Retrying && v1 == v0
        },
        Step7::MetadataFlush => {
            &&& q.spec_published() == Some(published_header7(v0.header, p.spec_sums()))
            &&& q.spec_step() == Step7::HeaderWrite
            &&& q.spec_phase() == Publication7Phase::ReadyToPublish
            &&& r == Ok::<Publication7Phase, Error>(Publication7Phase::ReadyToPublish)
            &&& v1 == v0
        },
        Step7::HeaderWrite => {
            &&& q.spec_step() == Step7::HeaderFlush
            &&& q.spec_phase() == Publication7Phase::Settling
            &&& r == Ok::<Publication7Phase, Error>(Publication7Phase::Settling)
            &&& v1 == v0
        },
        Step7::HeaderFlush => {
            let c = p.spec_candidate()->Some_0;
            &&& q.spec_step() == Step7::Done
            &&& q.spec_phase() == Publication7Phase::Committed
            &&& q.spec_result() == Some(c.record)
            &&& r == Ok::<Publication7Phase, Error>(Publication7Phase::Committed)
            &&& v1.header == p.spec_published()->Some_0
            &&& v1.nodes@ == cand_nodes7(v0.nodes@, c)
            &&& v1.records@ == cand_records7(v0.records@, c)
            &&& map_delta(v0.map@, v1.map@, added7(c), released7(c))
            &&& !v1.fenced
        },
        _ => {
            &&& q.spec_step() == next_step7(p.spec_step(), run_count(added7(p.spec_candidate()->Some_0)))
            &&& q.spec_phase() == Publication7Phase::Preparing
            &&& r == Ok::<Publication7Phase, Error>(Publication7Phase::Preparing)
            &&& v1 == v0
        },
    }
}

impl PollPublication7 {
    /// Stop with `error`: fenced and `Uncertain` when the device may be ahead
    /// of the owner, otherwise `Failed` with the owner unfenced.
    fn mark_failure(&mut self, volume: &mut Volume7, error: Error, fence: bool) -> (r: Result<Publication7Phase, Error>)
        requires
            old(self).wf(),
            old(self).spec_step() != Step7::Done,
        ensures
            final(self).wf(),
            r == Err::<Publication7Phase, Error>(error),
            !final(self).spec_pending(),
            final(self).spec_error() == Some(error),
            final(self).spec_phase() == if fence { Publication7Phase::Uncertain } else { Publication7Phase::Failed },
            *final(volume) == (Volume7 { fenced: fence, ..*old(volume) }),
            final(self).spec_step() == old(self).spec_step(),
            final(self).spec_candidate() == old(self).spec_candidate(),
            final(self).spec_result() == old(self).spec_result(),
            final(self).spec_stopping() == old(self).spec_stopping(),
            final(self).spec_prepared() == old(self).spec_prepared(),
            final(self).spec_retry_checksum() == old(self).spec_retry_checksum(),
            final(self).spec_retry_matches() == old(self).spec_retry_matches(),
            final(self).spec_offset() == old(self).spec_offset(),
    {
        self.pending = false;
        self.phase = if fence {
            volume.fenced = true;
            Publication7Phase::Uncertain
        } else {
            volume.fenced = false;
            Publication7Phase::Failed
        };
        self.error = Some(error);
        Err(error)
    }

    /// Settle an exact retry check.
    fn finish_retry(&mut self, volume: &mut Volume7) -> (r: Result<Publication7Phase, Error>)
        requires
            old(self).wf(),
            old(self).spec_retry_record() is Some,
            old(self).spec_step() is RetryRead,
        ensures
            final(self).wf(),
            ({
                let rec = old(self).spec_retry_record()->Some_0;
                let verdict = retry_verdict7(rec, old(self).spec_retry_checksum(), old(self).spec_retry_matches());
                &&& r == verdict
                &&& verdict is Ok ==> final(self).spec_phase() == Publication7Phase::Committed && final(self).spec_result() == Some(rec)
                &&& verdict == Err::<Publication7Phase, Error>(Error::Corrupt) ==> final(self).spec_phase() == Publication7Phase::Uncertain
                &&& verdict == Err::<Publication7Phase, Error>(Error::IdempotencyConflict) ==> final(self).spec_phase() == Publication7Phase::Failed
                &&& *final(volume) == (Volume7 { fenced: verdict == Err::<Publication7Phase, Error>(Error::Corrupt), ..*old(volume) })
            }),
            !old(self).spec_pending() ==> !final(self).spec_pending(),
            final(self).spec_step() == old(self).spec_step(),
            final(self).spec_candidate() == old(self).spec_candidate(),
            final(self).spec_prepared() == old(self).spec_prepared(),
            final(self).spec_retry_checksum() == old(self).spec_retry_checksum(),
            final(self).spec_retry_matches() == old(self).spec_retry_matches(),
            final(self).spec_offset() == old(self).spec_offset(),
    {
        let record = self.retry_record.unwrap();
        if !self.retry_checksum != record.payload_crc32 {
            return self.mark_failure(volume, Error::Corrupt, true);
        }
        if !self.retry_matches {
            return self.mark_failure(volume, Error::IdempotencyConflict, false);
        }
        self.result = Some(record);
        self.phase = Publication7Phase::Committed;
        volume.fenced = false;
        Ok(self.phase)
    }

    /// Advance past a command that settled successfully.
    fn complete_command(&mut self, volume: &mut Volume7, bytes: Option<&[u8]>) -> (r: Result<Publication7Phase, Error>)
        requires
            old(self).wf(),
            old(volume).wf(),
            lends7(*old(self), bytes),
            old(self).spec_step() != Step7::Done,
            old(self).spec_step() == Step7::MetadataFlush ==> old(volume).header.sequence < u64::MAX,
            old(self).spec_step() matches Step7::RetryRead(i) ==> {
                let rec = old(self).spec_retry_record()->Some_0;
                i < run_count(rec.extents@.take(rec.extents_used as int))
            },
        ensures
            final(self).wf(),
            final(volume).wf(),
            !final(self).spec_pending(),
            !final(self).spec_prepared(),
            final(self).spec_candidate() == old(self).spec_candidate(),
            old(self).spec_stopping() ==> r == Ok::<Publication7Phase, Error>(Publication7Phase::Cancelled)
                && final(self).spec_phase() == Publication7Phase::Cancelled
                && *final(volume) == (Volume7 { fenced: false, ..*old(volume) }),
            after_complete7(*old(self), *final(self), *old(volume), *final(volume), bytes_of(bytes), r),
    {
        self.pending = false;
        self.block_prepared = false;
        if self.stopping {
            self.phase = Publication7Phase::Cancelled;
            volume.fenced = false;
            return Ok(self.phase);
        }
        match self.step {
            Step7::RetryRead(index) => {
                let b = bytes.unwrap();
                let count = if b.len() - self.payload_offset < 512 { b.len() - self.payload_offset } else { 512 };
                let read = vstd::slice::slice_subrange(self.block.as_slice(), 0, count);
                crc_update(&mut self.retry_checksum, read);
                let given = vstd::slice::slice_subrange(b, self.payload_offset, self.payload_offset + count);
                if !slices_equal(read, given) {
                    self.retry_matches = false;
                }
                self.payload_offset = self.payload_offset + count;
                let record = self.retry_record.unwrap();
                let total = count_sectors(record.runs());
                if index + 1 == total {
                    return self.finish_retry(volume);
                }
                self.step = Step7::RetryRead(index + 1);
                self.phase = Publication7Phase::Retrying;
                Ok(self.phase)
            },
            Step7::PayloadWrite(index) => {
                let candidate = self.candidate.unwrap();
                let total = count_sectors(candidate.added.runs());
                if index + 1 == total {
                    self.step = Step7::PayloadFlush;
                } else {
                    self.step = Step7::PayloadWrite(index + 1);
                }
                self.phase = Publication7Phase::Preparing;
                Ok(self.phase)
            },
            Step7::PayloadFlush => {
                self.step = Step7::NodesWrite(0);
                self.phase = Publication7Phase::Preparing;
                Ok(self.phase)
            },
            Step7::NodesWrite(index) => {
                self.step = if index + 1 == NODES_SECTORS { Step7::MapWrite(0) } else { Step7::NodesWrite(index + 1) };
                self.phase = Publication7Phase::Preparing;
                Ok(self.phase)
            },
            Step7::MapWrite(index) => {
                self.step = if index + 1 == MAP_SECTORS { Step7::ReceiptsWrite(0) } else { Step7::MapWrite(index + 1) };
                self.phase = Publication7Phase::Preparing;
                Ok(self.phase)
            },
            Step7::ReceiptsWrite(index) => {
                self.step = if index + 1 == RECEIPTS_SECTORS { Step7::MetadataFlush } else { Step7::ReceiptsWrite(index + 1) };
                self.phase = Publication7Phase::Preparing;
                Ok(self.phase)
            },
            Step7::MetadataFlush => {
                let header = volume.header;
                self.published_header = Some(Header7 {
                    sequence: header.sequence + 1,
                    generation: header.generation ^ 1,
                    nodes_checksum: !self.nodes_checksum,
                    map_checksum: !self.map_checksum,
                    receipts_checksum: !self.receipts_checksum,
                    ..header
                });
                self.step = Step7::HeaderWrite;
                self.phase = Publication7Phase::ReadyToPublish;
                Ok(self.phase)
            },
            Step7::HeaderWrite => {
                self.step = Step7::HeaderFlush;
                self.phase = Publication7Phase::Settling;
                Ok(self.phase)
            },
            Step7::HeaderFlush => {
                let candidate = self.candidate.unwrap();
                let header = self.published_header.unwrap();
                adopt_candidate(volume, candidate, header);
                self.result = Some(candidate.record);
                self.phase = Publication7Phase::Committed;
                volume.fenced = false;
                self.step = Step7::Done;
                Ok(self.phase)
            },
            Step7::Done => Ok(self.phase),
        }
    }
}


impl PollPublication7 {
    /// This publication with `read` in its scratch sector.
    pub closed spec fn with_read(self, read: Seq<u8>) -> PollPublication7 {
        PollPublication7 { block: spec_array::<512>(read), ..self }
    }

    /// Start the current command, or issue it again while it is outstanding:
    /// a settled publication answers again without a command; an exact retry
    /// of an empty snapshot is decided at once; a scratch sector that cannot
    /// be prepared stops the publication (fenced once any command was issued).
    /// Otherwise the command to submit, with the publication pending and
    /// `Uncertain` until it settles.
    pub fn begin(&mut self, volume: &mut Volume7, bytes: Option<&[u8]>) -> (r: Begin7)
        requires
            old(self).wf(),
            old(volume).wf(),
            lends7(*old(self), bytes),
        ensures
            final(self).wf(),
            final(volume).wf(),
            (old(self).spec_phase() == Publication7Phase::Committed || old(self).spec_phase() == Publication7Phase::Cancelled)
                ==> r == Begin7::Settled(Ok(old(self).spec_phase())) && *final(self) == *old(self) && *final(volume) == *old(volume),
            (old(self).spec_phase() == Publication7Phase::Failed || old(self).spec_phase() == Publication7Phase::Uncertain)
                ==> r == Begin7::Settled(Err(match old(self).spec_error() { Some(e) => e, None => Error::Uncertain }))
                && *final(self) == *old(self) && *final(volume) == *old(volume),
            r matches Begin7::Submit(command) ==> {
                &&& command == spec_command7(*final(self), old(volume).header)
                &&& final(self).spec_pending()
                &&& final(self).spec_io_started()
                &&& final(self).spec_phase() == Publication7Phase::Uncertain
                &&& *final(volume) == *old(volume)
                &&& final(self).spec_prepared()
                &&& !old(self).spec_prepared() ==> prepared7(*old(self), *final(self), *old(volume), bytes_of(bytes))
                &&& old(self).spec_prepared() ==> final(self).spec_block() == old(self).spec_block()
                &&& final(self).spec_step() == old(self).spec_step()
                &&& final(self).spec_candidate() == old(self).spec_candidate()
                &&& final(self).spec_published() == old(self).spec_published()
            },
    {
        match self.phase {
            Publication7Phase::Committed | Publication7Phase::Cancelled => {
                return Begin7::Settled(Ok(self.phase));
            },
            Publication7Phase::Failed | Publication7Phase::Uncertain => {
                return Begin7::Settled(Err(match self.error {
                    Some(e) => e,
                    None => Error::Uncertain,
                }));
            },
            _ => {},
        }
        match self.step {
            Step7::RetryRead(_) => {
                let record = self.retry_record.unwrap();
                if count_sectors(record.runs()) == 0 {
                    return Begin7::Settled(self.finish_retry(volume));
                }
            },
            _ => {},
        }
        let prepared = self.prepare_block(volume, bytes);
        match prepared {
            Err(error) => {
                let started = self.io_started;
                return Begin7::Settled(self.mark_failure(volume, error, started));
            },
            Ok(()) => {},
        }
        proof {
            match self.step {
                Step7::RetryRead(i) => {
                    let rec = self.retry_record->Some_0;
                    lemma_sector_exists(rec.extents@.take(rec.extents_used as int), i as int);
                },
                Step7::PayloadWrite(i) => {
                    lemma_sector_exists(added7(self.candidate->Some_0), i as int);
                },
                _ => {},
            }
        }
        self.pending = true;
        self.io_started = true;
        self.phase = Publication7Phase::Uncertain;
        Begin7::Submit(self.command(volume))
    }

    /// The submitted command has not settled: show the phase of its step.
    pub fn waiting(&mut self)
        requires
            old(self).wf(),
        ensures
            final(self).wf(),
            *final(self) == old(self).with_phase(stage_phase7(old(self).spec_step(), old(self).spec_phase())),
    {
        self.phase = match self.step {
            Step7::RetryRead(_) => Publication7Phase::Retrying,
            Step7::HeaderWrite | Step7::HeaderFlush => Publication7Phase::Settling,
            Step7::Done => self.phase,
            _ => Publication7Phase::Preparing,
        };
    }

    /// This publication showing `phase`.
    pub closed spec fn with_phase(self, phase: Publication7Phase) -> PollPublication7 {
        PollPublication7 { phase, ..self }
    }

    /// The submitted command failed: the device may be ahead of the owner,
    /// which stays fenced, and the publication is `Uncertain`.
    pub fn failed(&mut self, volume: &mut Volume7) -> (r: Result<Publication7Phase, Error>)
        requires
            old(self).wf(),
            old(self).spec_pending(),
        ensures
            final(self).wf(),
            r == Err::<Publication7Phase, Error>(Error::Uncertain),
            final(self).spec_phase() == Publication7Phase::Uncertain,
            !final(self).spec_pending(),
            *final(volume) == (Volume7 { fenced: true, ..*old(volume) }),
    {
        self.mark_failure(volume, Error::Uncertain, true)
    }

    /// The submitted command settled successfully; a read delivers `read`.
    pub fn completed(&mut self, volume: &mut Volume7, bytes: Option<&[u8]>, read: &[u8; 512]) -> (r: Result<Publication7Phase, Error>)
        requires
            old(self).wf(),
            old(volume).wf(),
            lends7(*old(self), bytes),
            old(self).spec_pending(),
            old(self).spec_step() != Step7::Done,
            old(self).spec_step() == Step7::MetadataFlush ==> old(volume).header.sequence < u64::MAX,
            old(self).spec_step() matches Step7::RetryRead(i) ==> {
                let rec = old(self).spec_retry_record()->Some_0;
                i < run_count(rec.extents@.take(rec.extents_used as int))
            },
        ensures
            final(self).wf(),
            final(volume).wf(),
            !final(self).spec_pending(),
            old(self).spec_stopping() ==> r == Ok::<Publication7Phase, Error>(Publication7Phase::Cancelled)
                && final(self).spec_phase() == Publication7Phase::Cancelled
                && *final(volume) == (Volume7 { fenced: false, ..*old(volume) }),
            after_complete7(
                if old(self).spec_step() is RetryRead { old(self).with_read(read@) } else { *old(self) },
                *final(self), *old(volume), *final(volume), bytes_of(bytes), r),
    {
        match self.step {
            Step7::RetryRead(_) => {
                self.block = *read;
                proof {
                    lemma_array(*read);
                    assert(*self == old(self).with_read(read@));
                }
            },
            _ => {},
        }
        self.complete_command(volume, bytes)
    }

    /// What dropping an unfinished publication leaves: an owner fenced while
    /// a command may be outstanding or the header may be out, unfenced while
    /// only inactive structures were touched.
    pub fn dropped(&self, volume: &mut Volume7)
        ensures
            *final(volume) == if self.spec_pending() || self.spec_phase() == Publication7Phase::Settling {
                Volume7 { fenced: true, ..*old(volume) }
            } else if self.spec_phase() == Publication7Phase::Preparing || self.spec_phase() == Publication7Phase::ReadyToPublish
                || self.spec_phase() == Publication7Phase::Retrying {
                Volume7 { fenced: false, ..*old(volume) }
            } else {
                *old(volume)
            },
    {
        if self.pending || self.phase == Publication7Phase::Settling {
            volume.fenced = true;
        } else if self.phase == Publication7Phase::Preparing || self.phase == Publication7Phase::ReadyToPublish
            || self.phase == Publication7Phase::Retrying {
            volume.fenced = false;
        }
    }
}

} // verus!
