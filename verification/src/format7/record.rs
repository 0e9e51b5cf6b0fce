//! The v7 durable record: a scoped admission outcome with the payload extent
//! snapshot that makes an exact-byte retry answerable.
//!
//! Offsets: subject 0..8, workspace 8..12, object 12..16, instance 16..24, retry
//! epoch 24..32, retry key 32..40, previous 40..48, committed 48..56, admission
//! number 56..64, terminal 64..72, length 72..76, payload CRC-32 76..80, state 80,
//! prevention cause 81, extents used 82, zero 83..88, eight runs 88..152, zero
//! 152..188, CRC-32 of bytes 0..188 at 188..192. An empty slot is all zero.
use vstd::prelude::*;
use vstd::bytes::*;
use crate::checksum::{crc, spec_crc};
use crate::codec::{
    zero_range, put, put_u32, put_u64, get_u32, get_u64, is_zero, prefix, put_runs, get_runs,
    holds_runs, holds_run, spec_runs_from, runs_seq, lemma_runs_from, lemma_run_roundtrip,
    lemma_le32, lemma_le64, take_array, all_zero,
};
use crate::extent::Extent;
use crate::admission::{PreventionReason, prevention_byte, prevention_code, prevention_from, prevention_of};
use super::header::NEXT_MIN;
use super::{MAX_EXTENTS, RECEIPT_BLOCK_BYTES, RECORD_BYTES, RETAINED, check_payload, payload_ok, is_zero_run, run_live};
use crate::Error;

verus! {

/// Reserved identities: 1..=4 name the roots, so a scoped record's object is
/// always above them.
pub const FIRST_OBJECT: u32 = 5;

/// The four durable outcomes a record can carry.
#[derive(Clone, Copy, Debug, PartialEq, Eq, Structural)]
pub enum RecordState {
    /// A direct commit with no admission.
    DirectCommitted,
    /// An admission is recorded but nothing is committed or terminal yet.
    Admitted,
    /// The admission was cancelled with a retained cause; nothing committed.
    Cancelled,
    /// An admitted operation reached its terminal sequence.
    AdmittedCommitted,
}

pub open spec fn state_code(state: RecordState) -> u8 {
    match state {
        RecordState::DirectCommitted => 0u8,
        RecordState::Admitted => 1u8,
        RecordState::Cancelled => 2u8,
        RecordState::AdmittedCommitted => 3u8,
    }
}

fn state_byte(state: RecordState) -> (r: u8)
    ensures
        r == state_code(state),
{
    match state {
        RecordState::DirectCommitted => 0,
        RecordState::Admitted => 1,
        RecordState::Cancelled => 2,
        RecordState::AdmittedCommitted => 3,
    }
}

#[derive(Clone, Copy, Debug, PartialEq, Eq)]
pub struct Record7 {
    pub subject: u64,
    pub workspace: u32,
    pub object: u32,
    pub instance: u64,
    pub retry_epoch: u64,
    pub retry_key: u64,
    pub previous: u64,
    pub committed: u64,
    pub admission_number: u64,
    pub terminal: u64,
    pub length: u32,
    pub payload_crc32: u32,
    pub state: RecordState,
    /// Present exactly for `Cancelled`.
    pub prevention: Option<PreventionReason>,
    pub extents_used: u8,
    pub extents: [Extent; MAX_EXTENTS],
}

/// What one record proves about itself: a scoped identity, a retry with a key and
/// an epoch no newer than its operation, a replaced version, a prevention cause
/// exactly where the state allows one, the state's arithmetic, and payload runs
/// that describe the length exactly.
pub open spec fn record7_local_ok(r: Record7) -> bool {
    &&& r.subject != 0
    &&& r.workspace != 0
    &&& r.instance != 0
    &&& r.object >= FIRST_OBJECT
    &&& r.object != r.workspace
    &&& r.retry_key != 0
    &&& r.retry_epoch != 0
    &&& r.previous != 0
    &&& (r.state == RecordState::Cancelled) == r.prevention is Some
    &&& match r.state {
        RecordState::DirectCommitted => r.admission_number == 0 && r.terminal == r.committed
            && r.committed > r.previous && r.instance <= r.committed,
        RecordState::Admitted => r.committed == 0 && r.terminal == 0 && r.admission_number
            > r.previous && r.instance <= r.admission_number,
        RecordState::Cancelled => r.committed == 0 && r.terminal > r.admission_number
            && r.admission_number > r.previous && r.instance <= r.admission_number,
        RecordState::AdmittedCommitted => r.committed == r.terminal && r.terminal
            > r.admission_number && r.admission_number > r.previous && r.instance
            <= r.admission_number,
    }
    &&& r.retry_epoch <= if r.state == RecordState::DirectCommitted {
        r.committed
    } else {
        r.admission_number
    }
    &&& payload_ok(r.extents@, r.extents_used as int, r.length as int)
}

/// The bounds that need the header: identities below the watermark and every
/// version-domain number no newer than the sequence.
pub open spec fn record7_valid(r: Record7, sequence: u64, next: u32) -> bool {
    &&& sequence != 0
    &&& next >= NEXT_MIN
    &&& record7_local_ok(r)
    &&& r.workspace < next
    &&& r.object < next
    &&& r.retry_epoch <= sequence
    &&& r.previous <= sequence
    &&& r.committed <= sequence
    &&& r.terminal <= sequence
    &&& r.admission_number <= sequence
}

/// `b` is the 192-byte image of `r`.
pub open spec fn encodes_record7(b: Seq<u8>, r: Record7) -> bool {
    &&& b.len() == 192
    &&& b.subrange(0, 8) == spec_u64_to_le_bytes(r.subject)
    &&& b.subrange(8, 12) == spec_u32_to_le_bytes(r.workspace)
    &&& b.subrange(12, 16) == spec_u32_to_le_bytes(r.object)
    &&& b.subrange(16, 24) == spec_u64_to_le_bytes(r.instance)
    &&& b.subrange(24, 32) == spec_u64_to_le_bytes(r.retry_epoch)
    &&& b.subrange(32, 40) == spec_u64_to_le_bytes(r.retry_key)
    &&& b.subrange(40, 48) == spec_u64_to_le_bytes(r.previous)
    &&& b.subrange(48, 56) == spec_u64_to_le_bytes(r.committed)
    &&& b.subrange(56, 64) == spec_u64_to_le_bytes(r.admission_number)
    &&& b.subrange(64, 72) == spec_u64_to_le_bytes(r.terminal)
    &&& b.subrange(72, 76) == spec_u32_to_le_bytes(r.length)
    &&& b.subrange(76, 80) == spec_u32_to_le_bytes(r.payload_crc32)
    &&& b[80] == state_code(r.state)
    &&& b[81] == match r.prevention {
        Some(p) => prevention_code(p),
        None => 0u8,
    }
    &&& b[82] == r.extents_used
    &&& zero_range(b, 83, 88)
    &&& holds_runs(b, 88, r.extents@)
    &&& zero_range(b, 152, 188)
    &&& b.subrange(188, 192) == spec_u32_to_le_bytes(spec_crc(b.subrange(0, 188)))
}

pub open spec fn state_of(code: u8) -> RecordState {
    if code == 0 {
        RecordState::DirectCommitted
    } else if code == 1 {
        RecordState::Admitted
    } else if code == 2 {
        RecordState::Cancelled
    } else {
        RecordState::AdmittedCommitted
    }
}

pub open spec fn decoded_record7(b: Seq<u8>) -> Record7 {
    Record7 {
        subject: spec_u64_from_le_bytes(b.subrange(0, 8)),
        workspace: spec_u32_from_le_bytes(b.subrange(8, 12)),
        object: spec_u32_from_le_bytes(b.subrange(12, 16)),
        instance: spec_u64_from_le_bytes(b.subrange(16, 24)),
        retry_epoch: spec_u64_from_le_bytes(b.subrange(24, 32)),
        retry_key: spec_u64_from_le_bytes(b.subrange(32, 40)),
        previous: spec_u64_from_le_bytes(b.subrange(40, 48)),
        committed: spec_u64_from_le_bytes(b.subrange(48, 56)),
        admission_number: spec_u64_from_le_bytes(b.subrange(56, 64)),
        terminal: spec_u64_from_le_bytes(b.subrange(64, 72)),
        length: spec_u32_from_le_bytes(b.subrange(72, 76)),
        payload_crc32: spec_u32_from_le_bytes(b.subrange(76, 80)),
        state: state_of(b[80]),
        prevention: if b[80] == 2 {
            prevention_of(b[81])
        } else {
            None
        },
        extents_used: b[82],
        extents: spec_runs_from(b, 88),
    }
}

/// What a record image decodes to; every refusal is `Corrupt`.
pub open spec fn spec_decode_record7(b: Seq<u8>) -> Result<Record7, Error> {
    if spec_crc(b.subrange(0, 188)) != spec_u32_from_le_bytes(b.subrange(188, 192)) || !zero_range(
        b,
        83,
        88,
    ) || !zero_range(b, 152, 188) || b[80] > 3 || (b[80] == 2 && b[81] > 3) || (b[80] != 2 && b[81]
        != 0) || !record7_local_ok(decoded_record7(b)) {
        Err(Error::Corrupt)
    } else {
        Ok(decoded_record7(b))
    }
}

impl Record7 {
    pub fn runs(&self) -> (r: &[Extent])
        requires
            self.extents_used <= MAX_EXTENTS,
        ensures
            r@ == self.extents@.take(self.extents_used as int),
    {
        vstd::slice::slice_subrange(self.extents.as_slice(), 0, self.extents_used as usize)
    }

    /// What one record can prove about itself; every refusal is `Corrupt`.
    pub fn check_local(&self) -> (r: Result<(), Error>)
        ensures
            r is Ok <==> record7_local_ok(*self),
            r is Err ==> r == Err::<(), Error>(Error::Corrupt),
    {
        if self.subject == 0 || self.workspace == 0 || self.instance == 0 || self.object
            < FIRST_OBJECT || self.object == self.workspace || self.retry_key == 0
            || self.retry_epoch == 0 || self.previous == 0 {
            return Err(Error::Corrupt);
        }
        let allowed_prevention = self.state == RecordState::Cancelled;
        if allowed_prevention != self.prevention.is_some() {
            return Err(Error::Corrupt);
        }
        let bad = match self.state {
            RecordState::DirectCommitted => self.admission_number != 0 || self.terminal
                != self.committed || self.committed <= self.previous || self.instance
                > self.committed,
            RecordState::Admitted => self.committed != 0 || self.terminal != 0
                || self.admission_number <= self.previous || self.instance > self.admission_number,
            RecordState::Cancelled => self.committed != 0 || self.terminal
                <= self.admission_number || self.admission_number <= self.previous || self.instance
                > self.admission_number,
            RecordState::AdmittedCommitted => self.committed != self.terminal || self.terminal
                <= self.admission_number || self.admission_number <= self.previous || self.instance
                > self.admission_number,
        };
        if bad {
            return Err(Error::Corrupt);
        }
        let epoch_bound = match self.state {
            RecordState::DirectCommitted => self.committed,
            _ => self.admission_number,
        };
        if self.retry_epoch > epoch_bound {
            return Err(Error::Corrupt);
        }
        check_payload(self.extents.as_slice(), self.extents_used, self.length)
    }

    /// The contextual bounds: `sequence` is the global transaction identity and
    /// `next` the identity watermark. Every refusal is `Corrupt`.
    pub fn validate(&self, sequence: u64, next: u32) -> (r: Result<(), Error>)
        ensures
            r is Ok <==> record7_valid(*self, sequence, next),
            r is Err ==> r == Err::<(), Error>(Error::Corrupt),
    {
        if sequence == 0 || next < NEXT_MIN {
            return Err(Error::Corrupt);
        }
        self.check_local()?;
        if self.workspace >= next || self.object >= next {
            return Err(Error::Corrupt);
        }
        if self.retry_epoch > sequence || self.previous > sequence || self.committed > sequence
            || self.terminal > sequence || self.admission_number > sequence {
            return Err(Error::Corrupt);
        }
        Ok(())
    }

    /// Serialize a record this codec reads back, refusing an invalid one.
    pub fn encode(&self) -> (r: Result<[u8; RECORD_BYTES], Error>)
        ensures
            r is Ok <==> record7_local_ok(*self),
            r is Err ==> r == Err::<[u8; RECORD_BYTES], Error>(Error::Corrupt),
            r matches Ok(b) ==> encodes_record7(b@, *self),
    {
        self.check_local()?;
        let mut b = [0u8; RECORD_BYTES];
        put_u64(&mut b, 0, self.subject);
        put_u32(&mut b, 8, self.workspace);
        put_u32(&mut b, 12, self.object);
        put_u64(&mut b, 16, self.instance);
        put_u64(&mut b, 24, self.retry_epoch);
        put_u64(&mut b, 32, self.retry_key);
        put_u64(&mut b, 40, self.previous);
        put_u64(&mut b, 48, self.committed);
        put_u64(&mut b, 56, self.admission_number);
        put_u64(&mut b, 64, self.terminal);
        put_u32(&mut b, 72, self.length);
        put_u32(&mut b, 76, self.payload_crc32);
        b[80] = state_byte(self.state);
        b[81] = match self.prevention {
            Some(reason) => prevention_byte(reason),
            None => 0,
        };
        b[82] = self.extents_used;
        put_runs(&mut b, 88, &self.extents);
        let ghost body = b@;
        let checksum = crc(prefix(&b, 188));
        put_u32(&mut b, 188, checksum);
        proof {
            assert(b@.subrange(0, 188) =~= body.subrange(0, 188));
            assert(b@.subrange(0, 8) =~= spec_u64_to_le_bytes(self.subject));
            assert(b@.subrange(8, 12) =~= spec_u32_to_le_bytes(self.workspace));
            assert(b@.subrange(12, 16) =~= spec_u32_to_le_bytes(self.object));
            assert(b@.subrange(16, 24) =~= spec_u64_to_le_bytes(self.instance));
            assert(b@.subrange(24, 32) =~= spec_u64_to_le_bytes(self.retry_epoch));
            assert(b@.subrange(32, 40) =~= spec_u64_to_le_bytes(self.retry_key));
            assert(b@.subrange(40, 48) =~= spec_u64_to_le_bytes(self.previous));
            assert(b@.subrange(48, 56) =~= spec_u64_to_le_bytes(self.committed));
            assert(b@.subrange(56, 64) =~= spec_u64_to_le_bytes(self.admission_number));
            assert(b@.subrange(64, 72) =~= spec_u64_to_le_bytes(self.terminal));
            assert(b@.subrange(72, 76) =~= spec_u32_to_le_bytes(self.length));
            assert(b@.subrange(76, 80) =~= spec_u32_to_le_bytes(self.payload_crc32));
            assert(b@.subrange(188, 192) =~= spec_u32_to_le_bytes(checksum));
            assert forall|k: int| 0 <= k < 8 implies #[trigger] holds_run(b@, 88, self.extents@, k) by {
                assert(holds_run(body, 88, self.extents@, k));
                assert(b@.subrange(88 + 8 * k, 88 + 8 * k + 4) =~= body.subrange(
                    88 + 8 * k,
                    88 + 8 * k + 4,
                ));
                assert(b@.subrange(88 + 8 * k + 4, 88 + 8 * k + 8) =~= body.subrange(
                    88 + 8 * k + 4,
                    88 + 8 * k + 8,
                ));
            }
        }
        Ok(b)
    }

    /// Strict record decoding. A zero slot is refused here; use `slot`.
    pub fn decode(b: &[u8; RECORD_BYTES]) -> (r: Result<Self, Error>)
        ensures
            r == spec_decode_record7(b@),
    {
        let checksum = get_u32(b, 188);
        if crc(prefix(b, 188)) != checksum || !is_zero(b, 83, 88) || !is_zero(b, 152, 188) {
            return Err(Error::Corrupt);
        }
        let state = if b[80] == 0 {
            RecordState::DirectCommitted
        } else if b[80] == 1 {
            RecordState::Admitted
        } else if b[80] == 2 {
            RecordState::Cancelled
        } else if b[80] == 3 {
            RecordState::AdmittedCommitted
        } else {
            return Err(Error::Corrupt);
        };
        let prevention = if b[80] == 2 {
            match prevention_from(b[81]) {
                Some(reason) => Some(reason),
                None => return Err(Error::Corrupt),
            }
        } else {
            if b[81] != 0 {
                return Err(Error::Corrupt);
            }
            None
        };
        let extents = get_runs(b, 88);
        proof {
            assert(extents@ =~= runs_seq(b@, 88));
            lemma_runs_from(extents, b@, 88);
        }
        let record = Self {
            subject: get_u64(b, 0),
            workspace: get_u32(b, 8),
            object: get_u32(b, 12),
            instance: get_u64(b, 16),
            retry_epoch: get_u64(b, 24),
            retry_key: get_u64(b, 32),
            previous: get_u64(b, 40),
            committed: get_u64(b, 48),
            admission_number: get_u64(b, 56),
            terminal: get_u64(b, 64),
            length: get_u32(b, 72),
            payload_crc32: get_u32(b, 76),
            state,
            prevention,
            extents_used: b[82],
            extents,
        };
        record.check_local()?;
        Ok(record)
    }

    /// One retained slot: `None` for the all-zero slot, otherwise the strict
    /// record.
    pub fn slot(b: &[u8; RECORD_BYTES]) -> (r: Result<Option<Self>, Error>)
        ensures
            r == spec_slot7(b@),
    {
        if all_zero(b) {
            Ok(None)
        } else {
            Ok(Some(Self::decode(b)?))
        }
    }
}

/// What one retained slot decodes to.
pub open spec fn spec_slot7(b: Seq<u8>) -> Result<Option<Record7>, Error> {
    if zero_range(b, 0, 192) {
        Ok(None)
    } else {
        match spec_decode_record7(b) {
            Ok(r) => Ok(Some(r)),
            Err(e) => Err(e),
        }
    }
}

/// A record whose own checks pass survives encoding and decoding unchanged.
pub proof fn lemma_record7_roundtrip(b: Seq<u8>, r: Record7)
    requires
        record7_local_ok(r),
        encodes_record7(b, r),
    ensures
        spec_decode_record7(b) == Ok::<Record7, Error>(r),
{
    lemma_le64(r.subject);
    lemma_le32(r.workspace);
    lemma_le32(r.object);
    lemma_le64(r.instance);
    lemma_le64(r.retry_epoch);
    lemma_le64(r.retry_key);
    lemma_le64(r.previous);
    lemma_le64(r.committed);
    lemma_le64(r.admission_number);
    lemma_le64(r.terminal);
    lemma_le32(r.length);
    lemma_le32(r.payload_crc32);
    lemma_le32(spec_crc(b.subrange(0, 188)));
    assert forall|k: int| 0 <= k < 8 implies #[trigger] runs_seq(b, 88)[k] == r.extents@[k] by {
        if k < r.extents_used {
            assert(run_live(r.extents@[k]));
        } else {
            assert(is_zero_run(r.extents@[k]));
        }
        lemma_run_roundtrip(b, 88, r.extents@, k);
    }
    assert(runs_seq(b, 88) =~= r.extents@);
    lemma_runs_from(r.extents, b, 88);
}

/// Decode one generation's retained receipt block: the eight slots come first
/// and the padding after them must be zero.
pub fn receipt_slots(block: &[u8; RECEIPT_BLOCK_BYTES]) -> (r: Result<
    [Option<Record7>; RETAINED],
    Error,
>)
    ensures
        r is Ok <==> (zero_range(block@, 1536, 2048) && forall|k: int|
            0 <= k < 8 ==> #[trigger] spec_slot7(block@.subrange(192 * k, 192 * k + 192)) is Ok),
        r is Err ==> r == Err::<[Option<Record7>; RETAINED], Error>(Error::Corrupt),
        r matches Ok(slots) ==> forall|k: int|
            0 <= k < 8 ==> Ok::<Option<Record7>, Error>(#[trigger] slots@[k]) == spec_slot7(
                block@.subrange(192 * k, 192 * k + 192),
            ),
{
    if !is_zero(block, 1536, RECEIPT_BLOCK_BYTES) {
        return Err(Error::Corrupt);
    }
    let mut slots: [Option<Record7>; RETAINED] = [None; RETAINED];
    let mut i: usize = 0;
    while i < RETAINED
        invariant
            0 <= i <= RETAINED,
            zero_range(block@, 1536, 2048),
            forall|k: int|
                0 <= k < i ==> #[trigger] spec_slot7(block@.subrange(192 * k, 192 * k + 192)) is Ok,
            forall|k: int|
                0 <= k < i ==> Ok::<Option<Record7>, Error>(#[trigger] slots@[k]) == spec_slot7(
                    block@.subrange(192 * k, 192 * k + 192),
                ),
        decreases RETAINED - i,
    {
        let piece: [u8; RECORD_BYTES] = take_array(block, 192 * i);
        match Record7::slot(&piece) {
            Ok(slot) => {
                slots[i] = slot;
            },
            Err(_) => {
                assert(spec_slot7(block@.subrange(192 * i, 192 * i + 192)) is Err);
                return Err(Error::Corrupt);
            },
        }
        i = i + 1;
    }
    Ok(slots)
}

} // verus!
