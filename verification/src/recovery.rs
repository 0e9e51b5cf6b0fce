//! Durable replacement evidence: retry identities and the receipts a committed
//! replacement leaves, independent from client authorization.
use vstd::prelude::*;

verus! {

/// Records the v5 recovery area retains.
pub const RETAINED: usize = 2;
/// Sectors the v5 recovery area spans per bank.
pub const RECOVERY_SECTORS: usize = 7;

/// A client's retry identity: the volume lineage, the retention epoch and a key.
#[derive(Clone, Copy, Debug, PartialEq, Eq)]
pub struct Retry {
    pub lineage: [u8; 16],
    pub epoch: u64,
    pub key: u64,
}

/// What a committed replacement records.
#[derive(Clone, Copy, Debug, PartialEq, Eq)]
pub struct Receipt {
    pub retry: Retry,
    pub id: u32,
    pub previous: u64,
    pub committed: u64,
    pub length: u16,
}

} // verus!

verus! {

/// Whether two retry identities are the same.
pub fn same_retry(a: &Retry, b: &Retry) -> (r: bool)
    ensures
        r == (*a == *b),
{
    crate::codec::same_bytes(&a.lineage, &b.lineage) && a.epoch == b.epoch && a.key == b.key
}

} // verus!

verus! {

use crate::admission::{AdmissionState, PreventionReason, prevention_code, prevention_of, prevention_byte, prevention_from};
use crate::codec::{zero_range, put, put_u16, put_u32, put_u64, get_u16, get_u32, get_u64, is_zero, take_array, all_zero, spec_array, lemma_array, same_bytes, matches_at};
use vstd::bytes::*;
use crate::{Error, MAX_FILE};

/// The durable half of an admission: its number, state, terminal sequence and
/// retained cause.
#[derive(Clone, Copy, Debug)]
pub struct Stored {
    pub number: u64,
    pub state: AdmissionState,
    pub terminal: u64,
    pub prevention: Option<PreventionReason>,
}

/// One retained replacement: the subject it was made for, its receipt, the
/// workspace and instance it belongs to, the exact bytes, and its admission.
#[derive(Clone, Copy)]
pub struct Record {
    pub subject: u64,
    pub receipt: Receipt,
    pub namespace: Option<(u32, u64)>,
    pub bytes: [u8; MAX_FILE],
    pub admission: Option<Stored>,
}

/// The bounded recovery area: lineage, retention epoch, enabled format
/// features and two record slots.
#[derive(Clone, Copy)]
pub struct Recovery {
    pub lineage: [u8; 16],
    pub epoch: u64,
    pub scoped: bool,
    pub admissions: bool,
    pub reasons: bool,
    pub records: [Option<Record>; RETAINED],
}

/// Bytes of the recovery area.
pub const RECOVERY_BYTES: usize = 3584;
/// Bytes of one record inside it.
pub const RECORD_BYTES: usize = 1536;

/// The first slot holding a record for `subject` and `retry`, if any.
pub open spec fn matching_slot(records: Seq<Option<Record>>, subject: u64, retry: Retry) -> Option<int> {
    if records.len() > 0 && record_is(records[0], subject, retry) {
        Some(0)
    } else if records.len() > 1 && record_is(records[1], subject, retry) {
        Some(1)
    } else {
        None
    }
}

/// A slot holds a record for this subject and retry.
pub open spec fn record_is(slot: Option<Record>, subject: u64, retry: Retry) -> bool {
    slot matches Some(r) && r.subject == subject && r.receipt.retry == retry
}

impl Recovery {
    /// Every retained record's length fits a file.
    pub open spec fn inv(&self) -> bool {
        forall|k: int| 0 <= k < RETAINED ==> (#[trigger] self.records@[k] matches Some(r) ==> r.receipt.length <= MAX_FILE)
    }

    /// What `find` answers.
    pub open spec fn spec_find(self, subject: u64, retry: Retry) -> Result<Option<Record>, Error> {
        if subject == 0 || retry.key == 0 || retry.epoch == 0 {
            Err(Error::Invalid)
        } else if retry.lineage != self.lineage {
            Err(Error::Lineage)
        } else if matching_slot(self.records@, subject, retry) is Some {
            Ok(self.records@[matching_slot(self.records@, subject, retry).unwrap()])
        } else if retry.epoch != self.epoch {
            Err(Error::ExpiredEpoch)
        } else {
            Ok(None)
        }
    }

    /// An empty area at epoch one; a zero lineage is `Invalid`.
    pub fn new(lineage: [u8; 16]) -> (r: Result<Self, Error>)
        ensures
            r is Err <==> lineage@ == Seq::new(16, |i: int| 0u8),
            r is Err ==> r == Err::<Recovery, Error>(Error::Invalid),
            r matches Ok(v) ==> {
                &&& v.lineage == lineage
                &&& v.epoch == 1
                &&& !v.scoped && !v.admissions && !v.reasons
                &&& v.records@ == seq![None::<Record>, None::<Record>]
            },
    {
        if all_zero(&lineage) {
            assert(lineage@ =~= Seq::new(16, |i: int| 0u8));
            return Err(Error::Invalid);
        }
        let r = Self {
            lineage,
            epoch: 1,
            scoped: false,
            admissions: false,
            reasons: false,
            records: [None, None],
        };
        assert(r.records@ =~= seq![None::<Record>, None::<Record>]);
        Ok(r)
    }

    /// The retained record for this subject and retry. Zero identities are
    /// `Invalid`, a foreign lineage `Lineage`, and a miss in an older epoch
    /// `ExpiredEpoch`.
    pub fn find(&self, subject: u64, retry: Retry) -> (r: Result<Option<Record>, Error>)
        ensures
            r == self.spec_find(subject, retry),
    {
        if subject == 0 || retry.key == 0 || retry.epoch == 0 {
            return Err(Error::Invalid);
        }
        if !same_bytes(&retry.lineage, &self.lineage) {
            return Err(Error::Lineage);
        }
        if let Some(record) = self.records[0] {
            if record.subject == subject && same_retry(&record.receipt.retry, &retry) {
                return Ok(Some(record));
            }
        }
        if let Some(record) = self.records[1] {
            if record.subject == subject && same_retry(&record.receipt.retry, &retry) {
                return Ok(Some(record));
            }
        }
        if retry.epoch != self.epoch {
            return Err(Error::ExpiredEpoch);
        }
        Ok(None)
    }
}

} // verus!

verus! {

pub open spec fn state_code(state: AdmissionState) -> u8 {
    match state {
        AdmissionState::Admitted => 1u8,
        AdmissionState::Cancelled => 2u8,
        AdmissionState::Committed => 3u8,
    }
}

/// `p` is the 1536-byte image of record `r`.
pub open spec fn encodes_record(p: Seq<u8>, r: Record) -> bool {
    &&& p.len() == 1536
    &&& p.subrange(0, 8) == spec_u64_to_le_bytes(r.subject)
    &&& p.subrange(8, 16) == spec_u64_to_le_bytes(r.receipt.retry.epoch)
    &&& p.subrange(16, 24) == spec_u64_to_le_bytes(r.receipt.retry.key)
    &&& p.subrange(24, 28) == spec_u32_to_le_bytes(r.receipt.id)
    &&& p.subrange(28, 30) == spec_u16_to_le_bytes(r.receipt.length)
    &&& zero_range(p, 30, 32)
    &&& p.subrange(32, 40) == spec_u64_to_le_bytes(r.receipt.previous)
    &&& p.subrange(40, 48) == spec_u64_to_le_bytes(r.receipt.committed)
    &&& match r.namespace {
        Some((w, i)) => p.subrange(48, 52) == spec_u32_to_le_bytes(w) && p.subrange(56, 64)
            == spec_u64_to_le_bytes(i),
        None => zero_range(p, 48, 52) && zero_range(p, 56, 64),
    }
    &&& zero_range(p, 52, 56)
    &&& match r.admission {
        Some(a) => p.subrange(64, 72) == spec_u64_to_le_bytes(a.number) && p.subrange(72, 80)
            == spec_u64_to_le_bytes(a.terminal) && p[80] == state_code(a.state) && p[81] == match a.prevention {
            Some(c) => prevention_code(c),
            None => 0u8,
        },
        None => zero_range(p, 64, 82),
    }
    &&& zero_range(p, 82, 512)
    &&& p.subrange(512, 1536) == r.bytes@
}

/// `b` is the image of the recovery area `v`.
pub open spec fn encodes_recovery(b: Seq<u8>, v: Recovery) -> bool {
    &&& b.len() == 3584
    &&& b.subrange(0, 8) == if v.scoped { REC2@ } else { REC1@ }
    &&& b.subrange(8, 24) == v.lineage@
    &&& b.subrange(24, 32) == spec_u64_to_le_bytes(v.epoch)
    &&& zero_range(b, 32, 512)
    &&& forall|k: int| 0 <= k < 2 ==> #[trigger] slot_holds(b.subrange(512 + 1536 * k, 2048 + 1536 * k), v.records@[k])
}

/// A slot image holds a record, or zeros for an empty slot.
pub open spec fn slot_holds(p: Seq<u8>, slot: Option<Record>) -> bool {
    match slot {
        Some(r) => encodes_record(p, r),
        None => p.len() == 1536 && zero_range(p, 0, 1536),
    }
}

pub const REC1: [u8; 8] = [82, 85, 83, 84, 82, 69, 67, 49];
pub const REC2: [u8; 8] = [82, 85, 83, 84, 82, 69, 67, 50];

fn state_byte(state: AdmissionState) -> (r: u8)
    ensures
        r == state_code(state),
{
    match state {
        AdmissionState::Admitted => 1,
        AdmissionState::Cancelled => 2,
        AdmissionState::Committed => 3,
    }
}

fn encode_record(r: &Record, b: &mut [u8; RECOVERY_BYTES], at: usize)
    requires
        at + 1536 <= RECOVERY_BYTES,
        zero_range(old(b)@, at as int, at + 1536),
    ensures
        final(b)@.len() == RECOVERY_BYTES,
        encodes_record(final(b)@.subrange(at as int, at + 1536), *r),
        forall|j: int| 0 <= j < RECOVERY_BYTES && !(at <= j < at + 1536) ==> #[trigger] final(b)@[j] == old(b)@[j],
{
    let mut p = [0u8; RECORD_BYTES];
    put_u64(&mut p, 0, r.subject);
    put_u64(&mut p, 8, r.receipt.retry.epoch);
    put_u64(&mut p, 16, r.receipt.retry.key);
    put_u32(&mut p, 24, r.receipt.id);
    put_u16(&mut p, 28, r.receipt.length);
    put_u64(&mut p, 32, r.receipt.previous);
    put_u64(&mut p, 40, r.receipt.committed);
    let ghost before_ns = p@;
    if let Some((workspace, instance)) = r.namespace {
        put_u32(&mut p, 48, workspace);
        put_u64(&mut p, 56, instance);
    }
    let ghost before_adm = p@;
    if let Some(a) = r.admission {
        put_u64(&mut p, 64, a.number);
        put_u64(&mut p, 72, a.terminal);
        p[80] = state_byte(a.state);
        p[81] = match a.prevention {
            Some(c) => prevention_byte(c),
            None => 0,
        };
    }
    let ghost before_bytes = p@;
    put(&mut p, 512, r.bytes.as_slice());
    proof {
        assert(p@.subrange(0, 8) =~= spec_u64_to_le_bytes(r.subject));
        assert(p@.subrange(8, 16) =~= spec_u64_to_le_bytes(r.receipt.retry.epoch));
        assert(p@.subrange(16, 24) =~= spec_u64_to_le_bytes(r.receipt.retry.key));
        assert(p@.subrange(24, 28) =~= spec_u32_to_le_bytes(r.receipt.id));
        assert(p@.subrange(28, 30) =~= spec_u16_to_le_bytes(r.receipt.length));
        assert(p@.subrange(32, 40) =~= spec_u64_to_le_bytes(r.receipt.previous));
        assert(p@.subrange(40, 48) =~= spec_u64_to_le_bytes(r.receipt.committed));
        if let Some((w, i)) = r.namespace {
            assert(p@.subrange(48, 52) =~= spec_u32_to_le_bytes(w));
            assert(p@.subrange(56, 64) =~= spec_u64_to_le_bytes(i));
        }
        if let Some(a) = r.admission {
            assert(p@.subrange(64, 72) =~= spec_u64_to_le_bytes(a.number));
            assert(p@.subrange(72, 80) =~= spec_u64_to_le_bytes(a.terminal));
        }
        assert(p@.subrange(512, 1536) =~= r.bytes@);
    }
    let ghost image = p@;
    put(b, at, p.as_slice());
    assert(b@.subrange(at as int, at + 1536) =~= image);
}

impl Recovery {
    /// The seven-sector image of the area.
    pub fn encode(&self) -> (r: [u8; RECOVERY_BYTES])
        ensures
            encodes_recovery(r@, *self),
    {
        let mut b = [0u8; RECOVERY_BYTES];
        let magic = if self.scoped { REC2 } else { REC1 };
        put(&mut b, 0, magic.as_slice());
        put(&mut b, 8, self.lineage.as_slice());
        put_u64(&mut b, 24, self.epoch);
        let ghost head = b@;
        if let Some(r) = self.records[0] {
            encode_record(&r, &mut b, 512);
        }
        let ghost mid = b@;
        if let Some(r) = self.records[1] {
            encode_record(&r, &mut b, 2048);
        }
        proof {
            assert(b@.subrange(0, 8) =~= if self.scoped { REC2@ } else { REC1@ });
            assert(b@.subrange(8, 24) =~= self.lineage@);
            assert(b@.subrange(24, 32) =~= spec_u64_to_le_bytes(self.epoch));
            assert(slot_holds(b@.subrange(512, 2048), self.records@[0])) by {
                assert(b@.subrange(512, 2048) =~= mid.subrange(512, 2048));
            }
            assert(slot_holds(b@.subrange(2048, 3584), self.records@[1])) by {
                if self.records@[1] is None {
                    assert(b@.subrange(2048, 3584) =~= mid.subrange(2048, 3584));
                }
            }
            assert forall|k: int| 0 <= k < 2 implies #[trigger] slot_holds(b@.subrange(512 + 1536 * k, 2048 + 1536 * k), self.records@[k]) by {
            }
        }
        b
    }
}

} // verus!

verus! {

pub open spec fn admission_state_of(code: u8) -> AdmissionState {
    if code == 1 {
        AdmissionState::Admitted
    } else if code == 2 {
        AdmissionState::Cancelled
    } else {
        AdmissionState::Committed
    }
}

/// The record a non-zero slot image names, within `lineage`.
pub open spec fn spec_record_of(p: Seq<u8>, lineage: [u8; 16]) -> Record {
    let w = spec_u32_from_le_bytes(p.subrange(48, 52));
    let i = spec_u64_from_le_bytes(p.subrange(56, 64));
    Record {
        subject: spec_u64_from_le_bytes(p.subrange(0, 8)),
        receipt: Receipt {
            retry: Retry {
                lineage,
                epoch: spec_u64_from_le_bytes(p.subrange(8, 16)),
                key: spec_u64_from_le_bytes(p.subrange(16, 24)),
            },
            id: spec_u32_from_le_bytes(p.subrange(24, 28)),
            previous: spec_u64_from_le_bytes(p.subrange(32, 40)),
            committed: spec_u64_from_le_bytes(p.subrange(40, 48)),
            length: spec_u16_from_le_bytes(p.subrange(28, 30)),
        },
        namespace: if w == 0 && i == 0 {
            None
        } else {
            Some((w, i))
        },
        bytes: spec_array::<1024>(p.subrange(512, 1536)),
        admission: if zero_range(p, 64, 512) {
            None
        } else {
            Some(
                Stored {
                    number: spec_u64_from_le_bytes(p.subrange(64, 72)),
                    state: admission_state_of(p[80]),
                    terminal: spec_u64_from_le_bytes(p.subrange(72, 80)),
                    prevention: if p[80] == 2 {
                        prevention_of(p[81])
                    } else {
                        None
                    },
                },
            )
        },
    }
}

/// The bounds a stored record must meet: a subject, a retry of the area's
/// epoch with a key, an object above the roots and below the watermark, a
/// replaced version, a length a file can have with zeros after the bytes, a
/// namespace only on a scoped area, and either a commit no newer than the
/// sequence or a sound admission on an admission-capable area.
pub open spec fn record_image_ok(p: Seq<u8>, lineage: [u8; 16], epoch: u64, sequence: u64, next: u32, version: u8) -> bool {
    let r = spec_record_of(p, lineage);
    let w = spec_u32_from_le_bytes(p.subrange(48, 52));
    let i = spec_u64_from_le_bytes(p.subrange(56, 64));
    let has_ns = !(w == 0 && i == 0);
    let number = spec_u64_from_le_bytes(p.subrange(64, 72));
    let terminal = spec_u64_from_le_bytes(p.subrange(72, 80));
    let committed = r.receipt.committed;
    &&& r.subject != 0
    &&& r.receipt.retry.epoch == epoch
    &&& r.receipt.retry.key != 0
    &&& r.receipt.id > 4
    &&& r.receipt.id < next
    &&& r.receipt.previous != 0
    &&& r.receipt.length <= MAX_FILE
    &&& zero_range(p, 30, 32)
    &&& zero_range(p, 52, 56)
    &&& zero_range(p, 512 + r.receipt.length, 1536)
    &&& (has_ns ==> version >= 3 && w != 0 && w < next && w != r.receipt.id && i != 0)
    &&& if zero_range(p, 64, 512) {
        &&& r.receipt.previous < committed
        &&& committed <= sequence
        &&& (has_ns ==> i <= committed)
    } else {
        &&& version >= 4
        &&& zero_range(p, 82, 512)
        &&& 1 <= p[80] <= 3
        &&& (p[80] == 2 ==> p[81] <= 3 && (version == 4 ==> p[81] == 0))
        &&& (p[80] != 2 ==> p[81] == 0)
        &&& number != 0
        &&& number <= sequence
        &&& r.receipt.previous < number
        &&& has_ns
        &&& i <= number
        &&& (p[80] == 1 ==> terminal == 0 && committed == 0)
        &&& (p[80] == 2 ==> number < terminal <= sequence && committed == 0)
        &&& (p[80] == 3 ==> number < terminal <= sequence && committed == terminal)
    }
}

/// What one slot image decodes to.
pub open spec fn spec_slot(p: Seq<u8>, lineage: [u8; 16], epoch: u64, sequence: u64, next: u32, version: u8) -> Result<Option<Record>, Error> {
    if zero_range(p, 0, 1536) {
        Ok(None)
    } else if !record_image_ok(p, lineage, epoch, sequence, next, version) {
        Err(Error::Corrupt)
    } else {
        Ok(Some(spec_record_of(p, lineage)))
    }
}

/// Two records that cannot both be retained: the same commit, the same admission
/// number, or the same subject, workspace and retry.
pub open spec fn records_conflict(a: Record, b: Record) -> bool {
    ||| (a.receipt.committed != 0 && a.receipt.committed == b.receipt.committed)
    ||| (a.admission is Some && b.admission is Some && a.admission.unwrap().number == b.admission.unwrap().number)
    ||| (a.subject == b.subject && a.receipt.retry == b.receipt.retry && match (a.namespace, b.namespace) {
        (None, None) => true,
        (Some((w1, _)), Some((w2, _))) => w1 == w2,
        _ => false,
    })
}

/// What a recovery area decodes to for a header of `version`.
pub open spec fn spec_decode_recovery(b: Seq<u8>, sequence: u64, next: u32, version: u8) -> Result<Recovery, Error> {
    let lineage = spec_array::<16>(b.subrange(8, 24));
    let epoch = spec_u64_from_le_bytes(b.subrange(24, 32));
    let s0 = spec_slot(b.subrange(512, 2048), lineage, epoch, sequence, next, version);
    let s1 = spec_slot(b.subrange(2048, 3584), lineage, epoch, sequence, next, version);
    if b.subrange(0, 8) != (if version >= 3 { REC2@ } else { REC1@ }) || !zero_range(b, 32, 512)
        || b.subrange(8, 24) == Seq::new(16, |i: int| 0u8) || epoch == 0 || epoch > sequence
        || s0 is Err || s1 is Err || (s0.unwrap() is Some && s1.unwrap() is Some && records_conflict(s0.unwrap().unwrap(), s1.unwrap().unwrap())) {
        Err(Error::Corrupt)
    } else {
        Ok(Recovery {
            lineage,
            epoch,
            scoped: version >= 3,
            admissions: version >= 4,
            reasons: version >= 5,
            records: spec_records_array(s0.unwrap(), s1.unwrap()),
        })
    }
}

pub open spec fn spec_records_array(a: Option<Record>, b: Option<Record>) -> [Option<Record>; 2] {
    choose|x: [Option<Record>; 2]| #![trigger x@] x@ == seq![a, b]
}

fn decode_slot(p: &[u8; RECORD_BYTES], lineage: [u8; 16], epoch: u64, sequence: u64, next: u32, version: u8) -> (r: Result<Option<Record>, Error>)
    ensures
        r == spec_slot(p@, lineage, epoch, sequence, next, version),
{
    if all_zero(p) {
        return Ok(None);
    }
    let subject = get_u64(p, 0);
    let retry_epoch = get_u64(p, 8);
    let key = get_u64(p, 16);
    let id = get_u32(p, 24);
    let length = get_u16(p, 28);
    let previous = get_u64(p, 32);
    let committed = get_u64(p, 40);
    let w = get_u32(p, 48);
    let i = get_u64(p, 56);
    let has_ns = !(w == 0 && i == 0);
    if subject == 0 || retry_epoch != epoch || key == 0 || id <= 4 || id >= next || previous == 0
        || length as usize > MAX_FILE || !is_zero(p, 30, 32) || !is_zero(p, 52, 56)
        || !is_zero(p, 512 + length as usize, RECORD_BYTES) {
        return Err(Error::Corrupt);
    }
    if has_ns && (version < 3 || w == 0 || w >= next || w == id || i == 0) {
        return Err(Error::Corrupt);
    }
    let admission = if is_zero(p, 64, 512) {
        if previous >= committed || committed > sequence || (has_ns && i > committed) {
            return Err(Error::Corrupt);
        }
        None
    } else {
        let number = get_u64(p, 64);
        let terminal = get_u64(p, 72);
        let code = p[80];
        let cause = p[81];
        if version < 4 || !is_zero(p, 82, 512) || code < 1 || code > 3 || number == 0 || number > sequence
            || previous >= number || !has_ns || i > number {
            return Err(Error::Corrupt);
        }
        if code == 2 {
            if cause > 3 || (version == 4 && cause != 0) {
                return Err(Error::Corrupt);
            }
        } else if cause != 0 {
            return Err(Error::Corrupt);
        }
        if code == 1 && (terminal != 0 || committed != 0) {
            return Err(Error::Corrupt);
        }
        if code == 2 && (terminal <= number || terminal > sequence || committed != 0) {
            return Err(Error::Corrupt);
        }
        if code == 3 && (terminal <= number || terminal > sequence || committed != terminal) {
            return Err(Error::Corrupt);
        }
        let state = if code == 1 {
            AdmissionState::Admitted
        } else if code == 2 {
            AdmissionState::Cancelled
        } else {
            AdmissionState::Committed
        };
        let prevention = if code == 2 { prevention_from(cause) } else { None };
        Some(Stored { number, state, terminal, prevention })
    };
    let bytes: [u8; MAX_FILE] = take_array(p, 512);
    proof {
        lemma_array::<1024>(bytes);
    }
    Ok(Some(Record {
        subject,
        receipt: Receipt {
            retry: Retry { lineage, epoch: retry_epoch, key },
            id,
            previous,
            committed,
            length,
        },
        namespace: if has_ns { Some((w, i)) } else { None },
        bytes,
        admission,
    }))
}

fn conflict(a: &Record, b: &Record) -> (r: bool)
    ensures
        r == records_conflict(*a, *b),
{
    if a.receipt.committed != 0 && a.receipt.committed == b.receipt.committed {
        return true;
    }
    if let (Some(x), Some(y)) = (a.admission, b.admission) {
        if x.number == y.number {
            return true;
        }
    }
    if a.subject == b.subject && same_retry(&a.receipt.retry, &b.receipt.retry) {
        match (a.namespace, b.namespace) {
            (None, None) => {
                return true;
            },
            (Some((w1, _)), Some((w2, _))) => {
                return w1 == w2;
            },
            _ => {
                return false;
            },
        }
    }
    false
}

impl Recovery {
    /// Decode the area a header of `version` names: the magic for its scope,
    /// zero padding, a lineage and an epoch no newer than the sequence, and two
    /// slots that decode and do not conflict. Every refusal is `Corrupt`.
    pub fn decode(b: &[u8; RECOVERY_BYTES], sequence: u64, next: u32, version: u8) -> (r: Result<Self, Error>)
        ensures
            r == spec_decode_recovery(b@, sequence, next, version),
    {
        let magic = if version >= 3 { REC2 } else { REC1 };
        if !matches_at(b, 0, magic.as_slice()) || !is_zero(b, 32, 512) {
            return Err(Error::Corrupt);
        }
        let lineage: [u8; 16] = take_array(b, 8);
        proof {
            lemma_array::<16>(lineage);
        }
        if all_zero(&lineage) {
            assert(b@.subrange(8, 24) =~= Seq::new(16, |i: int| 0u8));
            return Err(Error::Corrupt);
        }
        let epoch = get_u64(b, 24);
        if epoch == 0 || epoch > sequence {
            return Err(Error::Corrupt);
        }
        let p0: [u8; RECORD_BYTES] = take_array(b, 512);
        let p1: [u8; RECORD_BYTES] = take_array(b, 2048);
        let s0 = decode_slot(&p0, lineage, epoch, sequence, next, version)?;
        let s1 = decode_slot(&p1, lineage, epoch, sequence, next, version)?;
        if let (Some(a), Some(c)) = (s0, s1) {
            if conflict(&a, &c) {
                return Err(Error::Corrupt);
            }
        }
        let records = [s0, s1];
        proof {
            assert(records@ =~= seq![s0, s1]);
            let x = spec_records_array(s0, s1);
            crate::codec::lemma_array_view_eq(x, records);
        }
        Ok(Self {
            lineage,
            epoch,
            scoped: version >= 3,
            admissions: version >= 4,
            reasons: version >= 5,
            records,
        })
    }
}

} // verus!

verus! {

/// The first empty record slot.
pub open spec fn free_slot(records: Seq<Option<Record>>) -> Option<int> {
    if records[0] is None {
        Some(0)
    } else if records[1] is None {
        Some(1)
    } else {
        None
    }
}

/// `r` retains `bytes` for `subject` under `receipt`, with this namespace and admission.
pub open spec fn record_holds(r: Record, subject: u64, receipt: Receipt, namespace: Option<(u32, u64)>, bytes: Seq<u8>, admission: Option<Stored>) -> bool {
    &&& r.subject == subject
    &&& r.receipt == receipt
    &&& r.namespace == namespace
    &&& r.admission == admission
    &&& r.bytes@ == bytes + Seq::new((MAX_FILE - bytes.len()) as nat, |i: int| 0u8)
}

impl Recovery {
    /// The first empty record slot.
    pub fn free(&self) -> (r: Option<usize>)
        ensures
            r matches Some(i) ==> free_slot(self.records@) == Some(i as int) && i < RETAINED,
            r is None ==> free_slot(self.records@) is None,
    {
        if self.records[0].is_none() {
            Some(0)
        } else if self.records[1].is_none() {
            Some(1)
        } else {
            None
        }
    }
}

/// A record retaining `bytes` for `subject`.
pub fn make_record(subject: u64, receipt: Receipt, namespace: Option<(u32, u64)>, bytes: &[u8], admission: Option<Stored>) -> (r: Record)
    requires
        bytes@.len() <= MAX_FILE,
    ensures
        record_holds(r, subject, receipt, namespace, bytes@, admission),
{
    let mut b = [0u8; MAX_FILE];
    put(&mut b, 0, bytes);
    let r = Record { subject, receipt, namespace, bytes: b, admission };
    assert(r.bytes@ =~= bytes@ + Seq::new((MAX_FILE - bytes@.len()) as nat, |i: int| 0u8));
    r
}

/// Whether a retained record holds exactly `bytes`.
pub fn holds_bytes(r: &Record, bytes: &[u8]) -> (ok: bool)
    ensures
        ok == (r.receipt.length == bytes@.len() && r.receipt.length <= MAX_FILE && r.bytes@.take(r.receipt.length as int) == bytes@),
{
    if r.receipt.length as usize != bytes.len() || r.receipt.length as usize > MAX_FILE {
        return false;
    }
    let stored = vstd::slice::slice_subrange(r.bytes.as_slice(), 0, bytes.len());
    assert(stored@ =~= r.bytes@.take(r.receipt.length as int));
    crate::codec::slices_equal(stored, bytes)
}

} // verus!
