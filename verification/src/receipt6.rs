//! Bounded v6 operation receipts.
//!
//! A receipt is the durable evidence that an effect may have happened. The table
//! keeps eight of them, and refuses rather than breaks two rules: a full table
//! reports `Full` instead of evicting the oldest, and an epoch cannot be rotated
//! while a record is retained, because that would make a client's unresolved
//! outcome look like it never happened.
use vstd::prelude::*;
use vstd::bytes::*;
use crate::checksum::{crc, crc_update, spec_crc, crc_fold, lemma_crc_fold_append};
use crate::codec::{
    zero_range, put, put_u32, put_u64, get_u32, get_u64, is_zero, prefix, spec_array, lemma_array,
    take_array, all_zero, lemma_le32, lemma_le64,
};
use crate::recovery::{Retry, same_retry};
use crate::extent::OBJECTS_V6;
use crate::Error;

verus! {

/// Receipts the v6 volume retains.
pub const RETAINED_V6: usize = 8;
/// On-disk size of one receipt record.
pub const RECEIPT_BYTES: usize = 96;
/// Bytes of one generation's receipt block: a 24-byte header, the records, and
/// padding to a sector boundary.
pub const BLOCK_BYTES: usize = 1024;
pub const RECEIPT_SECTORS: u64 = 2;
/// Bytes before the records inside the block: lineage and epoch.
pub const BLOCK_HEADER_BYTES: usize = 24;
/// Bytes of the eight records.
pub const RECORDS_BYTES: usize = 768;

/// What a committed operation records, without the payload.
#[derive(Clone, Copy, Debug, PartialEq, Eq)]
pub struct Receipt6 {
    pub retry: Retry,
    pub id: u32,
    pub previous: u64,
    pub committed: u64,
    /// 32 bits, matching the v6 record's widened length.
    pub length: u32,
}

/// `b` is the 96-byte image of `r`, closed by the CRC of its first 92 bytes.
pub open spec fn encodes_receipt6(b: Seq<u8>, r: Receipt6) -> bool {
    &&& b.len() == 96
    &&& b.subrange(0, 16) == r.retry.lineage@
    &&& b.subrange(16, 24) == spec_u64_to_le_bytes(r.retry.epoch)
    &&& b.subrange(24, 32) == spec_u64_to_le_bytes(r.retry.key)
    &&& b.subrange(32, 36) == spec_u32_to_le_bytes(r.id)
    &&& b.subrange(36, 44) == spec_u64_to_le_bytes(r.previous)
    &&& b.subrange(44, 52) == spec_u64_to_le_bytes(r.committed)
    &&& b.subrange(52, 56) == spec_u32_to_le_bytes(r.length)
    &&& zero_range(b, 56, 92)
    &&& b.subrange(92, 96) == spec_u32_to_le_bytes(spec_crc(b.subrange(0, 92)))
}

/// A receipt a decoder accepts: a lineage, an epoch and a key, an object id in
/// the table, and a commit after the version it replaced.
pub open spec fn receipt6_valid(r: Receipt6) -> bool {
    &&& r.retry.lineage@ != Seq::new(16, |i: int| 0u8)
    &&& r.retry.epoch != 0
    &&& r.retry.key != 0
    &&& r.id != 0
    &&& r.id <= OBJECTS_V6
    &&& r.committed > r.previous
}

pub open spec fn decoded_receipt6(b: Seq<u8>) -> Receipt6 {
    Receipt6 {
        retry: Retry {
            lineage: spec_array::<16>(b.subrange(0, 16)),
            epoch: spec_u64_from_le_bytes(b.subrange(16, 24)),
            key: spec_u64_from_le_bytes(b.subrange(24, 32)),
        },
        id: spec_u32_from_le_bytes(b.subrange(32, 36)),
        previous: spec_u64_from_le_bytes(b.subrange(36, 44)),
        committed: spec_u64_from_le_bytes(b.subrange(44, 52)),
        length: spec_u32_from_le_bytes(b.subrange(52, 56)),
    }
}

/// What a receipt image decodes to; every refusal is `Corrupt`.
pub open spec fn spec_decode_receipt6(b: Seq<u8>) -> Result<Receipt6, Error> {
    if spec_crc(b.subrange(0, 92)) != spec_u32_from_le_bytes(b.subrange(92, 96)) || !zero_range(
        b,
        56,
        92,
    ) || !receipt6_valid(decoded_receipt6(b)) {
        Err(Error::Corrupt)
    } else {
        Ok(decoded_receipt6(b))
    }
}

/// The one image of a receipt.
pub open spec fn receipt6_image(r: Receipt6) -> Seq<u8> {
    choose|b: Seq<u8>| encodes_receipt6(b, r)
}

/// The image of a receipt is unique.
pub proof fn lemma_receipt6_image_unique(b1: Seq<u8>, b2: Seq<u8>, r: Receipt6)
    requires
        encodes_receipt6(b1, r),
        encodes_receipt6(b2, r),
    ensures
        b1 == b2,
{
    assert(b1.subrange(0, 92) =~= b2.subrange(0, 92)) by {
        assert forall|i: int| 0 <= i < 92 implies b1[i] == b2[i] by {
            if i < 16 {
                assert(b1.subrange(0, 16)[i] == b2.subrange(0, 16)[i]);
            } else if i < 24 {
                assert(b1.subrange(16, 24)[i - 16] == b2.subrange(16, 24)[i - 16]);
            } else if i < 32 {
                assert(b1.subrange(24, 32)[i - 24] == b2.subrange(24, 32)[i - 24]);
            } else if i < 36 {
                assert(b1.subrange(32, 36)[i - 32] == b2.subrange(32, 36)[i - 32]);
            } else if i < 44 {
                assert(b1.subrange(36, 44)[i - 36] == b2.subrange(36, 44)[i - 36]);
            } else if i < 52 {
                assert(b1.subrange(44, 52)[i - 44] == b2.subrange(44, 52)[i - 44]);
            } else if i < 56 {
                assert(b1.subrange(52, 56)[i - 52] == b2.subrange(52, 56)[i - 52]);
            }
        }
    }
    assert forall|i: int| 0 <= i < 96 implies b1[i] == b2[i] by {
        if i < 92 {
            assert(b1.subrange(0, 92)[i] == b2.subrange(0, 92)[i]);
        } else {
            assert(b1.subrange(92, 96)[i - 92] == b2.subrange(92, 96)[i - 92]);
        }
    }
    assert(b1 =~= b2);
}

/// A valid receipt survives encoding and decoding unchanged.
pub proof fn lemma_receipt6_roundtrip(b: Seq<u8>, r: Receipt6)
    requires
        encodes_receipt6(b, r),
        receipt6_valid(r),
    ensures
        spec_decode_receipt6(b) == Ok::<Receipt6, Error>(r),
{
    lemma_le64(r.retry.epoch);
    lemma_le64(r.retry.key);
    lemma_le32(r.id);
    lemma_le64(r.previous);
    lemma_le64(r.committed);
    lemma_le32(r.length);
    lemma_le32(spec_crc(b.subrange(0, 92)));
    lemma_array::<16>(r.retry.lineage);
}

impl Receipt6 {
    pub fn encode(&self) -> (r: [u8; RECEIPT_BYTES])
        ensures
            encodes_receipt6(r@, *self),
            r@ == receipt6_image(*self),
    {
        let mut b = [0u8; RECEIPT_BYTES];
        put(&mut b, 0, self.retry.lineage.as_slice());
        put_u64(&mut b, 16, self.retry.epoch);
        put_u64(&mut b, 24, self.retry.key);
        put_u32(&mut b, 32, self.id);
        put_u64(&mut b, 36, self.previous);
        put_u64(&mut b, 44, self.committed);
        put_u32(&mut b, 52, self.length);
        let ghost body = b@;
        let checksum = crc(prefix(&b, 92));
        put_u32(&mut b, 92, checksum);
        proof {
            assert(b@.subrange(0, 92) =~= body.subrange(0, 92));
            assert(b@.subrange(0, 16) =~= self.retry.lineage@);
            assert(b@.subrange(16, 24) =~= spec_u64_to_le_bytes(self.retry.epoch));
            assert(b@.subrange(24, 32) =~= spec_u64_to_le_bytes(self.retry.key));
            assert(b@.subrange(32, 36) =~= spec_u32_to_le_bytes(self.id));
            assert(b@.subrange(36, 44) =~= spec_u64_to_le_bytes(self.previous));
            assert(b@.subrange(44, 52) =~= spec_u64_to_le_bytes(self.committed));
            assert(b@.subrange(52, 56) =~= spec_u32_to_le_bytes(self.length));
            assert(b@.subrange(92, 96) =~= spec_u32_to_le_bytes(checksum));
            assert(encodes_receipt6(b@, *self));
            lemma_receipt6_image_unique(b@, receipt6_image(*self), *self);
        }
        b
    }

    pub fn decode(b: &[u8; RECEIPT_BYTES]) -> (r: Result<Self, Error>)
        ensures
            r == spec_decode_receipt6(b@),
    {
        let checksum = get_u32(b, 92);
        if crc(prefix(b, 92)) != checksum || !is_zero(b, 56, 92) {
            return Err(Error::Corrupt);
        }
        let lineage: [u8; 16] = take_array(b, 0);
        let epoch = get_u64(b, 16);
        let key = get_u64(b, 24);
        proof {
            lemma_array::<16>(lineage);
        }
        let zero_lineage = all_zero(&lineage);
        if zero_lineage || epoch == 0 || key == 0 {
            proof {
                if zero_lineage {
                    assert(lineage@ =~= Seq::new(16, |i: int| 0u8));
                }
            }
            return Err(Error::Corrupt);
        }
        let id = get_u32(b, 32);
        if id == 0 || id > OBJECTS_V6 as u32 {
            return Err(Error::Corrupt);
        }
        let previous = get_u64(b, 36);
        let committed = get_u64(b, 44);
        if committed <= previous {
            return Err(Error::Corrupt);
        }
        proof {
            if lineage@ == Seq::new(16, |i: int| 0u8) {
                assert(zero_range(lineage@, 0, 16));
            }
        }
        Ok(
            Self {
                retry: Retry { lineage, epoch, key },
                id,
                previous,
                committed,
                length: get_u32(b, 52),
            },
        )
    }
}

} // verus!

verus! {

/// Number of filled slots.
pub open spec fn filled(slots: Seq<Option<Receipt6>>) -> nat
    decreases slots.len(),
{
    if slots.len() == 0 {
        0
    } else {
        filled(slots.drop_last()) + if slots.last() is Some {
            1nat
        } else {
            0nat
        }
    }
}

/// The filled slots' records, in slot order.
pub open spec fn records_of(slots: Seq<Option<Receipt6>>) -> Seq<Receipt6>
    decreases slots.len(),
{
    if slots.len() == 0 {
        Seq::empty()
    } else if slots.last() is Some {
        records_of(slots.drop_last()).push(slots.last().unwrap())
    } else {
        records_of(slots.drop_last())
    }
}

/// The first retained record with this retry identity, searching from `i`.
pub open spec fn first_match(slots: Seq<Option<Receipt6>>, retry: Retry, i: int) -> Option<
    Receipt6,
>
    decreases slots.len() - i,
{
    if i < 0 || i >= slots.len() {
        None
    } else if slot_is(slots[i], retry) {
        Some(slots[i].unwrap())
    } else {
        first_match(slots, retry, i + 1)
    }
}

/// Whether a slot holds a record with this retry identity.
pub open spec fn slot_is(slot: Option<Receipt6>, retry: Retry) -> bool {
    slot matches Some(r) && r.retry == retry
}

/// Whether some slot holds this retry identity.
pub open spec fn holds_retry(slots: Seq<Option<Receipt6>>, retry: Retry) -> bool {
    exists|i: int| 0 <= i < slots.len() && slot_is(#[trigger] slots[i], retry)
}

/// The first empty slot from `i`, if any.
pub open spec fn first_empty(slots: Seq<Option<Receipt6>>, i: int) -> Option<int>
    decreases slots.len() - i,
{
    if i < 0 || i >= slots.len() {
        None
    } else if slots[i] is None {
        Some(i)
    } else {
        first_empty(slots, i + 1)
    }
}

/// The first match from the start is the first match from `i` when no slot
/// before `i` matches.
pub proof fn lemma_first_match(slots: Seq<Option<Receipt6>>, retry: Retry, i: int)
    requires
        0 <= i <= slots.len(),
        forall|k: int| 0 <= k < i ==> !slot_is(#[trigger] slots[k], retry),
    ensures
        first_match(slots, retry, 0) == first_match(slots, retry, i),
    decreases i,
{
    if i > 0 {
        lemma_first_match(slots, retry, i - 1);
    }
}

proof fn lemma_first_match_found(slots: Seq<Option<Receipt6>>, retry: Retry, i: int)
    requires
        0 <= i <= slots.len(),
        first_match(slots, retry, i) is Some,
    ensures
        holds_retry(slots, retry),
        first_match(slots, retry, i).unwrap().retry == retry,
    decreases slots.len() - i,
{
    if i < slots.len() && !slot_is(slots[i], retry) {
        lemma_first_match_found(slots, retry, i + 1);
    }
}

proof fn lemma_match_before(slots: Seq<Option<Receipt6>>, retry: Retry, j: int, i: int)
    requires
        0 <= j <= i < slots.len(),
        slot_is(slots[i], retry),
    ensures
        first_match(slots, retry, j) is Some,
    decreases i - j,
{
    if !slot_is(slots[j], retry) {
        lemma_match_before(slots, retry, j + 1, i);
    }
}

/// A table with no first match holds no record for the retry.
pub proof fn lemma_no_match(slots: Seq<Option<Receipt6>>, retry: Retry)
    requires
        first_match(slots, retry, 0) is None,
    ensures
        !holds_retry(slots, retry),
{
    if holds_retry(slots, retry) {
        let i = choose|i: int| 0 <= i < slots.len() && slot_is(#[trigger] slots[i], retry);
        lemma_match_before(slots, retry, 0, i);
    }
}

proof fn lemma_first_match_none(slots: Seq<Option<Receipt6>>, retry: Retry, i: int)
    requires
        0 <= i <= slots.len(),
        forall|k: int| i <= k < slots.len() ==> !slot_is(#[trigger] slots[k], retry),
    ensures
        first_match(slots, retry, i) is None,
    decreases slots.len() - i,
{
    if i < slots.len() {
        lemma_first_match_none(slots, retry, i + 1);
    }
}

proof fn lemma_first_empty(slots: Seq<Option<Receipt6>>, i: int)
    requires
        0 <= i <= slots.len(),
        forall|k: int| 0 <= k < i ==> (#[trigger] slots[k]) is Some,
    ensures
        first_empty(slots, 0) == first_empty(slots, i),
    decreases i,
{
    if i > 0 {
        lemma_first_empty(slots, i - 1);
    }
}

/// Where the first empty slot from `i` is, or that every slot from `i` is filled.
pub proof fn lemma_first_empty_at(slots: Seq<Option<Receipt6>>, i: int)
    requires
        0 <= i <= slots.len(),
    ensures
        first_empty(slots, i) matches Some(j) ==> i <= j < slots.len() && slots[j] is None
            && forall|k: int| i <= k < j ==> (#[trigger] slots[k]) is Some,
        first_empty(slots, i) is None ==> forall|k: int| i <= k < slots.len() ==> (#[trigger] slots[k]) is Some,
    decreases slots.len() - i,
{
    if i < slots.len() {
        lemma_first_empty_at(slots, i + 1);
    }
}

/// A table whose every slot is filled counts every slot.
pub proof fn lemma_all_filled(slots: Seq<Option<Receipt6>>)
    requires
        forall|k: int| 0 <= k < slots.len() ==> (#[trigger] slots[k]) is Some,
    ensures
        filled(slots) == slots.len(),
    decreases slots.len(),
{
    if slots.len() > 0 {
        assert forall|k: int| 0 <= k < slots.drop_last().len() implies (#[trigger] slots.drop_last()[k]) is Some by {
            assert(slots.drop_last()[k] == slots[k]);
        }
        lemma_all_filled(slots.drop_last());
    }
}

proof fn lemma_first_empty_none(slots: Seq<Option<Receipt6>>, i: int)
    requires
        0 <= i <= slots.len(),
        forall|k: int| i <= k < slots.len() ==> (#[trigger] slots[k]) is Some,
    ensures
        first_empty(slots, i) is None,
    decreases slots.len() - i,
{
    if i < slots.len() {
        lemma_first_empty_none(slots, i + 1);
    }
}

proof fn lemma_filled_prefix(slots: Seq<Option<Receipt6>>, i: int)
    requires
        0 <= i < slots.len(),
    ensures
        filled(slots.take(i + 1)) == filled(slots.take(i)) + if slots[i] is Some {
            1nat
        } else {
            0nat
        },
{
    assert(slots.take(i + 1).drop_last() =~= slots.take(i));
}

proof fn lemma_filled_bound(slots: Seq<Option<Receipt6>>)
    ensures
        filled(slots) <= slots.len(),
        filled(slots) == 0 <==> forall|k: int| 0 <= k < slots.len() ==> (#[trigger] slots[k]) is None,
    decreases slots.len(),
{
    if slots.len() > 0 {
        lemma_filled_bound(slots.drop_last());
        if filled(slots) == 0 {
            assert forall|k: int| 0 <= k < slots.len() implies (#[trigger] slots[k]) is None by {
                if k < slots.len() - 1 {
                    assert(slots.drop_last()[k] == slots[k]);
                }
            }
        }
        if forall|k: int| 0 <= k < slots.len() ==> (#[trigger] slots[k]) is None {
            assert forall|k: int| 0 <= k < slots.drop_last().len() implies (
            #[trigger] slots.drop_last()[k]) is None by {
                assert(slots.drop_last()[k] == slots[k]);
            }
        }
    }
}

/// The retained receipts of one lineage, with the current epoch.
#[derive(Clone, Copy)]
pub struct Receipts6 {
    lineage: [u8; 16],
    epoch: u64,
    slots: [Option<Receipt6>; RETAINED_V6],
}

impl Receipts6 {
    pub closed spec fn spec_lineage(&self) -> [u8; 16] {
        self.lineage
    }

    pub closed spec fn spec_epoch(&self) -> u64 {
        self.epoch
    }

    pub closed spec fn spec_slots(&self) -> Seq<Option<Receipt6>> {
        self.slots@
    }

    /// What `retain` answers for a receipt: another lineage or epoch is
    /// refused, a held identity is kept as it is, a full table is `Full`.
    pub open spec fn spec_retain(&self, receipt: Receipt6) -> Result<(), Error> {
        if receipt.retry.lineage != self.spec_lineage() {
            Err(Error::Lineage)
        } else if receipt.retry.epoch != self.spec_epoch() {
            Err(Error::ExpiredEpoch)
        } else if holds_retry(self.spec_slots(), receipt.retry) {
            Ok(())
        } else if first_empty(self.spec_slots(), 0) is None {
            Err(Error::Full)
        } else {
            Ok(())
        }
    }

    /// A table holds one slot per retained receipt.
    pub proof fn lemma_slots_len(&self)
        ensures
            self.spec_slots().len() == RETAINED_V6,
    {
    }

    /// What `find` answers for a retry identity.
    pub open spec fn spec_find(&self, retry: Retry) -> Result<Option<Receipt6>, Error> {
        if retry.key == 0 || retry.epoch == 0 {
            Err(Error::Invalid)
        } else if retry.lineage != self.spec_lineage() {
            Err(Error::Lineage)
        } else if first_match(self.spec_slots(), retry, 0) is Some {
            Ok(first_match(self.spec_slots(), retry, 0))
        } else if retry.epoch != self.spec_epoch() {
            Err(Error::ExpiredEpoch)
        } else {
            Ok(None)
        }
    }

    /// A table with no lineage, for a volume that has not been read yet.
    pub fn empty() -> (r: Self)
        ensures
            r.spec_lineage()@ == Seq::new(16, |i: int| 0u8),
            r.spec_epoch() == 0,
            r.spec_slots() == Seq::new(RETAINED_V6 as nat, |i: int| None::<Receipt6>),
    {
        let r = Self { lineage: [0u8; 16], epoch: 0, slots: [None; RETAINED_V6] };
        assert(r.lineage@ =~= Seq::new(16, |i: int| 0u8));
        assert(r.slots@ =~= Seq::new(RETAINED_V6 as nat, |i: int| None::<Receipt6>));
        r
    }

    /// An empty table at epoch one; a zero lineage is `Invalid`.
    pub fn new(lineage: [u8; 16]) -> (r: Result<Self, Error>)
        ensures
            r is Err <==> lineage@ == Seq::new(16, |i: int| 0u8),
            r is Err ==> r == Err::<Receipts6, Error>(Error::Invalid),
            r matches Ok(t) ==> {
                &&& t.spec_lineage() == lineage
                &&& t.spec_epoch() == 1
                &&& t.spec_slots() == Seq::new(RETAINED_V6 as nat, |i: int| None::<Receipt6>)
            },
    {
        let zero = all_zero(&lineage);
        if zero {
            assert(lineage@ =~= Seq::new(16, |i: int| 0u8));
            return Err(Error::Invalid);
        }
        let r = Self { lineage, epoch: 1, slots: [None; RETAINED_V6] };
        assert(r.slots@ =~= Seq::new(RETAINED_V6 as nat, |i: int| None::<Receipt6>));
        Ok(r)
    }

    /// The lineage the table is bound to, which is also the volume's identity.
    pub fn lineage(&self) -> (r: [u8; 16])
        ensures
            r == self.spec_lineage(),
    {
        self.lineage
    }

    pub fn epoch(&self) -> (r: u64)
        ensures
            r == self.spec_epoch(),
    {
        self.epoch
    }

    /// Number of retained records.
    pub fn len(&self) -> (r: usize)
        ensures
            r == filled(self.spec_slots()),
    {
        let mut count: usize = 0;
        let mut i: usize = 0;
        while i < RETAINED_V6
            invariant
                0 <= i <= RETAINED_V6,
                count == filled(self.slots@.take(i as int)),
                count <= i,
            decreases RETAINED_V6 - i,
        {
            proof {
                lemma_filled_prefix(self.slots@, i as int);
            }
            if self.slots[i].is_some() {
                count = count + 1;
            }
            i = i + 1;
        }
        assert(self.slots@.take(RETAINED_V6 as int) =~= self.slots@);
        count
    }

    pub fn is_empty(&self) -> (r: bool)
        ensures
            r == (filled(self.spec_slots()) == 0),
            r == forall|k: int| 0 <= k < RETAINED_V6 ==> (#[trigger] self.spec_slots()[k]) is None,
    {
        proof {
            lemma_filled_bound(self.slots@);
        }
        self.len() == 0
    }

    /// The retained records, in slot order.
    pub fn records(&self) -> (r: Vec<Receipt6>)
        ensures
            r@ == records_of(self.spec_slots()),
    {
        let mut out: Vec<Receipt6> = Vec::new();
        let mut i: usize = 0;
        while i < RETAINED_V6
            invariant
                0 <= i <= RETAINED_V6,
                out@ == records_of(self.slots@.take(i as int)),
            decreases RETAINED_V6 - i,
        {
            proof {
                assert(self.slots@.take(i + 1).drop_last() =~= self.slots@.take(i as int));
            }
            match self.slots[i] {
                Some(record) => {
                    out.push(record);
                },
                None => {},
            }
            i = i + 1;
        }
        assert(self.slots@.take(RETAINED_V6 as int) =~= self.slots@);
        out
    }

    /// The retained record for this identity, or `None` for a new operation.
    /// A key or epoch of zero is `Invalid`, a foreign lineage `Lineage`, and a
    /// miss in an older epoch `ExpiredEpoch`: refusals, not misses.
    pub fn find(&self, retry: Retry) -> (r: Result<Option<Receipt6>, Error>)
        ensures
            r == self.spec_find(retry),
    {
        if retry.key == 0 || retry.epoch == 0 {
            return Err(Error::Invalid);
        }
        if !crate::codec::same_bytes(&retry.lineage, &self.lineage) {
            return Err(Error::Lineage);
        }
        let mut i: usize = 0;
        while i < RETAINED_V6
            invariant
                0 <= i <= RETAINED_V6,
                retry.key != 0,
                retry.epoch != 0,
                retry.lineage == self.lineage,
                forall|k: int| 0 <= k < i ==> !slot_is(#[trigger] self.slots@[k], retry),
            decreases RETAINED_V6 - i,
        {
            if let Some(record) = self.slots[i] {
                if same_retry(&record.retry, &retry) {
                    proof {
                        lemma_first_match(self.slots@, retry, i as int);
                    }
                    return Ok(Some(record));
                }
            }
            i = i + 1;
        }
        proof {
            lemma_first_match_none(self.slots@, retry, 0);
        }
        if retry.epoch != self.epoch {
            return Err(Error::ExpiredEpoch);
        }
        Ok(None)
    }

    /// Retain a receipt in the first empty slot. Repeating an identity keeps the
    /// record already held, so a retry is idempotent; a full table is `Full`,
    /// never an eviction.
    pub fn retain(&mut self, receipt: Receipt6) -> (r: Result<(), Error>)
        ensures
            final(self).spec_lineage() == old(self).spec_lineage(),
            final(self).spec_epoch() == old(self).spec_epoch(),
            r == old(self).spec_retain(receipt),
            final(self).spec_slots() == if r is Ok && !holds_retry(
                old(self).spec_slots(),
                receipt.retry,
            ) {
                old(self).spec_slots().update(
                    first_empty(old(self).spec_slots(), 0).unwrap(),
                    Some(receipt),
                )
            } else {
                old(self).spec_slots()
            },
    {
        if !crate::codec::same_bytes(&receipt.retry.lineage, &self.lineage) {
            return Err(Error::Lineage);
        }
        if receipt.retry.epoch != self.epoch {
            return Err(Error::ExpiredEpoch);
        }
        let mut i: usize = 0;
        while i < RETAINED_V6
            invariant
                0 <= i <= RETAINED_V6,
                receipt.retry.lineage == self.lineage,
                receipt.retry.epoch == self.epoch,
                self.slots == old(self).slots,
                self.lineage == old(self).lineage,
                self.epoch == old(self).epoch,
                forall|k: int| 0 <= k < i ==> !slot_is(#[trigger] self.slots@[k], receipt.retry),
            decreases RETAINED_V6 - i,
        {
            if let Some(record) = self.slots[i] {
                if same_retry(&record.retry, &receipt.retry) {
                    assert(holds_retry(self.slots@, receipt.retry));
                    return Ok(());
                }
            }
            i = i + 1;
        }
        assert(!holds_retry(self.slots@, receipt.retry));
        let mut i: usize = 0;
        while i < RETAINED_V6
            invariant
                0 <= i <= RETAINED_V6,
                self.slots == old(self).slots,
                self.lineage == old(self).lineage,
                self.epoch == old(self).epoch,
                !holds_retry(self.slots@, receipt.retry),
                receipt.retry.lineage == self.lineage,
                receipt.retry.epoch == self.epoch,
                forall|k: int| 0 <= k < i ==> (#[trigger] self.slots@[k]) is Some,
            decreases RETAINED_V6 - i,
        {
            if self.slots[i].is_none() {
                proof {
                    lemma_first_empty(self.slots@, i as int);
                }
                self.slots[i] = Some(receipt);
                return Ok(());
            }
            i = i + 1;
        }
        proof {
            lemma_first_empty_none(self.slots@, 0);
        }
        Err(Error::Full)
    }

    /// Rotate to a later epoch: `Invalid` unless it is later, `Full` while any
    /// record is retained, because rotating would make those outcomes unknowable.
    pub fn roll_epoch(&mut self, epoch: u64) -> (r: Result<(), Error>)
        ensures
            r == if epoch <= old(self).spec_epoch() {
                Err(Error::Invalid)
            } else if filled(old(self).spec_slots()) != 0 {
                Err(Error::Full)
            } else {
                Ok(())
            },
            final(self).spec_lineage() == old(self).spec_lineage(),
            final(self).spec_slots() == old(self).spec_slots(),
            final(self).spec_epoch() == if r is Ok {
                epoch
            } else {
                old(self).spec_epoch()
            },
    {
        if epoch <= self.epoch {
            return Err(Error::Invalid);
        }
        if !self.is_empty() {
            return Err(Error::Full);
        }
        self.epoch = epoch;
        Ok(())
    }

    /// Drop every retained record and return how many were released.
    pub fn purge(&mut self) -> (r: usize)
        ensures
            r == filled(old(self).spec_slots()),
            final(self).spec_lineage() == old(self).spec_lineage(),
            final(self).spec_epoch() == old(self).spec_epoch(),
            final(self).spec_slots() == Seq::new(RETAINED_V6 as nat, |i: int| None::<Receipt6>),
    {
        let dropped = self.len();
        self.slots = [None; RETAINED_V6];
        assert(self.slots@ =~= Seq::new(RETAINED_V6 as nat, |i: int| None::<Receipt6>));
        dropped
    }
}

} // verus!

verus! {

/// The image one slot occupies: its receipt, or 96 zero bytes.
pub open spec fn slot_image(slot: Option<Receipt6>) -> Seq<u8> {
    match slot {
        Some(r) => receipt6_image(r),
        None => Seq::new(96, |i: int| 0u8),
    }
}

/// The slots' images, back to back.
pub open spec fn records_image(slots: Seq<Option<Receipt6>>) -> Seq<u8>
    decreases slots.len(),
{
    if slots.len() == 0 {
        Seq::empty()
    } else {
        records_image(slots.drop_last()) + slot_image(slots.last())
    }
}

/// The bytes the table checksum covers: lineage, epoch and the records.
pub open spec fn table_image(lineage: [u8; 16], epoch: u64, slots: Seq<Option<Receipt6>>) -> Seq<
    u8,
> {
    lineage@ + spec_u64_to_le_bytes(epoch) + records_image(slots)
}

/// Every receipt has an image.
pub proof fn lemma_receipt6_image(r: Receipt6)
    ensures
        encodes_receipt6(receipt6_image(r), r),
        receipt6_image(r).len() == 96,
{
    lemma_le64(r.retry.epoch);
    lemma_le64(r.retry.key);
    lemma_le32(r.id);
    lemma_le64(r.previous);
    lemma_le64(r.committed);
    lemma_le32(r.length);
    let body = r.retry.lineage@ + spec_u64_to_le_bytes(r.retry.epoch) + spec_u64_to_le_bytes(
        r.retry.key,
    ) + spec_u32_to_le_bytes(r.id) + spec_u64_to_le_bytes(r.previous) + spec_u64_to_le_bytes(
        r.committed,
    ) + spec_u32_to_le_bytes(r.length) + Seq::new(36, |i: int| 0u8);
    lemma_le32(spec_crc(body));
    let b = body + spec_u32_to_le_bytes(spec_crc(body));
    assert(b.subrange(0, 92) =~= body);
    assert(b.subrange(0, 16) =~= r.retry.lineage@);
    assert(b.subrange(16, 24) =~= spec_u64_to_le_bytes(r.retry.epoch));
    assert(b.subrange(24, 32) =~= spec_u64_to_le_bytes(r.retry.key));
    assert(b.subrange(32, 36) =~= spec_u32_to_le_bytes(r.id));
    assert(b.subrange(36, 44) =~= spec_u64_to_le_bytes(r.previous));
    assert(b.subrange(44, 52) =~= spec_u64_to_le_bytes(r.committed));
    assert(b.subrange(52, 56) =~= spec_u32_to_le_bytes(r.length));
    assert(b.subrange(92, 96) =~= spec_u32_to_le_bytes(spec_crc(body)));
    assert(encodes_receipt6(b, r));
}

proof fn lemma_records_image(slots: Seq<Option<Receipt6>>, k: int)
    requires
        0 <= k < slots.len(),
    ensures
        records_image(slots).len() == 96 * slots.len(),
        records_image(slots).subrange(96 * k, 96 * k + 96) == slot_image(slots[k]),
    decreases slots.len(),
{
    lemma_records_image_len(slots);
    let last = slots.len() - 1;
    if let Some(r) = slots.last() {
        lemma_receipt6_image(r);
    }
    if k < last {
        lemma_records_image(slots.drop_last(), k);
        lemma_records_image_len(slots.drop_last());
        assert(records_image(slots).subrange(96 * k, 96 * k + 96) =~= records_image(
            slots.drop_last(),
        ).subrange(96 * k, 96 * k + 96));
    } else {
        lemma_records_image_len(slots.drop_last());
        assert(records_image(slots).subrange(96 * k, 96 * k + 96) =~= slot_image(slots[k]));
    }
}

proof fn lemma_records_image_len(slots: Seq<Option<Receipt6>>)
    ensures
        records_image(slots).len() == 96 * slots.len(),
    decreases slots.len(),
{
    if slots.len() > 0 {
        lemma_records_image_len(slots.drop_last());
        if let Some(r) = slots.last() {
            lemma_receipt6_image(r);
        }
    }
}

/// What one 96-byte slot decodes to within a lineage.
pub open spec fn slot_decode(piece: Seq<u8>, lineage: [u8; 16]) -> Result<Option<Receipt6>, Error> {
    if zero_range(piece, 0, 96) {
        Ok(None)
    } else {
        match spec_decode_receipt6(piece) {
            Err(e) => Err(Error::Corrupt),
            Ok(r) => if r.retry.lineage == lineage {
                Ok(Some(r))
            } else {
                Err(Error::Corrupt)
            },
        }
    }
}

/// The slots of a records image.
pub open spec fn decoded_slots(bytes: Seq<u8>, lineage: [u8; 16]) -> Seq<Option<Receipt6>> {
    Seq::new(8, |k: int| slot_decode(bytes.subrange(96 * k, 96 * k + 96), lineage).unwrap())
}

/// Whether every slot of a records image decodes within the lineage.
pub open spec fn slots_decode(bytes: Seq<u8>, lineage: [u8; 16]) -> bool {
    forall|k: int|
        0 <= k < 8 ==> #[trigger] slot_decode(bytes.subrange(96 * k, 96 * k + 96), lineage) is Ok
}

impl Receipts6 {
    /// The table's CRC over its lineage, epoch and records, computed
    /// incrementally so it needs no temporary.
    pub fn checksum(&self) -> (r: u32)
        ensures
            r == spec_crc(table_image(self.spec_lineage(), self.spec_epoch(), self.spec_slots())),
    {
        let mut state: u32 = 0xffff_ffffu32;
        crc_update(&mut state, self.lineage.as_slice());
        let epoch = u64_to_le_bytes(self.epoch);
        crc_update(&mut state, epoch.as_slice());
        let ghost head = self.lineage@ + spec_u64_to_le_bytes(self.epoch);
        proof {
            lemma_crc_fold_append(0xffff_ffffu32, self.lineage@, spec_u64_to_le_bytes(self.epoch));
        }
        let zeros = [0u8; RECEIPT_BYTES];
        let mut i: usize = 0;
        while i < RETAINED_V6
            invariant
                0 <= i <= RETAINED_V6,
                head == self.lineage@ + spec_u64_to_le_bytes(self.epoch),
                zeros@ == Seq::new(96, |j: int| 0u8),
                state == crc_fold(0xffff_ffffu32, head + records_image(self.slots@.take(i as int))),
            decreases RETAINED_V6 - i,
        {
            let ghost before = records_image(self.slots@.take(i as int));
            proof {
                assert(self.slots@.take(i + 1).drop_last() =~= self.slots@.take(i as int));
                assert(self.slots@.take(i + 1).last() == self.slots@[i as int]);
                lemma_crc_fold_append(0xffff_ffffu32, head + before, slot_image(self.slots@[i as int]));
                assert(head + before + slot_image(self.slots@[i as int]) =~= head + records_image(
                    self.slots@.take(i + 1),
                ));
            }
            match self.slots[i] {
                Some(record) => {
                    let image = record.encode();
                    crc_update(&mut state, image.as_slice());
                },
                None => {
                    assert(zeros@ =~= Seq::new(96, |j: int| 0u8));
                    crc_update(&mut state, zeros.as_slice());
                },
            }
            i = i + 1;
        }
        assert(self.slots@.take(RETAINED_V6 as int) =~= self.slots@);
        !state
    }

    /// The eight records for one generation's receipt sectors.
    pub fn encode(&self) -> (r: [u8; RECORDS_BYTES])
        ensures
            r@ == records_image(self.spec_slots()),
    {
        let mut bytes = [0u8; RECORDS_BYTES];
        let mut i: usize = 0;
        while i < RETAINED_V6
            invariant
                0 <= i <= RETAINED_V6,
                bytes@.len() == RECORDS_BYTES,
                bytes@.subrange(0, 96 * i) == records_image(self.slots@.take(i as int)),
                zero_range(bytes@, 96 * i, RECORDS_BYTES as int),
            decreases RETAINED_V6 - i,
        {
            let ghost before = bytes@;
            proof {
                assert(self.slots@.take(i + 1).drop_last() =~= self.slots@.take(i as int));
                assert(self.slots@.take(i + 1).last() == self.slots@[i as int]);
            }
            match self.slots[i] {
                Some(record) => {
                    let image = record.encode();
                    put(&mut bytes, 96 * i, image.as_slice());
                    proof {
                        lemma_receipt6_image(record);
                        assert(bytes@.subrange(0, 96 * (i + 1)) =~= before.subrange(0, 96 * i)
                            + image@);
                    }
                },
                None => {
                    proof {
                        assert(bytes@.subrange(0, 96 * (i + 1)) =~= before.subrange(0, 96 * i)
                            + Seq::new(96, |j: int| 0u8));
                    }
                },
            }
            i = i + 1;
        }
        assert(self.slots@.take(RETAINED_V6 as int) =~= self.slots@);
        assert(bytes@ =~= bytes@.subrange(0, 768));
        bytes
    }

    /// The whole block: lineage, epoch, records and zero padding, so a
    /// generation's receipts are self-describing.
    pub fn encode_block(&self) -> (r: [u8; BLOCK_BYTES])
        ensures
            r@ == table_image(self.spec_lineage(), self.spec_epoch(), self.spec_slots()) + Seq::new(
                232,
                |i: int| 0u8,
            ),
    {
        let mut bytes = [0u8; BLOCK_BYTES];
        put(&mut bytes, 0, self.lineage.as_slice());
        crate::codec::put_u64(&mut bytes, 16, self.epoch);
        let records = self.encode();
        put(&mut bytes, BLOCK_HEADER_BYTES, records.as_slice());
        proof {
            lemma_le64(self.epoch);
            assert(bytes@ =~= table_image(self.lineage, self.epoch, self.slots@) + Seq::new(
                232,
                |i: int| 0u8,
            ));
        }
        bytes
    }

    /// Decode one generation's block: padding must be zero.
    pub fn decode_block(bytes: &[u8; BLOCK_BYTES]) -> (r: Result<Self, Error>)
        ensures
            r is Ok <==> (zero_range(bytes@, 792, 1024) && bytes@.subrange(0, 16) != Seq::new(
                16,
                |i: int| 0u8,
            ) && spec_u64_from_le_bytes(bytes@.subrange(16, 24)) != 0 && slots_decode(
                bytes@.subrange(24, 792),
                spec_array::<16>(bytes@.subrange(0, 16)),
            )),
            r is Err ==> r == Err::<Receipts6, Error>(Error::Corrupt),
            r matches Ok(t) ==> {
                &&& t.spec_lineage() == spec_array::<16>(bytes@.subrange(0, 16))
                &&& t.spec_epoch() == spec_u64_from_le_bytes(bytes@.subrange(16, 24))
                &&& t.spec_slots() == decoded_slots(bytes@.subrange(24, 792), t.spec_lineage())
            },
    {
        if !is_zero(bytes, 792, BLOCK_BYTES) {
            return Err(Error::Corrupt);
        }
        let lineage: [u8; 16] = take_array(bytes, 0);
        let epoch = get_u64(bytes, 16);
        let records: [u8; RECORDS_BYTES] = take_array(bytes, BLOCK_HEADER_BYTES);
        proof {
            lemma_array::<16>(lineage);
        }
        Self::decode(lineage, epoch, &records)
    }

    /// Decode the eight records of a lineage and epoch. A zero lineage or epoch,
    /// a record that fails to decode, or one from another lineage is `Corrupt`.
    pub fn decode(lineage: [u8; 16], epoch: u64, bytes: &[u8; RECORDS_BYTES]) -> (r: Result<
        Self,
        Error,
    >)
        ensures
            r is Ok <==> (lineage@ != Seq::new(16, |i: int| 0u8) && epoch != 0 && slots_decode(
                bytes@,
                lineage,
            )),
            r is Err ==> r == Err::<Receipts6, Error>(Error::Corrupt),
            r matches Ok(t) ==> {
                &&& t.spec_lineage() == lineage
                &&& t.spec_epoch() == epoch
                &&& t.spec_slots() == decoded_slots(bytes@, lineage)
            },
    {
        let zero = all_zero(&lineage);
        if zero || epoch == 0 {
            proof {
                if zero {
                    assert(lineage@ =~= Seq::new(16, |i: int| 0u8));
                }
            }
            return Err(Error::Corrupt);
        }
        let mut slots: [Option<Receipt6>; RETAINED_V6] = [None; RETAINED_V6];
        let mut i: usize = 0;
        while i < RETAINED_V6
            invariant
                0 <= i <= RETAINED_V6,
                lineage@ != Seq::new(16, |j: int| 0u8),
                epoch != 0,
                forall|k: int| 0 <= k < i ==> #[trigger] slot_decode(
                    bytes@.subrange(96 * k, 96 * k + 96),
                    lineage,
                ) is Ok,
                forall|k: int| 0 <= k < i ==> #[trigger] slots@[k] == slot_decode(
                    bytes@.subrange(96 * k, 96 * k + 96),
                    lineage,
                ).unwrap(),
            decreases RETAINED_V6 - i,
        {
            let record: [u8; RECEIPT_BYTES] = take_array(bytes, 96 * i);
            let ghost piece = bytes@.subrange(96 * i, 96 * i + 96);
            if all_zero(&record) {
                slots[i] = None;
            } else {
                let decoded = match Receipt6::decode(&record) {
                    Ok(d) => d,
                    Err(_) => {
                        assert(!slots_decode(bytes@, lineage)) by {
                            assert(slot_decode(piece, lineage) is Err);
                        }
                        return Err(Error::Corrupt);
                    },
                };
                if !crate::codec::same_bytes(&decoded.retry.lineage, &lineage) {
                    assert(!slots_decode(bytes@, lineage)) by {
                        assert(slot_decode(piece, lineage) is Err);
                    }
                    return Err(Error::Corrupt);
                }
                slots[i] = Some(decoded);
            }
            i = i + 1;
        }
        assert(slots@ =~= decoded_slots(bytes@, lineage));
        Ok(Self { lineage, epoch, slots })
    }
}

/// A table whose lineage and epoch are set and whose records are valid and of
/// its lineage survives block encoding and decoding unchanged.
pub proof fn lemma_receipts6_block_roundtrip(
    lineage: [u8; 16],
    epoch: u64,
    slots: Seq<Option<Receipt6>>,
    block: Seq<u8>,
)
    requires
        slots.len() == RETAINED_V6,
        lineage@ != Seq::new(16, |i: int| 0u8),
        epoch != 0,
        forall|k: int|
            0 <= k < 8 ==> (#[trigger] slots[k] matches Some(r) ==> receipt6_valid(r)
                && r.retry.lineage == lineage),
        block == table_image(lineage, epoch, slots) + Seq::new(232, |i: int| 0u8),
    ensures
        zero_range(block, 792, 1024),
        block.subrange(0, 16) != Seq::new(16, |i: int| 0u8),
        spec_array::<16>(block.subrange(0, 16)) == lineage,
        spec_u64_from_le_bytes(block.subrange(16, 24)) == epoch,
        slots_decode(block.subrange(24, 792), lineage),
        decoded_slots(block.subrange(24, 792), lineage) == slots,
{
    lemma_le64(epoch);
    lemma_records_image_len(slots);
    lemma_array::<16>(lineage);
    let records = records_image(slots);
    assert(block.subrange(0, 16) =~= lineage@);
    assert(block.subrange(16, 24) =~= spec_u64_to_le_bytes(epoch));
    assert(block.subrange(24, 792) =~= records);
    assert forall|k: int| 0 <= k < 8 implies #[trigger] slot_decode(
        records.subrange(96 * k, 96 * k + 96),
        lineage,
    ) == Ok::<Option<Receipt6>, Error>(slots[k]) by {
        lemma_records_image(slots, k);
        match slots[k] {
            Some(r) => {
                lemma_receipt6_image(r);
                lemma_receipt6_roundtrip(receipt6_image(r), r);
                let piece = receipt6_image(r);
                assert(piece.subrange(0, 16) == r.retry.lineage@);
                if zero_range(piece, 0, 96) {
                    assert(piece.subrange(0, 16) =~= Seq::new(16, |i: int| 0u8));
                }
            },
            None => {},
        }
    }
    assert(decoded_slots(records, lineage) =~= slots);
}

} // verus!
