//! The trusted provisioning envelope of a two-bank volume: sector 1 names the
//! lineage the host assigned and carries no file state.
use vstd::prelude::*;
use crate::checksum::{crc, spec_crc};
use crate::codec::{zero_range, zeroed, all_zero, is_zero, matches_at, get_u32, copy_zeroed, take_array};
use crate::storage::Disk;
use crate::Error;
use vstd::bytes::spec_u32_from_le_bytes;

verus! {

/// The sector the envelope occupies.
pub const ENVELOPE_SECTOR: u64 = 1;

/// The envelope's magic.
pub const ENVELOPE_MAGIC: [u8; 8] = [82, 85, 83, 84, 86, 79, 76, 49];

/// What sector `b` says of the lineage: nothing for a zero sector; the lineage
/// for an envelope with its magic, a nonzero lineage, zero padding and a
/// checksum over the sector with the checksum field zeroed; `Corrupt` for
/// anything else.
pub open spec fn envelope_lineage(b: Seq<u8>) -> Result<Option<Seq<u8>>, Error> {
    if zero_range(b, 0, 512) {
        Ok(None)
    } else if b.subrange(0, 8) == ENVELOPE_MAGIC@ && !zero_range(b, 8, 24) && zero_range(b, 28, 512)
        && spec_u32_from_le_bytes(b.subrange(24, 28)) == spec_crc(zeroed(b, 24, 28)) {
        Ok(Some(b.subrange(8, 24)))
    } else {
        Err(Error::Corrupt)
    }
}

/// Read the lineage the provisioning envelope names, if there is one.
pub fn lineage<D: Disk>(disk: &mut D) -> (r: Result<Option<[u8; 16]>, Error>)
    ensures
        final(disk).contents() == old(disk).contents(),
        r is Ok ==> old(disk).contents().dom().contains(ENVELOPE_SECTOR),
        r matches Ok(found) ==> envelope_lineage(old(disk).contents()[ENVELOPE_SECTOR]) == Ok::<Option<Seq<u8>>, Error>(
            match found {
                Some(l) => Some(l@),
                None => None,
            },
        ),
        old(disk).contents().dom().contains(ENVELOPE_SECTOR) && envelope_lineage(old(disk).contents()[ENVELOPE_SECTOR]) is Err ==> r is Err,
        final(disk).dependable() == old(disk).dependable(),
        old(disk).dependable() && old(disk).contents().dom().contains(ENVELOPE_SECTOR) ==> (r is Ok <==> envelope_lineage(old(disk).contents()[ENVELOPE_SECTOR]) is Ok)
            && (r is Err ==> r == Err::<Option<[u8; 16]>, Error>(Error::Corrupt)),
{
    let mut b = [0u8; 512];
    disk.read(ENVELOPE_SECTOR, &mut b)?;
    if all_zero(&b) {
        return Ok(None);
    }
    let expected = get_u32(&b, 24);
    let body = copy_zeroed(&b, 24, 28);
    if !matches_at(&b, 0, ENVELOPE_MAGIC.as_slice()) || is_zero(&b, 8, 24) || !is_zero(&b, 28, 512)
        || expected != crc(body.as_slice()) {
        return Err(Error::Corrupt);
    }
    let found: [u8; 16] = take_array(&b, 8);
    Ok(Some(found))
}

} // verus!
