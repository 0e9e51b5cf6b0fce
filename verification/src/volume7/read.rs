//! Bounded reads from the live payload version a mounted owner verified.
use vstd::prelude::*;
use crate::extent::total_sectors;
use crate::format7::{PAYLOAD_SECTOR, Node7};
use crate::format7::node::node7_valid;
use crate::namespace::Kind;
use crate::storage::Disk;
use crate::volume6::{least, payload_byte, read_runs};
use crate::volume7::Volume7;
use crate::Error;

verus! {

/// The bytes of a file's current version, position by position.
pub open spec fn file_byte7(c: Map<u64, Seq<u8>>, n: Node7, p: int) -> u8 {
    payload_byte(c, PAYLOAD_SECTOR, n.extents@.take(n.extents_used as int), p)
}

impl Volume7 {
    /// What a range read refuses before any payload I/O, if anything.
    pub open spec fn read_refusal(&self, id: u32, expected_version: Option<u64>, offset: u64) -> Option<Error> {
        match self.spec_stat(id) {
            Err(e) => Some(e),
            Ok(n) => if expected_version matches Some(v) && v != n.version {
                Some(Error::Version)
            } else if n.kind != Kind::File {
                Some(Error::IsDirectory)
            } else if !node7_valid(n) {
                Some(Error::Corrupt)
            } else if offset > n.length {
                Some(Error::Size)
            } else {
                None
            },
        }
    }

    /// Copy at most `out.len()` bytes from a file's current version. A version
    /// other than `expected_version`, a directory, a malformed record and an
    /// offset past the end are refused before payload I/O. Mount verified each
    /// payload checksum; the range read trusts that and does not rescan the
    /// file. An I/O error may leave a prefix in `out`.
    pub fn read_range<D: Disk>(&self, disk: &mut D, id: u32, expected_version: Option<u64>, offset: u64, out: &mut [u8]) -> (r: Result<usize, Error>)
        ensures
            final(disk).contents() == old(disk).contents(),
            final(out)@.len() == old(out)@.len(),
            self.read_refusal(id, expected_version, offset) matches Some(e) ==> r == Err::<usize, Error>(e) && final(out)@ == old(out)@
                && final(disk).requests() == old(disk).requests(),
            r matches Ok(count) ==> {
                let n = self.spec_stat(id).unwrap();
                &&& self.read_refusal(id, expected_version, offset) is None
                &&& count == least(old(out)@.len() as int, n.length - offset)
                &&& forall|i: int| 0 <= i < count ==> #[trigger] final(out)@[i] == file_byte7(old(disk).contents(), n, offset + i)
                &&& forall|i: int| count <= i < old(out)@.len() ==> #[trigger] final(out)@[i] == old(out)@[i]
            },
    {
        let node = self.stat(id)?;
        if let Some(version) = expected_version {
            if version != node.version {
                return Err(Error::Version);
            }
        }
        if node.kind != Kind::File {
            return Err(Error::IsDirectory);
        }
        node.validate()?;
        let length = node.length as u64;
        if offset > length {
            return Err(Error::Size);
        }
        proof {
            assert(total_sectors(node.extents@.take(node.extents_used as int)) == (node.length + 511) / 512);
            assert forall|k: int| 0 <= k < 8 implies #[trigger] node.extents@[k].start + node.extents@[k].sectors <= crate::extent::DATA_SECTORS by {
                if k < node.extents_used {
                    assert(crate::format7::run_live(node.extents@[k]));
                } else {
                    assert(crate::format7::is_zero_run(node.extents@[k]));
                }
            }
        }
        read_runs(disk, PAYLOAD_SECTOR, &node.extents, node.extents_used as usize, length, offset, out)
    }
}

} // verus!

verus! {

/// A file whose stored content is `bytes` reads back as `bytes` at every
/// position: what `read_range` copies is exactly what a replacement wrote.
pub proof fn lemma_content_reads_back(c: Map<u64, Seq<u8>>, n: Node7, bytes: Seq<u8>)
    requires
        crate::volume7::mount::content7(c, n.extents@.take(n.extents_used as int), n.length as int) == bytes,
    ensures
        bytes.len() == n.length,
        forall|p: int| 0 <= p < n.length ==> #[trigger] file_byte7(c, n, p) == bytes[p],
{
    assert forall|p: int| 0 <= p < n.length implies #[trigger] file_byte7(c, n, p) == bytes[p] by {
        assert(crate::volume7::mount::content7(c, n.extents@.take(n.extents_used as int), n.length as int)[p] == bytes[p]);
    }
}

} // verus!
