//! The block device a volume is published through.
use vstd::prelude::*;
use crate::Error;

verus! {

/// A sector device. `contents` is what a read of each sector returns. A
/// successful write replaces one sector; a failed write or flush may have left
/// any state behind, because errors are not rollback. Implementations must honor
/// successful flush ordering.
pub trait Disk {
    /// What a read of each sector returns. An implementation that states
    /// nothing about its sectors keeps this empty map, so no verified claim
    /// about its contents can be derived.
    open spec fn contents(&self) -> Map<u64, Seq<u8>> {
        Map::empty()
    }

    /// Whether every command on a sector the device holds succeeds. An
    /// implementation that promises nothing of the kind keeps this false, so
    /// no claim of success can be derived for it.
    open spec fn dependable(&self) -> bool {
        false
    }

    /// Whether the device counts the commands it is given in `requests`. An
    /// implementation that keeps no count keeps this false.
    open spec fn counts(&self) -> bool {
        false
    }

    /// How many commands the device has been given so far: every read, write
    /// and flush adds one, whether or not it succeeds.
    open spec fn requests(&self) -> nat {
        0
    }

    fn read(&mut self, sector: u64, bytes: &mut [u8; 512]) -> (r: Result<(), Error>)
        ensures
            final(self).contents() == old(self).contents(),
            final(self).dependable() == old(self).dependable(),
            final(self).counts() == old(self).counts(),
            old(self).counts() ==> final(self).requests() == old(self).requests() + 1,
            old(self).dependable() && old(self).contents().dom().contains(sector) ==> r is Ok,
            r is Ok ==> old(self).contents().dom().contains(sector) && final(bytes)@ == old(
                self,
            ).contents()[sector],
    ;

    fn write(&mut self, sector: u64, bytes: &[u8; 512]) -> (r: Result<(), Error>)
        ensures
            final(self).dependable() == old(self).dependable(),
            final(self).counts() == old(self).counts(),
            old(self).counts() ==> final(self).requests() == old(self).requests() + 1,
            old(self).dependable() && old(self).contents().dom().contains(sector) ==> r is Ok,
            r is Ok ==> old(self).contents().dom().contains(sector) && final(self).contents()
                == old(self).contents().insert(sector, bytes@),
    ;

    fn flush(&mut self) -> (r: Result<(), Error>)
        ensures
            final(self).dependable() == old(self).dependable(),
            final(self).counts() == old(self).counts(),
            old(self).counts() ==> final(self).requests() == old(self).requests() + 1,
            old(self).dependable() ==> r is Ok,
            r is Ok ==> final(self).contents() == old(self).contents(),
    ;
}

/// An in-memory disk: every sector below `sectors` reads back what was last
/// written to it, starting from zeros.
pub struct MemDisk {
    sectors: Vec<[u8; 512]>,
    issued: Ghost<nat>,
}

impl MemDisk {
    pub fn new(sectors: u64) -> (r: Self)
        requires
            sectors <= usize::MAX,
        ensures
            r.contents().dom() == Set::new(|s: u64| s < sectors),
            r.requests() == 0,
            forall|s: u64| s < sectors ==> #[trigger] r.contents()[s] == Seq::new(512, |i: int| 0u8),
    {
        let mut v: Vec<[u8; 512]> = Vec::new();
        let zero = [0u8; 512];
        assert(zero@ =~= Seq::new(512, |i: int| 0u8));
        let mut i: u64 = 0;
        while i < sectors
            invariant
                0 <= i <= sectors,
                v@.len() == i,
                zero@ == Seq::new(512, |i: int| 0u8),
                forall|k: int| 0 <= k < i ==> (#[trigger] v@[k])@ == Seq::new(512, |i: int| 0u8),
            decreases sectors - i,
        {
            v.push(zero);
            i = i + 1;
        }
        let r = MemDisk { sectors: v, issued: Ghost(0) };
        assert(r.contents().dom() =~= Set::new(|s: u64| s < sectors));
        r
    }

    pub fn len(&self) -> (r: u64)
        ensures
            forall|s: u64| self.contents().dom().contains(s) <==> s < r,
    {
        self.sectors.len() as u64
    }
}

impl Disk for MemDisk {
    closed spec fn contents(&self) -> Map<u64, Seq<u8>> {
        Map::new(|s: u64| s < self.sectors@.len(), |s: u64| self.sectors@[s as int]@)
    }

    open spec fn dependable(&self) -> bool {
        true
    }

    open spec fn counts(&self) -> bool {
        true
    }

    closed spec fn requests(&self) -> nat {
        self.issued@
    }

    fn read(&mut self, sector: u64, bytes: &mut [u8; 512]) -> (r: Result<(), Error>)
        ensures
            r is Ok <==> old(self).contents().dom().contains(sector),
            r is Err ==> r == Err::<(), Error>(Error::Io),
    {
        self.issued = Ghost(self.issued@ + 1);
        if sector >= self.sectors.len() as u64 {
            return Err(Error::Io);
        }
        *bytes = self.sectors[sector as usize];
        Ok(())
    }

    fn write(&mut self, sector: u64, bytes: &[u8; 512]) -> (r: Result<(), Error>)
        ensures
            r is Ok <==> old(self).contents().dom().contains(sector),
            r is Err ==> r == Err::<(), Error>(Error::Io) && final(self).contents() == old(self).contents(),
    {
        self.issued = Ghost(self.issued@ + 1);
        if sector >= self.sectors.len() as u64 {
            return Err(Error::Io);
        }
        self.sectors.set(sector as usize, *bytes);
        assert(self.contents() =~= old(self).contents().insert(sector, bytes@));
        Ok(())
    }

    fn flush(&mut self) -> (r: Result<(), Error>)
        ensures
            r is Ok,
            final(self).contents() == old(self).contents(),
    {
        self.issued = Ghost(self.issued@ + 1);
        Ok(())
    }
}

} // verus!
