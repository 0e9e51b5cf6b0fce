//! Payload extents and free-space accounting for the extent-addressed layouts.
//!
//! A file's bytes live in up to `EXTENTS_PER_FILE` runs of payload sectors, and
//! a bitmap with one bit per payload sector (one means allocated) records which
//! sectors are taken. No disk is touched here.
use vstd::prelude::*;
use vstd::set_lib::*;
use crate::Error;

verus! {

/// Objects the extent-addressed control records describe.
pub const OBJECTS_V6: usize = 256;
/// Largest single file in the payload region.
pub const MAX_FILE_V6: usize = 262144;
/// Total payload region, the cap that makes exhaustion decidable.
pub const DATA_BYTES_V6: u64 = 67108864;
/// Allocation granularity: the volume's sector.
pub const SECTOR_BYTES: u64 = 512;
/// Sectors the whole payload region spans.
pub const DATA_SECTORS: u64 = 131072;
/// Words in the free-space bitmap (one bit per sector).
pub const MAP_WORDS: usize = 2048;
/// Extents one file may reference.
pub const EXTENTS_PER_FILE: usize = 8;
/// Sectors one file may occupy, derived from its byte limit.
pub const FILE_SECTORS_MAX: u64 = 512;

/// One contiguous run of payload sectors, relative to the payload region.
#[derive(Clone, Copy, Debug, PartialEq, Eq, Structural)]
pub struct Extent {
    pub start: u64,
    pub sectors: u64,
}

impl Extent {
    pub open spec fn spec_end(self) -> int {
        self.start + self.sectors
    }

    pub fn new(start: u64, sectors: u64) -> (r: Self)
        ensures
            r == (Extent { start, sectors }),
    {
        Self { start, sectors }
    }

    /// One past the last sector of the run.
    pub fn end(&self) -> (r: u64)
        requires
            self.start + self.sectors <= u64::MAX,
        ensures
            r == self.spec_end(),
    {
        self.start + self.sectors
    }
}

/// Total sectors of a run list.
pub open spec fn total_sectors(runs: Seq<Extent>) -> int
    decreases runs.len(),
{
    if runs.len() == 0 {
        0
    } else {
        total_sectors(runs.drop_last()) + runs.last().sectors
    }
}

pub proof fn lemma_total_sectors_push(runs: Seq<Extent>, run: Extent)
    ensures
        total_sectors(runs.push(run)) == total_sectors(runs) + run.sectors,
{
    assert(runs.push(run).drop_last() =~= runs);
}

pub proof fn lemma_total_sectors_prefix(runs: Seq<Extent>, i: int)
    requires
        0 <= i < runs.len(),
    ensures
        total_sectors(runs.take(i + 1)) == total_sectors(runs.take(i)) + runs[i].sectors,
{
    assert(runs.take(i + 1).drop_last() =~= runs.take(i));
}

pub proof fn lemma_total_sectors_nonneg(runs: Seq<Extent>)
    ensures
        total_sectors(runs) >= 0,
    decreases runs.len(),
{
    if runs.len() > 0 {
        lemma_total_sectors_nonneg(runs.drop_last());
    }
}

pub proof fn lemma_total_sectors_monotone(runs: Seq<Extent>, i: int)
    requires
        0 <= i <= runs.len(),
    ensures
        total_sectors(runs.take(i)) <= total_sectors(runs),
    decreases runs.len() - i,
{
    if i < runs.len() {
        lemma_total_sectors_monotone(runs, i + 1);
        lemma_total_sectors_prefix(runs, i);
    } else {
        assert(runs.take(i) =~= runs);
    }
}

/// A file's runs, in the order its bytes occupy them.
#[derive(Clone, Copy, Debug)]
pub struct Extents {
    runs: [Option<Extent>; EXTENTS_PER_FILE],
    used: usize,
    sectors: u64,
}

impl View for Extents {
    type V = Seq<Extent>;

    closed spec fn view(&self) -> Seq<Extent> {
        Seq::new(self.used as nat, |i: int| self.runs@[i].unwrap())
    }
}

impl Extents {
    /// The stored runs agree with the count and the sector total.
    pub closed spec fn wf(&self) -> bool {
        &&& self.used <= EXTENTS_PER_FILE
        &&& forall|i: int| 0 <= i < self.used ==> (#[trigger] self.runs@[i]).is_some()
        &&& forall|i: int| 0 <= i < self.used ==> (#[trigger] self.runs@[i]).unwrap().sectors > 0
        &&& self.sectors == total_sectors(self@)
        &&& self.sectors <= FILE_SECTORS_MAX
    }

    pub fn new() -> (r: Self)
        ensures
            r.wf(),
            r@ == Seq::<Extent>::empty(),
    {
        let r = Self { runs: [None; EXTENTS_PER_FILE], used: 0, sectors: 0 };
        assert(r@ =~= Seq::<Extent>::empty());
        r
    }

    /// Append a run. A zero-sector run is `Invalid`; a ninth run is `Full`; a
    /// total beyond `FILE_SECTORS_MAX` sectors is `Size`.
    pub fn push(&mut self, run: Extent) -> (r: Result<(), Error>)
        requires
            old(self).wf(),
        ensures
            final(self).wf(),
            match r {
                Ok(()) => final(self)@ == old(self)@.push(run),
                Err(e) => {
                    &&& final(self)@ == old(self)@
                    &&& e == if run.sectors == 0 {
                        Error::Invalid
                    } else if old(self)@.len() == EXTENTS_PER_FILE {
                        Error::Full
                    } else {
                        Error::Size
                    }
                },
            },
            r is Ok <==> (run.sectors > 0 && old(self)@.len() < EXTENTS_PER_FILE
                && total_sectors(old(self)@) + run.sectors <= FILE_SECTORS_MAX),
    {
        if run.sectors == 0 {
            return Err(Error::Invalid);
        }
        if self.used == EXTENTS_PER_FILE {
            return Err(Error::Full);
        }
        let total = match self.sectors.checked_add(run.sectors) {
            Some(t) => t,
            None => return Err(Error::Size),
        };
        if total > FILE_SECTORS_MAX {
            return Err(Error::Size);
        }
        let ghost before = self@;
        self.runs[self.used] = Some(run);
        self.used = self.used + 1;
        self.sectors = total;
        proof {
            assert(self@ =~= before.push(run));
            lemma_total_sectors_push(before, run);
        }
        Ok(())
    }

    /// The runs, in file order.
    pub fn runs(&self) -> (r: Vec<Extent>)
        requires
            self.wf(),
        ensures
            r@ == self@,
    {
        let mut out: Vec<Extent> = Vec::new();
        let mut i: usize = 0;
        while i < self.used
            invariant
                self.wf(),
                0 <= i <= self.used,
                out@ == self@.take(i as int),
            decreases self.used - i,
        {
            let run = self.runs[i].unwrap();
            out.push(run);
            i = i + 1;
            proof {
                assert(out@ =~= self@.take(i as int));
            }
        }
        proof {
            assert(self@.take(self.used as int) =~= self@);
        }
        out
    }

    pub fn len(&self) -> (r: usize)
        requires
            self.wf(),
        ensures
            r == self@.len(),
    {
        self.used
    }

    pub fn is_empty(&self) -> (r: bool)
        requires
            self.wf(),
        ensures
            r == (self@.len() == 0),
    {
        self.used == 0
    }

    pub fn sectors(&self) -> (r: u64)
        requires
            self.wf(),
        ensures
            r == total_sectors(self@),
    {
        self.sectors
    }

    pub fn bytes(&self) -> (r: u64)
        requires
            self.wf(),
        ensures
            r == total_sectors(self@) * SECTOR_BYTES,
    {
        self.sectors * SECTOR_BYTES
    }

    /// Byte offset of run `index`'s start inside the file, or `None` past the
    /// last run.
    pub fn offset_of(&self, index: usize) -> (r: Option<u64>)
        requires
            self.wf(),
        ensures
            r == if index < self@.len() {
                Some((total_sectors(self@.take(index as int)) * SECTOR_BYTES) as u64)
            } else {
                None::<u64>
            },
    {
        if index >= self.used {
            return None;
        }
        let mut bytes: u64 = 0;
        let mut i: usize = 0;
        proof {
            lemma_total_sectors_monotone(self@, index as int);
            lemma_total_sectors_nonneg(self@.take(index as int));
        }
        while i < index
            invariant
                self.wf(),
                index < self.used,
                0 <= i <= index,
                bytes == total_sectors(self@.take(i as int)) * SECTOR_BYTES,
                total_sectors(self@.take(index as int)) <= FILE_SECTORS_MAX,
            decreases index - i,
        {
            proof {
                lemma_total_sectors_prefix(self@, i as int);
                lemma_total_sectors_prefix(self@.take(index as int), i as int);
                assert(self@.take(index as int).take(i as int) =~= self@.take(i as int));
                assert(self@.take(index as int).take(i + 1) =~= self@.take(i + 1));
                lemma_total_sectors_monotone(self@.take(index as int), i + 1);
                lemma_total_sectors_nonneg(self@.take(i as int));
            }
            let run = self.runs[i].unwrap();
            bytes = bytes + run.sectors * SECTOR_BYTES;
            i = i + 1;
        }
        Some(bytes)
    }
}

impl Default for Extents {
    fn default() -> (r: Self)
        ensures
            r.wf(),
            r@ == Seq::<Extent>::empty(),
    {
        Self::new()
    }
}

/// Whether payload sector `s` is allocated in `words`.
pub open spec fn bit(words: Seq<u64>, s: int) -> bool {
    words[s / 64] & (1u64 << ((s % 64) as u64)) != 0
}

/// The allocated sectors of `words`.
pub open spec fn used_set(words: Seq<u64>) -> Set<int> {
    Set::new(|s: int| 0 <= s < DATA_SECTORS && bit(words, s))
}

/// How many of the first `n` sectors `words` marks free.
pub open spec fn clear_count(words: Seq<u64>, n: int) -> int
    decreases n,
{
    if n <= 0 {
        0
    } else {
        clear_count(words, n - 1) + if bit(words, n - 1) { 0int } else { 1int }
    }
}

/// The free count of a prefix is at most its length and never shrinks.
pub proof fn lemma_clear_count_bounds(words: Seq<u64>, n: int)
    requires
        0 <= n,
    ensures
        0 <= clear_count(words, n) <= n,
        forall|k: int| 0 <= k <= n ==> clear_count(words, k) <= #[trigger] clear_count(words, n),
    decreases n,
{
    if n > 0 {
        lemma_clear_count_bounds(words, n - 1);
    }
}

/// A free run of `len` sectors ending by `n` leaves at least `len` free
/// sectors among the first `n`.
pub proof fn lemma_free_run_counted(words: Seq<u64>, start: int, len: int, n: int)
    requires
        free_run(words, start, len),
        0 <= len,
        start + len <= n,
    ensures
        clear_count(words, n) >= len,
    decreases n,
{
    if n > start + len {
        lemma_free_run_counted(words, start, len, n - 1);
    } else if len > 0 {
        lemma_free_run_counted(words, start, len - 1, n - 1);
    } else {
        lemma_clear_count_bounds(words, n);
    }
}

/// `[start, start + len)` lies in the region and holds no allocated sector.
pub open spec fn free_run(words: Seq<u64>, start: int, len: int) -> bool {
    &&& 0 <= start
    &&& start + len <= DATA_SECTORS
    &&& forall|s: int| start <= s < start + len ==> !bit(words, s)
}

/// `[start, start + len)` lies in the region and every sector in it is allocated.
pub open spec fn used_run(words: Seq<u64>, start: int, len: int) -> bool {
    &&& 0 <= start
    &&& start + len <= DATA_SECTORS
    &&& forall|s: int| start <= s < start + len ==> bit(words, s)
}

/// `new` is `old` with `[start, end)` marked `used` and every other sector as it was.
pub open spec fn marked(new: Seq<u64>, old: Seq<u64>, start: int, end: int, used: bool) -> bool {
    &&& new.len() == old.len()
    &&& forall|s: int|
        0 <= s < DATA_SECTORS ==> #[trigger] bit(new, s) == if start <= s < end {
            used
        } else {
            bit(old, s)
        }
}

proof fn lemma_bit_ops(w: u64, k: u64, j: u64)
    requires
        k < 64,
        j < 64,
    ensures
        ((w | (1u64 << k)) & (1u64 << j) != 0) == (j == k || w & (1u64 << j) != 0),
        ((w & !(1u64 << k)) & (1u64 << j) != 0) == (j != k && w & (1u64 << j) != 0),
{
    assert(((w | (1u64 << k)) & (1u64 << j) != 0) == (j == k || w & (1u64 << j) != 0))
        by (bit_vector)
        requires
            k < 64,
            j < 64,
    ;
    assert(((w & !(1u64 << k)) & (1u64 << j) != 0) == (j != k && w & (1u64 << j) != 0))
        by (bit_vector)
        requires
            k < 64,
            j < 64,
    ;
}

proof fn lemma_used_set_bound(words: Seq<u64>)
    ensures
        used_set(words).finite(),
        used_set(words).len() <= DATA_SECTORS,
{
    lemma_int_range(0, DATA_SECTORS as int);
    lemma_len_subset(used_set(words), set_int_range(0, DATA_SECTORS as int));
}

/// Marking a free run used adds its length to the allocated count; clearing a
/// used run removes it.
proof fn lemma_used_set_marked(new: Seq<u64>, old: Seq<u64>, start: int, end: int, used: bool)
    requires
        0 <= start <= end <= DATA_SECTORS,
        marked(new, old, start, end, used),
        used ==> free_run(old, start, end - start),
        !used ==> used_run(old, start, end - start),
    ensures
        used_set(new).len() == if used {
            used_set(old).len() + (end - start)
        } else {
            used_set(old).len() - (end - start)
        },
{
    lemma_used_set_bound(new);
    lemma_used_set_bound(old);
    lemma_int_range(start, end);
    let range = set_int_range(start, end);
    if used {
        assert(used_set(new) =~= used_set(old) + range);
        assert(used_set(old).disjoint(range));
        lemma_set_disjoint_lens(used_set(old), range);
    } else {
        assert(used_set(old) =~= used_set(new) + range);
        assert(used_set(new).disjoint(range));
        lemma_set_disjoint_lens(used_set(new), range);
    }
}

/// Mark payload sector `sector` allocated or free, leaving every other bit.
pub fn set_bit(words: &mut Vec<u64>, sector: u64, used: bool)
    requires
        old(words)@.len() == MAP_WORDS,
        sector < DATA_SECTORS,
    ensures
        marked(final(words)@, old(words)@, sector as int, sector + 1, used),
{
    let index = (sector / 64) as usize;
    let mask = 1u64 << (sector % 64);
    let word = words[index];
    let next = if used {
        word | mask
    } else {
        word & !mask
    };
    let ghost before = words@;
    words.set(index, next);
    proof {
        assert forall|s: int| 0 <= s < DATA_SECTORS implies #[trigger] bit(words@, s)
            == if sector <= s < sector + 1 {
            used
        } else {
            bit(before, s)
        } by {
            if s / 64 == index as int {
                lemma_bit_ops(word, (sector % 64) as u64, (s % 64) as u64);
            }
        }
    }
}

/// Whether payload sector `sector` is allocated.
pub fn get_bit(words: &[u64], sector: u64) -> (r: bool)
    requires
        words@.len() == MAP_WORDS,
        sector < DATA_SECTORS,
    ensures
        r == bit(words@, sector as int),
{
    words[(sector / 64) as usize] & (1u64 << (sector % 64)) != 0
}

/// One bit per payload sector. The owner persists and checksums the words; this
/// type only keeps the accounting honest. `free` starts at the number of
/// sectors the words mark free, is decremented by allocation and incremented
/// by release.
pub struct FreeSpace {
    words: Vec<u64>,
    free: u64,
}

impl FreeSpace {
    pub closed spec fn words(&self) -> Seq<u64> {
        self.words@
    }

    pub closed spec fn free(&self) -> u64 {
        self.free
    }

    pub closed spec fn wf(&self) -> bool {
        &&& self.words@.len() == MAP_WORDS
        &&& self.free + used_set(self.words@).len() <= 2 * DATA_SECTORS
    }

    /// A well-formed space holds one bit per payload sector.
    pub proof fn lemma_wf_words(&self)
        requires
            self.wf(),
        ensures
            self.words().len() == MAP_WORDS,
    {
    }

    /// `words` must hold one bit per payload sector; any other length is `Size`.
    /// The counter starts at the number of sectors the words mark free.
    pub fn new(words: Vec<u64>) -> (r: Result<Self, Error>)
        ensures
            match r {
                Ok(space) => {
                    &&& space.wf()
                    &&& space.words() == words@
                    &&& space.free() == clear_count(words@, DATA_SECTORS as int)
                },
                Err(e) => e == Error::Size && words@.len() != MAP_WORDS,
            },
            r is Ok <==> words@.len() == MAP_WORDS,
    {
        if words.len() != MAP_WORDS {
            return Err(Error::Size);
        }
        proof {
            lemma_used_set_bound(words@);
        }
        let mut free: u64 = 0;
        let mut sector: u64 = 0;
        while sector < DATA_SECTORS
            invariant
                words@.len() == MAP_WORDS,
                0 <= sector <= DATA_SECTORS,
                free == clear_count(words@, sector as int),
                free <= sector,
            decreases DATA_SECTORS - sector,
        {
            if !get_bit(words.as_slice(), sector) {
                free = free + 1;
            }
            sector = sector + 1;
        }
        Ok(Self { words, free })
    }

    /// Give the words back to their owner.
    pub fn into_words(self) -> (r: Vec<u64>)
        ensures
            r@ == self.words(),
    {
        self.words
    }

    /// Mark every sector used, for a region that is not yet formatted.
    pub fn fill(&mut self)
        requires
            old(self).wf(),
        ensures
            final(self).wf(),
            final(self).free() == 0,
            final(self).words() == Seq::new(MAP_WORDS as nat, |i: int| u64::MAX),
    {
        let mut i: usize = 0;
        while i < self.words.len()
            invariant
                self.words@.len() == MAP_WORDS,
                0 <= i <= MAP_WORDS,
                forall|k: int| 0 <= k < i ==> self.words@[k] == u64::MAX,
            decreases MAP_WORDS - i,
        {
            self.words.set(i, u64::MAX);
            i = i + 1;
        }
        self.free = 0;
        proof {
            assert(self.words@ =~= Seq::new(MAP_WORDS as nat, |i: int| u64::MAX));
            lemma_used_set_bound(self.words@);
        }
    }

    pub fn free_sectors(&self) -> (r: u64)
        ensures
            r == self.free(),
    {
        self.free
    }

    pub fn free_bytes(&self) -> (r: u64)
        requires
            self.wf(),
        ensures
            r == self.free() * SECTOR_BYTES,
    {
        self.free * SECTOR_BYTES
    }

    /// Whether `sector` is allocated.
    pub fn get(&self, sector: u64) -> (r: bool)
        requires
            self.wf(),
            sector < DATA_SECTORS,
        ensures
            r == bit(self.words(), sector as int),
    {
        self.words[(sector / 64) as usize] & (1u64 << (sector % 64)) != 0
    }

    fn set(&mut self, sector: u64, used: bool)
        requires
            old(self).words@.len() == MAP_WORDS,
            sector < DATA_SECTORS,
        ensures
            marked(final(self).words@, old(self).words@, sector as int, sector + 1, used),
            final(self).free == old(self).free,
    {
        set_bit(&mut self.words, sector, used);
    }

    /// First free run of `sectors`: `Size` for zero or more than a file may
    /// hold, `Full` when the counter or the region has no such run. The search
    /// is bounded by the region; no fragmentation policy is invented here.
    pub fn allocate(&mut self, sectors: u64) -> (r: Result<Extent, Error>)
        requires
            old(self).wf(),
        ensures
            final(self).wf(),
            match r {
                Ok(run) => {
                    &&& run.sectors == sectors
                    &&& free_run(old(self).words(), run.start as int, sectors as int)
                    &&& forall|st: int|
                        0 <= st < run.start ==> !free_run(old(self).words(), st, sectors as int)
                    &&& marked(
                        final(self).words(),
                        old(self).words(),
                        run.start as int,
                        run.spec_end(),
                        true,
                    )
                    &&& final(self).free() == old(self).free() - sectors
                },
                Err(e) => {
                    &&& final(self).words() == old(self).words()
                    &&& final(self).free() == old(self).free()
                    &&& e == if sectors == 0 || sectors > FILE_SECTORS_MAX {
                        Error::Size
                    } else {
                        Error::Full
                    }
                },
            },
            sectors == 0 || sectors > FILE_SECTORS_MAX ==> r == Err::<Extent, Error>(Error::Size),
            r is Err ==> (sectors == 0 || sectors > FILE_SECTORS_MAX || sectors > old(
                self,
            ).free() || forall|st: int| !free_run(old(self).words(), st, sectors as int)),
            (0 < sectors <= FILE_SECTORS_MAX && sectors <= old(self).free() && exists|st: int|
                free_run(old(self).words(), st, sectors as int)) ==> r is Ok,
    {
        if sectors == 0 || sectors > FILE_SECTORS_MAX {
            return Err(Error::Size);
        }
        if sectors > self.free {
            return Err(Error::Full);
        }
        let ghost old_words = self.words@;
        let mut run: u64 = 0;
        let mut sector: u64 = 0;
        while sector < DATA_SECTORS
            invariant
                self.wf(),
                self.words@ == old_words,
                old_words == old(self).words@,
                self.free == old(self).free,
                0 < sectors <= FILE_SECTORS_MAX,
                sectors <= self.free,
                0 <= sector <= DATA_SECTORS,
                run <= sector,
                run < sectors,
                forall|s: int| sector - run <= s < sector ==> !bit(old_words, s),
                sector - run > 0 ==> bit(old_words, sector - run - 1),
                forall|st: int| 0 <= st && st + sectors <= sector ==> !free_run(old_words, st, sectors as int),
            decreases DATA_SECTORS - sector,
        {
            if self.get(sector) {
                run = 0;
                sector = sector + 1;
                proof {
                    assert forall|st: int| 0 <= st && st + sectors <= sector implies !free_run(
                        old_words,
                        st,
                        sectors as int,
                    ) by {
                        if st + sectors == sector {
                            assert(bit(old_words, sector - 1));
                        }
                    }
                }
                continue;
            }
            run = run + 1;
            if run == sectors {
                let start = sector + 1 - sectors;
                let mut taken = start;
                while taken <= sector
                    invariant
                        start <= taken <= sector + 1,
                        sector < DATA_SECTORS,
                        self.words@.len() == MAP_WORDS,
                        self.free == old(self).free,
                        marked(self.words@, old_words, start as int, taken as int, true),
                    decreases sector + 1 - taken,
                {
                    self.set(taken, true);
                    taken = taken + 1;
                }
                proof {
                    assert(free_run(old_words, start as int, sectors as int));
                    lemma_used_set_marked(self.words@, old_words, start as int, sector + 1, true);
                }
                self.free = self.free - sectors;
                return Ok(Extent::new(start, sectors));
            }
            sector = sector + 1;
            proof {
                assert forall|st: int| 0 <= st && st + sectors <= sector implies !free_run(
                    old_words,
                    st,
                    sectors as int,
                ) by {
                    if st + sectors == sector {
                        assert(st < sector - run);
                        assert(bit(old_words, sector - run - 1));
                    }
                }
            }
        }
        proof {
            assert forall|st: int| !free_run(old_words, st, sectors as int) by {
                if 0 <= st && st + sectors <= DATA_SECTORS {
                }
            }
        }
        Err(Error::Full)
    }

    /// Return a run. A zero-length run, one past the region, or one holding an
    /// unallocated sector is `Invalid`, so a double release cannot silently
    /// corrupt the accounting.
    pub fn release(&mut self, run: Extent) -> (r: Result<(), Error>)
        requires
            old(self).wf(),
        ensures
            final(self).wf(),
            r is Ok <==> (run.sectors > 0 && used_run(old(self).words(), run.start as int, run.sectors as int)),
            match r {
                Ok(()) => {
                    &&& marked(
                        final(self).words(),
                        old(self).words(),
                        run.start as int,
                        run.spec_end(),
                        false,
                    )
                    &&& final(self).free() == old(self).free() + run.sectors
                },
                Err(e) => {
                    &&& e == Error::Invalid
                    &&& final(self).words() == old(self).words()
                    &&& final(self).free() == old(self).free()
                },
            },
    {
        if run.sectors == 0 || run.start > DATA_SECTORS || run.sectors > DATA_SECTORS - run.start {
            return Err(Error::Invalid);
        }
        let end = run.start + run.sectors;
        let mut sector = run.start;
        while sector < end
            invariant
                self.wf(),
                self.words@ == old(self).words@,
                self.free == old(self).free,
                run.start <= sector <= end <= DATA_SECTORS,
                end == run.start + run.sectors,
                forall|s: int| run.start <= s < sector ==> bit(self.words@, s),
            decreases end - sector,
        {
            if !self.get(sector) {
                return Err(Error::Invalid);
            }
            sector = sector + 1;
        }
        let ghost old_words = self.words@;
        let mut sector = run.start;
        while sector < end
            invariant
                run.start <= sector <= end <= DATA_SECTORS,
                self.words@.len() == MAP_WORDS,
                self.free == old(self).free,
                marked(self.words@, old_words, run.start as int, sector as int, false),
            decreases end - sector,
        {
            self.set(sector, false);
            sector = sector + 1;
        }
        proof {
            lemma_used_set_marked(self.words@, old_words, run.start as int, end as int, false);
        }
        self.free = self.free + run.sectors;
        Ok(())
    }
}

} // verus!

verus! {

/// A word is determined by its bits.
proof fn lemma_word_bits(x: u64, y: u64)
    requires
        forall|k: u64| k < 64 ==> ((x & (1u64 << k)) != 0) == ((y & (1u64 << k)) != 0),
    ensures
        x == y,
{
    assert(((x & (1u64 << 0u64)) != 0) == ((y & (1u64 << 0u64)) != 0));
    assert(((x & (1u64 << 1u64)) != 0) == ((y & (1u64 << 1u64)) != 0));
    assert(((x & (1u64 << 2u64)) != 0) == ((y & (1u64 << 2u64)) != 0));
    assert(((x & (1u64 << 3u64)) != 0) == ((y & (1u64 << 3u64)) != 0));
    assert(((x & (1u64 << 4u64)) != 0) == ((y & (1u64 << 4u64)) != 0));
    assert(((x & (1u64 << 5u64)) != 0) == ((y & (1u64 << 5u64)) != 0));
    assert(((x & (1u64 << 6u64)) != 0) == ((y & (1u64 << 6u64)) != 0));
    assert(((x & (1u64 << 7u64)) != 0) == ((y & (1u64 << 7u64)) != 0));
    assert(((x & (1u64 << 8u64)) != 0) == ((y & (1u64 << 8u64)) != 0));
    assert(((x & (1u64 << 9u64)) != 0) == ((y & (1u64 << 9u64)) != 0));
    assert(((x & (1u64 << 10u64)) != 0) == ((y & (1u64 << 10u64)) != 0));
    assert(((x & (1u64 << 11u64)) != 0) == ((y & (1u64 << 11u64)) != 0));
    assert(((x & (1u64 << 12u64)) != 0) == ((y & (1u64 << 12u64)) != 0));
    assert(((x & (1u64 << 13u64)) != 0) == ((y & (1u64 << 13u64)) != 0));
    assert(((x & (1u64 << 14u64)) != 0) == ((y & (1u64 << 14u64)) != 0));
    assert(((x & (1u64 << 15u64)) != 0) == ((y & (1u64 << 15u64)) != 0));
    assert(((x & (1u64 << 16u64)) != 0) == ((y & (1u64 << 16u64)) != 0));
    assert(((x & (1u64 << 17u64)) != 0) == ((y & (1u64 << 17u64)) != 0));
    assert(((x & (1u64 << 18u64)) != 0) == ((y & (1u64 << 18u64)) != 0));
    assert(((x & (1u64 << 19u64)) != 0) == ((y & (1u64 << 19u64)) != 0));
    assert(((x & (1u64 << 20u64)) != 0) == ((y & (1u64 << 20u64)) != 0));
    assert(((x & (1u64 << 21u64)) != 0) == ((y & (1u64 << 21u64)) != 0));
    assert(((x & (1u64 << 22u64)) != 0) == ((y & (1u64 << 22u64)) != 0));
    assert(((x & (1u64 << 23u64)) != 0) == ((y & (1u64 << 23u64)) != 0));
    assert(((x & (1u64 << 24u64)) != 0) == ((y & (1u64 << 24u64)) != 0));
    assert(((x & (1u64 << 25u64)) != 0) == ((y & (1u64 << 25u64)) != 0));
    assert(((x & (1u64 << 26u64)) != 0) == ((y & (1u64 << 26u64)) != 0));
    assert(((x & (1u64 << 27u64)) != 0) == ((y & (1u64 << 27u64)) != 0));
    assert(((x & (1u64 << 28u64)) != 0) == ((y & (1u64 << 28u64)) != 0));
    assert(((x & (1u64 << 29u64)) != 0) == ((y & (1u64 << 29u64)) != 0));
    assert(((x & (1u64 << 30u64)) != 0) == ((y & (1u64 << 30u64)) != 0));
    assert(((x & (1u64 << 31u64)) != 0) == ((y & (1u64 << 31u64)) != 0));
    assert(((x & (1u64 << 32u64)) != 0) == ((y & (1u64 << 32u64)) != 0));
    assert(((x & (1u64 << 33u64)) != 0) == ((y & (1u64 << 33u64)) != 0));
    assert(((x & (1u64 << 34u64)) != 0) == ((y & (1u64 << 34u64)) != 0));
    assert(((x & (1u64 << 35u64)) != 0) == ((y & (1u64 << 35u64)) != 0));
    assert(((x & (1u64 << 36u64)) != 0) == ((y & (1u64 << 36u64)) != 0));
    assert(((x & (1u64 << 37u64)) != 0) == ((y & (1u64 << 37u64)) != 0));
    assert(((x & (1u64 << 38u64)) != 0) == ((y & (1u64 << 38u64)) != 0));
    assert(((x & (1u64 << 39u64)) != 0) == ((y & (1u64 << 39u64)) != 0));
    assert(((x & (1u64 << 40u64)) != 0) == ((y & (1u64 << 40u64)) != 0));
    assert(((x & (1u64 << 41u64)) != 0) == ((y & (1u64 << 41u64)) != 0));
    assert(((x & (1u64 << 42u64)) != 0) == ((y & (1u64 << 42u64)) != 0));
    assert(((x & (1u64 << 43u64)) != 0) == ((y & (1u64 << 43u64)) != 0));
    assert(((x & (1u64 << 44u64)) != 0) == ((y & (1u64 << 44u64)) != 0));
    assert(((x & (1u64 << 45u64)) != 0) == ((y & (1u64 << 45u64)) != 0));
    assert(((x & (1u64 << 46u64)) != 0) == ((y & (1u64 << 46u64)) != 0));
    assert(((x & (1u64 << 47u64)) != 0) == ((y & (1u64 << 47u64)) != 0));
    assert(((x & (1u64 << 48u64)) != 0) == ((y & (1u64 << 48u64)) != 0));
    assert(((x & (1u64 << 49u64)) != 0) == ((y & (1u64 << 49u64)) != 0));
    assert(((x & (1u64 << 50u64)) != 0) == ((y & (1u64 << 50u64)) != 0));
    assert(((x & (1u64 << 51u64)) != 0) == ((y & (1u64 << 51u64)) != 0));
    assert(((x & (1u64 << 52u64)) != 0) == ((y & (1u64 << 52u64)) != 0));
    assert(((x & (1u64 << 53u64)) != 0) == ((y & (1u64 << 53u64)) != 0));
    assert(((x & (1u64 << 54u64)) != 0) == ((y & (1u64 << 54u64)) != 0));
    assert(((x & (1u64 << 55u64)) != 0) == ((y & (1u64 << 55u64)) != 0));
    assert(((x & (1u64 << 56u64)) != 0) == ((y & (1u64 << 56u64)) != 0));
    assert(((x & (1u64 << 57u64)) != 0) == ((y & (1u64 << 57u64)) != 0));
    assert(((x & (1u64 << 58u64)) != 0) == ((y & (1u64 << 58u64)) != 0));
    assert(((x & (1u64 << 59u64)) != 0) == ((y & (1u64 << 59u64)) != 0));
    assert(((x & (1u64 << 60u64)) != 0) == ((y & (1u64 << 60u64)) != 0));
    assert(((x & (1u64 << 61u64)) != 0) == ((y & (1u64 << 61u64)) != 0));
    assert(((x & (1u64 << 62u64)) != 0) == ((y & (1u64 << 62u64)) != 0));
    assert(((x & (1u64 << 63u64)) != 0) == ((y & (1u64 << 63u64)) != 0));
    assert(x == y) by (bit_vector)
        requires
            ((x & (1u64 << 0u64)) != 0) == ((y & (1u64 << 0u64)) != 0),
            ((x & (1u64 << 1u64)) != 0) == ((y & (1u64 << 1u64)) != 0),
            ((x & (1u64 << 2u64)) != 0) == ((y & (1u64 << 2u64)) != 0),
            ((x & (1u64 << 3u64)) != 0) == ((y & (1u64 << 3u64)) != 0),
            ((x & (1u64 << 4u64)) != 0) == ((y & (1u64 << 4u64)) != 0),
            ((x & (1u64 << 5u64)) != 0) == ((y & (1u64 << 5u64)) != 0),
            ((x & (1u64 << 6u64)) != 0) == ((y & (1u64 << 6u64)) != 0),
            ((x & (1u64 << 7u64)) != 0) == ((y & (1u64 << 7u64)) != 0),
            ((x & (1u64 << 8u64)) != 0) == ((y & (1u64 << 8u64)) != 0),
            ((x & (1u64 << 9u64)) != 0) == ((y & (1u64 << 9u64)) != 0),
            ((x & (1u64 << 10u64)) != 0) == ((y & (1u64 << 10u64)) != 0),
            ((x & (1u64 << 11u64)) != 0) == ((y & (1u64 << 11u64)) != 0),
            ((x & (1u64 << 12u64)) != 0) == ((y & (1u64 << 12u64)) != 0),
            ((x & (1u64 << 13u64)) != 0) == ((y & (1u64 << 13u64)) != 0),
            ((x & (1u64 << 14u64)) != 0) == ((y & (1u64 << 14u64)) != 0),
            ((x & (1u64 << 15u64)) != 0) == ((y & (1u64 << 15u64)) != 0),
            ((x & (1u64 << 16u64)) != 0) == ((y & (1u64 << 16u64)) != 0),
            ((x & (1u64 << 17u64)) != 0) == ((y & (1u64 << 17u64)) != 0),
            ((x & (1u64 << 18u64)) != 0) == ((y & (1u64 << 18u64)) != 0),
            ((x & (1u64 << 19u64)) != 0) == ((y & (1u64 << 19u64)) != 0),
            ((x & (1u64 << 20u64)) != 0) == ((y & (1u64 << 20u64)) != 0),
            ((x & (1u64 << 21u64)) != 0) == ((y & (1u64 << 21u64)) != 0),
            ((x & (1u64 << 22u64)) != 0) == ((y & (1u64 << 22u64)) != 0),
            ((x & (1u64 << 23u64)) != 0) == ((y & (1u64 << 23u64)) != 0),
            ((x & (1u64 << 24u64)) != 0) == ((y & (1u64 << 24u64)) != 0),
            ((x & (1u64 << 25u64)) != 0) == ((y & (1u64 << 25u64)) != 0),
            ((x & (1u64 << 26u64)) != 0) == ((y & (1u64 << 26u64)) != 0),
            ((x & (1u64 << 27u64)) != 0) == ((y & (1u64 << 27u64)) != 0),
            ((x & (1u64 << 28u64)) != 0) == ((y & (1u64 << 28u64)) != 0),
            ((x & (1u64 << 29u64)) != 0) == ((y & (1u64 << 29u64)) != 0),
            ((x & (1u64 << 30u64)) != 0) == ((y & (1u64 << 30u64)) != 0),
            ((x & (1u64 << 31u64)) != 0) == ((y & (1u64 << 31u64)) != 0),
            ((x & (1u64 << 32u64)) != 0) == ((y & (1u64 << 32u64)) != 0),
            ((x & (1u64 << 33u64)) != 0) == ((y & (1u64 << 33u64)) != 0),
            ((x & (1u64 << 34u64)) != 0) == ((y & (1u64 << 34u64)) != 0),
            ((x & (1u64 << 35u64)) != 0) == ((y & (1u64 << 35u64)) != 0),
            ((x & (1u64 << 36u64)) != 0) == ((y & (1u64 << 36u64)) != 0),
            ((x & (1u64 << 37u64)) != 0) == ((y & (1u64 << 37u64)) != 0),
            ((x & (1u64 << 38u64)) != 0) == ((y & (1u64 << 38u64)) != 0),
            ((x & (1u64 << 39u64)) != 0) == ((y & (1u64 << 39u64)) != 0),
            ((x & (1u64 << 40u64)) != 0) == ((y & (1u64 << 40u64)) != 0),
            ((x & (1u64 << 41u64)) != 0) == ((y & (1u64 << 41u64)) != 0),
            ((x & (1u64 << 42u64)) != 0) == ((y & (1u64 << 42u64)) != 0),
            ((x & (1u64 << 43u64)) != 0) == ((y & (1u64 << 43u64)) != 0),
            ((x & (1u64 << 44u64)) != 0) == ((y & (1u64 << 44u64)) != 0),
            ((x & (1u64 << 45u64)) != 0) == ((y & (1u64 << 45u64)) != 0),
            ((x & (1u64 << 46u64)) != 0) == ((y & (1u64 << 46u64)) != 0),
            ((x & (1u64 << 47u64)) != 0) == ((y & (1u64 << 47u64)) != 0),
            ((x & (1u64 << 48u64)) != 0) == ((y & (1u64 << 48u64)) != 0),
            ((x & (1u64 << 49u64)) != 0) == ((y & (1u64 << 49u64)) != 0),
            ((x & (1u64 << 50u64)) != 0) == ((y & (1u64 << 50u64)) != 0),
            ((x & (1u64 << 51u64)) != 0) == ((y & (1u64 << 51u64)) != 0),
            ((x & (1u64 << 52u64)) != 0) == ((y & (1u64 << 52u64)) != 0),
            ((x & (1u64 << 53u64)) != 0) == ((y & (1u64 << 53u64)) != 0),
            ((x & (1u64 << 54u64)) != 0) == ((y & (1u64 << 54u64)) != 0),
            ((x & (1u64 << 55u64)) != 0) == ((y & (1u64 << 55u64)) != 0),
            ((x & (1u64 << 56u64)) != 0) == ((y & (1u64 << 56u64)) != 0),
            ((x & (1u64 << 57u64)) != 0) == ((y & (1u64 << 57u64)) != 0),
            ((x & (1u64 << 58u64)) != 0) == ((y & (1u64 << 58u64)) != 0),
            ((x & (1u64 << 59u64)) != 0) == ((y & (1u64 << 59u64)) != 0),
            ((x & (1u64 << 60u64)) != 0) == ((y & (1u64 << 60u64)) != 0),
            ((x & (1u64 << 61u64)) != 0) == ((y & (1u64 << 61u64)) != 0),
            ((x & (1u64 << 62u64)) != 0) == ((y & (1u64 << 62u64)) != 0),
            ((x & (1u64 << 63u64)) != 0) == ((y & (1u64 << 63u64)) != 0),
    ;
}

/// Two maps with the same allocated sectors are the same words.
pub proof fn lemma_words_from_bits(a: Seq<u64>, b: Seq<u64>)
    requires
        a.len() == MAP_WORDS,
        b.len() == MAP_WORDS,
        forall|s: int| 0 <= s < DATA_SECTORS ==> #[trigger] bit(a, s) == bit(b, s),
    ensures
        a == b,
{
    assert forall|w: int| 0 <= w < MAP_WORDS implies a[w] == b[w] by {
        assert forall|k: u64| k < 64 implies ((a[w] & (1u64 << k)) != 0) == ((b[w] & (1u64 << k)) != 0) by {
            let s = 64 * w + k;
            assert(s / 64 == w);
            assert(s % 64 == k);
            assert(bit(a, s) == bit(b, s));
        }
        lemma_word_bits(a[w], b[w]);
    }
    assert(a =~= b);
}

} // verus!

verus! {

/// Releasing the run an allocation just marked gives back the exact map the
/// allocation started from.
pub proof fn lemma_release_restores(before: Seq<u64>, allocated: Seq<u64>, after: Seq<u64>, run: Extent)
    requires
        before.len() == MAP_WORDS,
        free_run(before, run.start as int, run.sectors as int),
        marked(allocated, before, run.start as int, run.spec_end(), true),
        marked(after, allocated, run.start as int, run.spec_end(), false),
    ensures
        after == before,
{
    assert forall|s: int| 0 <= s < DATA_SECTORS implies #[trigger] bit(after, s) == bit(before, s) by {
        assert(bit(after, s) == if run.start <= s < run.spec_end() { false } else { bit(allocated, s) });
        assert(bit(allocated, s) == if run.start <= s < run.spec_end() { true } else { bit(before, s) });
    }
    lemma_words_from_bits(after, before);
}

} // verus!
