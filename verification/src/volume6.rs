//! Mounting, provisioning and payload I/O for an extent-addressed (v6) volume.
//!
//! One commit reserves payload, writes it, builds the inactive generation,
//! makes it durable, and only then lets one header sector publish it. A failure
//! after the first sector write fences the mount: mutations, payload reads and
//! receipt lookups answer `Uncertain` until the caller mounts again. Refusals
//! before the first write do not fence and reserve nothing.
use vstd::prelude::*;
use crate::extent::{
    Extent, FreeSpace, MAP_WORDS, DATA_SECTORS, EXTENTS_PER_FILE, FILE_SECTORS_MAX, OBJECTS_V6,
    MAX_FILE_V6, SECTOR_BYTES, bit, free_run, used_run, marked, lemma_words_from_bits,
};
use crate::format6::{Header6, Node6, node6_storable, empty_node6};
use crate::receipt6::Receipts6;
use crate::{Error};

verus! {

/// A mounted v6 volume: the verified header, the node table and the free-space
/// map, all owned in one place. The payload stays on the disk.
pub struct Volume6 {
    pub header: Header6,
    pub nodes: [Node6; OBJECTS_V6],
    pub map: Vec<u64>,
    pub receipts: Receipts6,
    /// Set while the mounted state may no longer describe the device.
    poisoned: bool,
}

/// Free sectors among the first `n` of the map.
pub open spec fn free_upto(words: Seq<u64>, n: nat) -> nat
    decreases n,
{
    if n == 0 {
        0
    } else {
        free_upto(words, (n - 1) as nat) + if bit(words, n - 1) {
            0nat
        } else {
            1nat
        }
    }
}

/// Sector `s` lies in one of the first `used` runs.
pub open spec fn covered(runs: Seq<Extent>, used: int, s: int) -> bool {
    exists|k: int| 0 <= k < used && #[trigger] runs[k].start <= s < runs[k].start + runs[k].sectors
}

/// Runs `i` and `j` share no sector.
pub open spec fn apart(a: Extent, b: Extent) -> bool {
    a.start + a.sectors <= b.start || b.start + b.sectors <= a.start
}

/// The runs one staged write occupies, in the order its bytes fill them.
#[derive(Clone, Copy)]
pub struct PayloadPlan {
    pub runs: [Extent; EXTENTS_PER_FILE],
    pub used: usize,
}

impl PayloadPlan {
    /// The runs are inside the region, pairwise apart, and unused slots are zero.
    pub open spec fn wf(&self) -> bool {
        &&& self.used <= EXTENTS_PER_FILE
        &&& forall|k: int| 0 <= k < self.used ==> (#[trigger] self.runs@[k]).start + self.runs@[k].sectors <= DATA_SECTORS && self.runs@[k].sectors > 0
        &&& forall|i: int, j: int| 0 <= i < j < self.used ==> apart(#[trigger] self.runs@[i], #[trigger] self.runs@[j])
    }

    /// Sectors the plan holds.
    pub open spec fn total(&self) -> int {
        crate::extent::total_sectors(self.runs@.take(self.used as int))
    }

    /// A plan that holds nothing.
    pub fn empty() -> (r: Self)
        ensures
            r.wf(),
            r.used == 0,
            r.total() == 0,
            forall|k: int| 0 <= k < EXTENTS_PER_FILE ==> #[trigger] r.runs@[k] == (Extent { start: 0, sectors: 0 }),
    {
        let r = PayloadPlan { runs: [Extent { start: 0, sectors: 0 }; EXTENTS_PER_FILE], used: 0 };
        assert(r.runs@.take(0) =~= Seq::<Extent>::empty());
        r
    }

    /// The runs in use, in the order their bytes fill them.
    pub fn runs(&self) -> (r: &[Extent])
        requires
            self.used <= EXTENTS_PER_FILE,
        ensures
            r@ == self.runs@.take(self.used as int),
    {
        vstd::slice::slice_subrange(self.runs.as_slice(), 0, self.used)
    }
}

/// Sectors `length` bytes occupy.
pub open spec fn sectors_for(length: int) -> int {
    (length + 511) / 512
}

impl Volume6 {
    pub closed spec fn fenced(&self) -> bool {
        self.poisoned
    }

    /// The mounted header.
    pub closed spec fn head(&self) -> Header6 {
        self.header
    }

    /// The node table.
    pub closed spec fn table(&self) -> Seq<Node6> {
        self.nodes@
    }

    /// The free-space map.
    pub closed spec fn words(&self) -> Seq<u64> {
        self.map@
    }

    /// The retained receipts.
    pub closed spec fn retained(&self) -> Receipts6 {
        self.receipts
    }

    /// The map has one bit per payload sector and every record can be stored.
    pub open spec fn wf(&self) -> bool {
        &&& self.words().len() == MAP_WORDS
        &&& self.table().len() == OBJECTS_V6
        &&& forall|i: int| 0 <= i < OBJECTS_V6 ==> node6_storable(#[trigger] self.table()[i])
    }

    /// Everything but the map and the fence is as in `other`.
    pub open spec fn same_records(&self, other: &Self) -> bool {
        &&& self.head() == other.head()
        &&& self.table() == other.table()
        &&& self.retained() == other.retained()
    }

    /// An unmounted volume: empty records, an all-free map, no receipts.
    pub fn empty() -> (r: Self)
        ensures
            r.wf(),
            !r.fenced(),
            r.head() == Header6::spec_initial(),
            forall|i: int| 0 <= i < OBJECTS_V6 ==> #[trigger] r.table()[i] == empty_node6(),
            r.words() == Seq::new(MAP_WORDS as nat, |i: int| 0u64),
    {
        let e = Node6::empty();
        let nodes = [e; OBJECTS_V6];
        let mut map: Vec<u64> = Vec::new();
        let mut i: usize = 0;
        while i < MAP_WORDS
            invariant
                0 <= i <= MAP_WORDS,
                map@ == Seq::new(i as nat, |k: int| 0u64),
            decreases MAP_WORDS - i,
        {
            map.push(0);
            i = i + 1;
            assert(map@ =~= Seq::new(i as nat, |k: int| 0u64));
        }
        let z = [Extent { start: 0, sectors: 0 }; EXTENTS_PER_FILE];
        proof {
            assert(forall|k: int| 0 <= k < 8 ==> #[trigger] z@[k] == (Extent { start: 0, sectors: 0 }));
            crate::codec::lemma_zero_runs(z);
            assert(e.extents@ =~= z@);
            assert(e.extents@.take(0) =~= Seq::<Extent>::empty());
            assert(node6_storable(e));
        }
        Self { header: Header6::initial(), nodes, map, receipts: Receipts6::empty(), poisoned: false }
    }

    /// Whether the mount is fenced.
    pub fn poisoned(&self) -> (r: bool)
        ensures
            r == self.fenced(),
    {
        self.poisoned
    }

    /// `Uncertain` while fenced.
    pub fn ready(&self) -> (r: Result<(), Error>)
        ensures
            r is Ok <==> !self.fenced(),
            r is Err ==> r == Err::<(), Error>(Error::Uncertain),
    {
        if self.poisoned {
            Err(Error::Uncertain)
        } else {
            Ok(())
        }
    }

    pub fn fence(&mut self)
        ensures
            final(self).fenced(),
            final(self).same_records(old(self)),
            final(self).words() == old(self).words(),
    {
        self.poisoned = true;
    }

    pub fn unfence(&mut self)
        ensures
            !final(self).fenced(),
            final(self).same_records(old(self)),
            final(self).words() == old(self).words(),
    {
        self.poisoned = false;
    }

    /// The error a public operation reports: a refusal before the first write
    /// is the caller's own condition, a failure after it an unknown outcome.
    pub fn outcome(&self, error: Error) -> (r: Error)
        ensures
            r == if self.fenced() {
                Error::Uncertain
            } else {
                error
            },
    {
        if self.poisoned {
            Error::Uncertain
        } else {
            error
        }
    }

    /// The free sectors the in-memory map holds: an accounting view of the
    /// mount, not a durability claim.
    pub fn free_sectors(&self) -> (r: u64)
        requires
            self.wf(),
        ensures
            r == free_upto(self.words(), DATA_SECTORS as nat),
    {
        let mut count: u64 = 0;
        let mut s: u64 = 0;
        while s < DATA_SECTORS
            invariant
                self.map@.len() == MAP_WORDS,
                0 <= s <= DATA_SECTORS,
                count == free_upto(self.map@, s as nat),
                count <= s,
            decreases DATA_SECTORS - s,
        {
            let word = self.map[(s / 64) as usize];
            if word & (1u64 << (s % 64)) == 0 {
                count = count + 1;
            }
            s = s + 1;
        }
        count
    }

    /// Allocate `want` sectors from the map, first fit.
    fn allocate(&mut self, want: u64) -> (r: Result<Extent, Error>)
        requires
            old(self).words().len() == MAP_WORDS,
        ensures
            final(self).words().len() == MAP_WORDS,
            final(self).same_records(old(self)),
            final(self).fenced() == old(self).fenced(),
            match r {
                Ok(run) => {
                    &&& run.sectors == want
                    &&& free_run(old(self).words(), run.start as int, want as int)
                    &&& forall|st: int| 0 <= st < run.start ==> !free_run(old(self).words(), st, want as int)
                    &&& marked(final(self).words(), old(self).words(), run.start as int, run.spec_end(), true)
                },
                Err(e) => {
                    &&& final(self).words() == old(self).words()
                    &&& e == if want == 0 || want > FILE_SECTORS_MAX {
                        Error::Size
                    } else {
                        Error::Full
                    }
                    &&& (0 < want <= FILE_SECTORS_MAX ==> forall|st: int| !free_run(old(self).words(), st, want as int))
                },
            },
    {
        let mut words: Vec<u64> = Vec::new();
        core::mem::swap(&mut words, &mut self.map);
        let mut space = match FreeSpace::new(words) {
            Ok(space) => space,
            Err(e) => {
                return Err(e);
            },
        };
        let ghost w = space.words();
        let r = space.allocate(want);
        proof {
            if r is Err && 0 < want <= FILE_SECTORS_MAX {
                assert forall|st: int| !free_run(w, st, want as int) by {
                    if free_run(w, st, want as int) {
                        crate::extent::lemma_free_run_counted(w, st, want as int, DATA_SECTORS as int);
                    }
                }
            }
        }
        self.map = space.into_words();
        r
    }

    /// Give a run back to the map.
    fn release(&mut self, run: Extent) -> (r: Result<(), Error>)
        requires
            old(self).words().len() == MAP_WORDS,
        ensures
            final(self).words().len() == MAP_WORDS,
            final(self).same_records(old(self)),
            final(self).fenced() == old(self).fenced(),
            r is Ok <==> (run.sectors > 0 && used_run(old(self).words(), run.start as int, run.sectors as int)),
            r is Ok ==> marked(final(self).words(), old(self).words(), run.start as int, run.spec_end(), false),
            r is Err ==> r == Err::<(), Error>(Error::Invalid) && final(self).words() == old(self).words(),
    {
        let mut words: Vec<u64> = Vec::new();
        core::mem::swap(&mut words, &mut self.map);
        let mut space = match FreeSpace::new(words) {
            Ok(space) => space,
            Err(_) => {
                return Err(Error::Invalid);
            },
        };
        let r = space.release(run);
        self.map = space.into_words();
        r
    }
}

} // verus!

verus! {

/// `[st, st + n)` is free in `w0` and clear of the runs chosen so far.
pub open spec fn fits6(w0: Seq<u64>, runs: Seq<Extent>, st: int, n: int) -> bool {
    &&& 0 <= st
    &&& st + n <= DATA_SECTORS
    &&& forall|s: int| st <= s < st + n ==> !bit(w0, s) && !covered(runs, runs.len() as int, s)
}

/// `st` is the first place `n` sectors fit.
pub open spec fn first_fit6(w0: Seq<u64>, runs: Seq<Extent>, n: int, st: int) -> bool {
    &&& fits6(w0, runs, st, n)
    &&& forall|t: int| 0 <= t < st ==> !#[trigger] fits6(w0, runs, t, n)
}

/// The size of the next run a reservation asks for.
pub open spec fn want6(remaining: int) -> int {
    if remaining < 64 { remaining } else { 64 }
}

/// Where `n` sectors first fit, when they fit somewhere.
pub open spec fn first_fit_at6(w0: Seq<u64>, runs: Seq<Extent>, n: int) -> int {
    choose|st: int| #[trigger] first_fit6(w0, runs, n, st)
}

/// The runs a reservation of `remaining` more sectors chooses after `runs`
/// on map `w0`: runs of at most 64 sectors, each at the first place it fits;
/// a run that fits nowhere, or a ninth run, is `Full`.
pub open spec fn reserve6(w0: Seq<u64>, runs: Seq<Extent>, remaining: int) -> Result<Seq<Extent>, Error>
    decreases remaining,
{
    if remaining <= 0 {
        Ok(runs)
    } else if runs.len() >= EXTENTS_PER_FILE {
        Err(Error::Full)
    } else if !(exists|st: int| #[trigger] fits6(w0, runs, st, want6(remaining))) {
        Err(Error::Full)
    } else {
        reserve6(w0, runs.push(Extent { start: first_fit_at6(w0, runs, want6(remaining)) as u64, sectors: want6(remaining) as u64 }),
            remaining - want6(remaining))
    }
}

impl Volume6 {
    /// Give back what a refused plan reserved. A release that does not match
    /// the map means the accounting itself is broken, so the mount is fenced;
    /// a plan that `reserve` built always matches.
    fn rollback(&mut self, plan: &PayloadPlan) -> (r: Result<(), Error>)
        requires
            old(self).words().len() == MAP_WORDS,
            plan.wf(),
            forall|k: int| 0 <= k < plan.used ==> used_run(old(self).words(), (#[trigger] plan.runs@[k]).start as int, plan.runs@[k].sectors as int),
        ensures
            r is Ok,
            final(self).words().len() == MAP_WORDS,
            final(self).same_records(old(self)),
            final(self).fenced() == old(self).fenced(),
            forall|s: int| 0 <= s < DATA_SECTORS ==> #[trigger] bit(final(self).words(), s) == (bit(old(self).words(), s) && !covered(plan.runs@, plan.used as int, s)),
    {
        let ghost w0 = self.words();
        let mut j: usize = 0;
        while j < plan.used
            invariant
                0 <= j <= plan.used,
                plan.wf(),
                self.words().len() == MAP_WORDS,
                self.same_records(old(self)),
                self.fenced() == old(self).fenced(),
                w0 == old(self).words(),
                forall|s: int| 0 <= s < DATA_SECTORS ==> #[trigger] bit(self.words(), s) == (bit(w0, s) && !covered(plan.runs@, j as int, s)),
                forall|k: int| j <= k < plan.used ==> used_run(self.words(), (#[trigger] plan.runs@[k]).start as int, plan.runs@[k].sectors as int),
            decreases plan.used - j,
        {
            let run = plan.runs[j];
            let ghost before = self.words();
            if self.release(run).is_err() {
                self.fence();
                return Err(Error::Uncertain);
            }
            proof {
                assert forall|s: int| 0 <= s < DATA_SECTORS implies #[trigger] bit(self.words(), s) == (bit(w0, s) && !covered(plan.runs@, j + 1, s)) by {
                    if run.start <= s < run.start + run.sectors {
                        assert(covered(plan.runs@, j + 1, s)) by {
                            assert(plan.runs@[j as int].start <= s < plan.runs@[j as int].start + plan.runs@[j as int].sectors);
                        }
                    } else {
                        if covered(plan.runs@, j + 1, s) {
                            let k = choose|k: int| 0 <= k < j + 1 && #[trigger] plan.runs@[k].start <= s < plan.runs@[k].start + plan.runs@[k].sectors;
                            assert(k != j);
                            assert(covered(plan.runs@, j as int, s));
                        }
                        if covered(plan.runs@, j as int, s) {
                            let k = choose|k: int| 0 <= k < j && #[trigger] plan.runs@[k].start <= s < plan.runs@[k].start + plan.runs@[k].sectors;
                            assert(covered(plan.runs@, j + 1, s));
                        }
                    }
                }
                assert forall|k: int| j + 1 <= k < plan.used implies used_run(self.words(), (#[trigger] plan.runs@[k]).start as int, plan.runs@[k].sectors as int) by {
                    assert(apart(plan.runs@[j as int], plan.runs@[k]));
                    assert(used_run(before, plan.runs@[k].start as int, plan.runs@[k].sectors as int));
                    assert forall|s: int| plan.runs@[k].start <= s < plan.runs@[k].start + plan.runs@[k].sectors implies bit(self.words(), s) by {
                        assert(bit(before, s));
                    }
                }
            }
            j = j + 1;
        }
        Ok(())
    }

    /// Allocate the runs `length` bytes need, at most 64 sectors each, first
    /// fit. Allocation is accounting, not I/O: a refusal (`Size` or `Full`)
    /// gives back everything it reserved, so a refused plan leaves the map
    /// exactly as it was.
    pub fn reserve(&mut self, length: usize) -> (r: Result<PayloadPlan, Error>)
        requires
            old(self).words().len() == MAP_WORDS,
        ensures
            final(self).words().len() == MAP_WORDS,
            final(self).same_records(old(self)),
            final(self).fenced() == old(self).fenced(),
            r == Err::<PayloadPlan, Error>(Error::Size) <==> sectors_for(length as int) > FILE_SECTORS_MAX,
            r is Err ==> final(self).words() == old(self).words() && (r == Err::<PayloadPlan, Error>(Error::Size) || r == Err::<PayloadPlan, Error>(Error::Full)),
            sectors_for(length as int) <= FILE_SECTORS_MAX ==> match reserve6(old(self).words(), Seq::empty(), sectors_for(length as int)) {
                Ok(runs) => r matches Ok(plan) && plan.runs@.take(plan.used as int) == runs,
                Err(e) => r == Err::<PayloadPlan, Error>(e),
            },
            r matches Ok(plan) ==> {
                &&& plan.wf()
                &&& plan.total() == sectors_for(length as int)
                &&& forall|s: int| 0 <= s < DATA_SECTORS ==> #[trigger] bit(final(self).words(), s) == (bit(old(self).words(), s) || covered(plan.runs@, plan.used as int, s))
                &&& forall|s: int| 0 <= s < DATA_SECTORS && covered(plan.runs@, plan.used as int, s) ==> !bit(old(self).words(), s)
            },
    {
        let whole = length as u64 / 512;
        let sectors = if length as u64 % 512 != 0 { whole + 1 } else { whole };
        assert(sectors == sectors_for(length as int));
        if sectors > FILE_SECTORS_MAX {
            return Err(Error::Size);
        }
        let ghost w0 = self.words();
        let mut plan = PayloadPlan { runs: [Extent { start: 0, sectors: 0 }; EXTENTS_PER_FILE], used: 0 };
        let mut remaining = sectors;
        assert(plan.runs@.take(0) =~= Seq::<Extent>::empty());
        while remaining > 0
            invariant
                self.words().len() == MAP_WORDS,
                self.same_records(old(self)),
                self.fenced() == old(self).fenced(),
                w0 == old(self).words(),
                w0.len() == MAP_WORDS,
                sectors == sectors_for(length as int),
                sectors <= FILE_SECTORS_MAX,
                plan.wf(),
                remaining + plan.total() == sectors,
                remaining > 0 ==> sectors - remaining == 64 * plan.used,
                forall|s: int| 0 <= s < DATA_SECTORS ==> #[trigger] bit(self.words(), s) == (bit(w0, s) || covered(plan.runs@, plan.used as int, s)),
                forall|s: int| 0 <= s < DATA_SECTORS && covered(plan.runs@, plan.used as int, s) ==> !bit(w0, s),
                reserve6(w0, Seq::empty(), sectors as int) == reserve6(w0, plan.runs@.take(plan.used as int), remaining as int),
            decreases remaining,
        {
            let want = if remaining < 64 { remaining } else { 64 };
            let ghost runs = plan.runs@.take(plan.used as int);
            proof {
                // Free in the working map is free in the original map and
                // clear of every run chosen so far.
                assert forall|x: int| 0 <= x < DATA_SECTORS implies #[trigger] covered(runs, runs.len() as int, x) == covered(plan.runs@, plan.used as int, x) by {
                    if covered(runs, runs.len() as int, x) {
                        let k = choose|k: int| 0 <= k < runs.len() && #[trigger] runs[k].start <= x < runs[k].start + runs[k].sectors;
                        assert(runs[k] == plan.runs@[k]);
                    }
                    if covered(plan.runs@, plan.used as int, x) {
                        let k = choose|k: int| 0 <= k < plan.used && #[trigger] plan.runs@[k].start <= x < plan.runs@[k].start + plan.runs@[k].sectors;
                        assert(runs[k] == plan.runs@[k]);
                    }
                }
                assert forall|st: int| #[trigger] free_run(self.words(), st, want as int) <==> fits6(w0, runs, st, want as int) by {
                    if free_run(self.words(), st, want as int) {
                        assert forall|x: int| st <= x < st + want implies !bit(w0, x) && !covered(runs, runs.len() as int, x) by {
                            assert(!bit(self.words(), x));
                        }
                    }
                    if fits6(w0, runs, st, want as int) {
                        assert forall|x: int| st <= x < st + want implies !bit(self.words(), x) by {
                            assert(!bit(w0, x) && !covered(runs, runs.len() as int, x));
                        }
                    }
                }
            }
            let ghost before = self.words();
            proof {
                assert forall|k: int| 0 <= k < plan.used implies used_run(self.words(), (#[trigger] plan.runs@[k]).start as int, plan.runs@[k].sectors as int) by {
                    assert forall|x: int| plan.runs@[k].start <= x < plan.runs@[k].start + plan.runs@[k].sectors implies bit(self.words(), x) by {
                        assert(covered(plan.runs@, plan.used as int, x));
                    }
                }
            }
            let ghost wk = self.words();
            let run = match self.allocate(want) {
                Ok(run) => run,
                Err(e) => {
                    proof {
                        assert forall|st: int| !#[trigger] fits6(w0, runs, st, want as int) by {
                            assert(!free_run(wk, st, want as int));
                        }
                    }
                    self.rollback(&plan)?;
                    proof {
                        assert forall|s: int| 0 <= s < DATA_SECTORS implies #[trigger] bit(self.words(), s) == bit(w0, s) by {}
                        lemma_words_from_bits(self.words(), w0);
                    }
                    return Err(e);
                },
            };
            assert(plan.used < EXTENTS_PER_FILE);
            proof {
                assert(fits6(w0, runs, run.start as int, want as int));
                assert(first_fit6(w0, runs, want as int, run.start as int)) by {
                    assert forall|t: int| 0 <= t < run.start implies !#[trigger] fits6(w0, runs, t, want as int) by {
                        assert(!free_run(wk, t, want as int));
                    }
                }
                let c = first_fit_at6(w0, runs, want6(remaining as int));
                assert(first_fit6(w0, runs, want as int, c));
                if c < run.start {
                    assert(!fits6(w0, runs, c, want as int));
                }
                if run.start < c {
                    assert(!fits6(w0, runs, run.start as int, want as int));
                }
                assert(c == run.start);
                assert(runs.len() == plan.used);
                assert(exists|st: int| #[trigger] fits6(w0, runs, st, want6(remaining as int)));
                assert(reserve6(w0, runs, remaining as int) == reserve6(w0, runs.push(Extent { start: run.start, sectors: want }), remaining - want));
            }
            let ghost p0 = plan;
            plan.runs[plan.used] = run;
            plan.used = plan.used + 1;
            remaining = remaining - run.sectors;
            proof {
                assert(plan.runs@.take(plan.used as int) =~= runs.push(run));
                crate::extent::lemma_total_sectors_prefix(plan.runs@, p0.used as int);
                assert(plan.runs@.take(p0.used as int) =~= p0.runs@.take(p0.used as int));
                assert forall|s: int| 0 <= s < DATA_SECTORS implies #[trigger] covered(plan.runs@, plan.used as int, s) == (covered(p0.runs@, p0.used as int, s) || (run.start <= s < run.start + run.sectors)) by {
                    if covered(plan.runs@, plan.used as int, s) {
                        let k = choose|k: int| 0 <= k < plan.used && #[trigger] plan.runs@[k].start <= s < plan.runs@[k].start + plan.runs@[k].sectors;
                        if k < p0.used {
                            assert(p0.runs@[k] == plan.runs@[k]);
                            assert(covered(p0.runs@, p0.used as int, s));
                        }
                    }
                    if covered(p0.runs@, p0.used as int, s) {
                        let k = choose|k: int| 0 <= k < p0.used && #[trigger] p0.runs@[k].start <= s < p0.runs@[k].start + p0.runs@[k].sectors;
                        assert(plan.runs@[k] == p0.runs@[k]);
                        assert(covered(plan.runs@, plan.used as int, s));
                    }
                    if run.start <= s < run.start + run.sectors {
                        assert(plan.runs@[p0.used as int] == run);
                        assert(covered(plan.runs@, plan.used as int, s));
                    }
                }
                assert forall|s: int| 0 <= s < DATA_SECTORS && covered(plan.runs@, plan.used as int, s) implies !bit(w0, s) by {
                    if run.start <= s < run.start + run.sectors {
                        assert(!bit(before, s));
                    }
                }
                assert forall|i: int, j: int| 0 <= i < j < plan.used implies apart(#[trigger] plan.runs@[i], #[trigger] plan.runs@[j]) by {
                    if j == p0.used {
                        let a = plan.runs@[i];
                        if !apart(a, run) {
                            let s = if a.start < run.start { run.start as int } else { a.start as int };
                            assert(covered(p0.runs@, p0.used as int, s)) by {
                                assert(p0.runs@[i] == a);
                            }
                            assert(bit(before, s));
                        }
                    } else {
                        assert(plan.runs@[i] == p0.runs@[i]);
                        assert(plan.runs@[j] == p0.runs@[j]);
                    }
                }
            }
        }
        Ok(plan)
    }
}

} // verus!

verus! {

use crate::format::lemma_agree;
use crate::format6::encodes_node6;
use crate::checksum::{crc_fold, spec_crc, crc_update, lemma_crc_fold_append};
use crate::codec::holds_run;
use vstd::bytes::{spec_u64_to_le_bytes, u64_to_le_bytes};

/// A v6 record has one image.
pub proof fn lemma_node6_image_unique(b1: Seq<u8>, b2: Seq<u8>, n: Node6)
    requires
        encodes_node6(b1, n),
        encodes_node6(b2, n),
    ensures
        b1 == b2,
{
    lemma_agree(b1, b2, 0, 4);
    lemma_agree(b1, b2, 4, 8);
    lemma_agree(b1, b2, 8, 16);
    lemma_agree(b1, b2, 16, 20);
    assert forall|i: int| 24 <= i < 88 implies b1[i] == b2[i] by {
        let k = (i - 24) / 8;
        assert(holds_run(b1, 24, n.extents@, k));
        assert(holds_run(b2, 24, n.extents@, k));
        lemma_agree(b1, b2, 24 + 8 * k, 28 + 8 * k);
        lemma_agree(b1, b2, 28 + 8 * k, 32 + 8 * k);
    }
    lemma_agree(b1, b2, 88, 120);
    assert(b1.subrange(0, 124) =~= b2.subrange(0, 124));
    lemma_agree(b1, b2, 124, 128);
    assert(b1 =~= b2);
}

/// The image of a v6 record.
pub open spec fn node6_image(n: Node6) -> Seq<u8> {
    choose|b: Seq<u8>| encodes_node6(b, n)
}

pub proof fn lemma_node6_image(b: Seq<u8>, n: Node6)
    requires
        encodes_node6(b, n),
    ensures
        node6_image(n) == b,
{
    lemma_node6_image_unique(node6_image(n), b, n);
}

/// The concatenated images of a node table.
pub open spec fn table6_image(nodes: Seq<Node6>) -> Seq<u8>
    decreases nodes.len(),
{
    if nodes.len() == 0 {
        Seq::empty()
    } else {
        table6_image(nodes.drop_last()) + node6_image(nodes.last())
    }
}

/// The concatenated little-endian words of a map.
pub open spec fn map_image(words: Seq<u64>) -> Seq<u8>
    decreases words.len(),
{
    if words.len() == 0 {
        Seq::empty()
    } else {
        map_image(words.drop_last()) + spec_u64_to_le_bytes(words.last())
    }
}

/// The checksum a header carries for a node table.
pub fn nodes_checksum(nodes: &[Node6; OBJECTS_V6]) -> (r: u32)
    ensures
        r == spec_crc(table6_image(nodes@)),
{
    let mut state: u32 = 0xffff_ffffu32;
    let mut i: usize = 0;
    while i < OBJECTS_V6
        invariant
            0 <= i <= OBJECTS_V6,
            state == crc_fold(0xffff_ffffu32, table6_image(nodes@.take(i as int))),
        decreases OBJECTS_V6 - i,
    {
        let image = nodes[i].encode();
        proof {
            lemma_node6_image(image@, nodes@[i as int]);
            lemma_crc_fold_append(0xffff_ffffu32, table6_image(nodes@.take(i as int)), image@);
            assert(nodes@.take(i + 1).drop_last() =~= nodes@.take(i as int));
        }
        crc_update(&mut state, image.as_slice());
        i = i + 1;
    }
    assert(nodes@.take(OBJECTS_V6 as int) =~= nodes@);
    !state
}

/// The checksum a header carries for a map.
pub fn map_checksum(words: &Vec<u64>) -> (r: u32)
    ensures
        r == spec_crc(map_image(words@)),
{
    let mut state: u32 = 0xffff_ffffu32;
    let mut i: usize = 0;
    while i < words.len()
        invariant
            0 <= i <= words@.len(),
            state == crc_fold(0xffff_ffffu32, map_image(words@.take(i as int))),
        decreases words@.len() - i,
    {
        let image = u64_to_le_bytes(words[i]);
        proof {
            lemma_crc_fold_append(0xffff_ffffu32, map_image(words@.take(i as int)), image@);
            assert(words@.take(i + 1).drop_last() =~= words@.take(i as int));
        }
        crc_update(&mut state, image.as_slice());
        i = i + 1;
    }
    assert(words@.take(words@.len() as int) =~= words@);
    !state
}

} // verus!

verus! {

use crate::format6::{HEADER_SECTOR, GENERATIONS, FIRST_GENERATION_SECTOR, GENERATION_SECTORS, NODE_BYTES, nodes_sector, map_sector, receipts_sector, encodes_header6};
use crate::storage::Disk;
use crate::codec::{put, put_u64, take_array};

/// The map image holds each word's little-endian bytes in turn.
pub proof fn lemma_map_image(words: Seq<u64>)
    ensures
        map_image(words).len() == 8 * words.len(),
        forall|i: int| 0 <= i < words.len() ==> #[trigger] map_image(words).subrange(8 * i, 8 * i + 8) == spec_u64_to_le_bytes(words[i]),
    decreases words.len(),
{
    if words.len() > 0 {
        let head = words.drop_last();
        lemma_map_image(head);
        crate::codec::lemma_le64(words.last());
        assert forall|i: int| 0 <= i < words.len() implies #[trigger] map_image(words).subrange(8 * i, 8 * i + 8) == spec_u64_to_le_bytes(words[i]) by {
            if i < head.len() {
                assert(map_image(words).subrange(8 * i, 8 * i + 8) =~= map_image(head).subrange(8 * i, 8 * i + 8));
                assert(head[i] == words[i]);
            } else {
                assert(map_image(words).subrange(8 * i, 8 * i + 8) =~= spec_u64_to_le_bytes(words.last()));
            }
        }
    }
}

/// First sector of generation `g`.
pub open spec fn generation_base(g: u8) -> int {
    FIRST_GENERATION_SECTOR + (g % GENERATIONS) as int * GENERATION_SECTORS
}

/// Record `i` stands at its place in generation `g`'s node table.
pub open spec fn node_slot_holds(c: Map<u64, Seq<u8>>, g: u8, i: int, n: Node6) -> bool {
    let s = (generation_base(g) + i / 4) as u64;
    &&& c.dom().contains(s)
    &&& c[s].len() == 512
    &&& c[s].subrange(128 * (i % 4), 128 * (i % 4) + 128) == node6_image(n)
}

/// The header a commit publishes from header `h` and these structures.
pub open spec fn publish_header(h: Header6, table: Seq<Node6>, words: Seq<u64>, receipts: Receipts6) -> Header6 {
    Header6 {
        sequence: if h.sequence == u64::MAX {
            u64::MAX
        } else {
            (h.sequence + 1) as u64
        },
        objects: h.objects,
        nodes_checksum: spec_crc(table6_image(table)),
        map_checksum: spec_crc(map_image(words)),
        receipts_checksum: spec_crc(crate::receipt6::table_image(receipts.spec_lineage(), receipts.spec_epoch(), receipts.spec_slots())),
        active: ((h.active + 1) % (GENERATIONS as int)) as u8,
    }
}

/// The header a commit of `v` publishes.
pub open spec fn published6(v: Volume6) -> Header6 {
    publish_header(v.head(), v.table(), v.words(), v.retained())
}

/// The receipt block image of a receipt table.
pub open spec fn block_image(receipts: Receipts6) -> Seq<u8> {
    crate::receipt6::table_image(receipts.spec_lineage(), receipts.spec_epoch(), receipts.spec_slots()) + Seq::new(232, |i: int| 0u8)
}

/// Sector `s` belongs to generation `g` or is the header.
pub open spec fn written_by(g: u8, s: u64) -> bool {
    s == HEADER_SECTOR || (generation_base(g) <= s < generation_base(g) + GENERATION_SECTORS)
}

/// Generation `g` of `c` holds these structures and the header names them.
pub open spec fn generation6_holds(c: Map<u64, Seq<u8>>, table: Seq<Node6>, words: Seq<u64>, receipts: Receipts6, header: Header6, g: u8) -> bool {
    &&& forall|i: int| 0 <= i < OBJECTS_V6 ==> #[trigger] node_slot_holds(c, g, i, table[i])
    &&& forall|k: int| 0 <= k < 32 ==> #[trigger] c[(generation_base(g) + 64 + k) as u64] == map_image(words).subrange(512 * k, 512 * k + 512)
    &&& forall|k: int| 0 <= k < 2 ==> #[trigger] c[(generation_base(g) + 96 + k) as u64] == block_image(receipts).subrange(512 * k, 512 * k + 512)
    &&& encodes_header6(c[HEADER_SECTOR], header)
}

/// `c1` is `c0` with `v`'s structures written into generation `g` and a
/// header naming them.
pub open spec fn generation6_written(c0: Map<u64, Seq<u8>>, c1: Map<u64, Seq<u8>>, v: Volume6, g: u8) -> bool {
    &&& c1.dom() == c0.dom()
    &&& forall|s: u64| !written_by(g, s) ==> #[trigger] c1[s] == c0[s]
    &&& generation6_holds(c1, v.table(), v.words(), v.retained(), published6(v), g)
}

impl Volume6 {
    /// Write the inactive generation, flush it, and then let one header
    /// sector name it; the header is adopted in memory only after the final
    /// flush. Every device failure is `Uncertain`.
    fn write_generation<D: Disk>(&mut self, disk: &mut D) -> (r: Result<(), Error>)
        requires
            old(self).wf(),
            old(self).head().active < GENERATIONS,
        ensures
            final(self).table() == old(self).table(),
            final(self).words() == old(self).words(),
            final(self).retained() == old(self).retained(),
            final(self).fenced() == old(self).fenced(),
            r is Err ==> r == Err::<(), Error>(Error::Uncertain) && final(self).head() == old(self).head(),
            r is Ok ==> final(self).head() == published6(*old(self)) && generation6_written(old(disk).contents(), final(disk).contents(), *old(self), published6(*old(self)).active),
    {
        let ghost c0 = disk.contents();
        let next = (self.header.active + 1) % GENERATIONS;
        let nodes_base = nodes_sector(next);
        let map_base = map_sector(next);
        let mut index: usize = 0;
        while index < OBJECTS_V6
            invariant
                0 <= index <= OBJECTS_V6,
                *self == *old(self),
                c0 == old(disk).contents(),
                next < GENERATIONS,
                nodes_base == generation_base(next),
                map_base == generation_base(next) + 64,
                disk.contents().dom() == c0.dom(),
                forall|s: u64| !(nodes_base <= s < nodes_base + 64) ==> #[trigger] disk.contents()[s] == c0[s],
                forall|i: int| 0 <= i < index ==> #[trigger] node_slot_holds(disk.contents(), next, i, self.table()[i]),
            decreases OBJECTS_V6 - index,
        {
            let sector = nodes_base + (index * NODE_BYTES / 512) as u64;
            let offset = index * NODE_BYTES % 512;
            let mut block = [0u8; 512];
            if disk.read(sector, &mut block).is_err() {
                return Err(Error::Uncertain);
            }
            let ghost c = disk.contents();
            let image = self.nodes[index].encode();
            proof {
                lemma_node6_image(image@, self.table()[index as int]);
            }
            let ghost before = block@;
            put(&mut block, offset, image.as_slice());
            if disk.write(sector, &block).is_err() {
                return Err(Error::Uncertain);
            }
            proof {
                assert(block@.subrange(offset as int, offset + 128) =~= image@);
                assert forall|i: int| 0 <= i < index + 1 implies #[trigger] node_slot_holds(disk.contents(), next, i, self.table()[i]) by {
                    if i < index {
                        let si = (generation_base(next) + i / 4) as u64;
                        assert(node_slot_holds(c, next, i, self.table()[i]));
                        if si == sector {
                            assert(i % 4 != index % 4);
                            assert(block@.subrange(128 * (i % 4), 128 * (i % 4) + 128) =~= before.subrange(128 * (i % 4), 128 * (i % 4) + 128));
                        }
                    }
                }
            }
            index = index + 1;
        }
        let ghost words = self.words();
        proof {
            lemma_map_image(words);
        }
        let mut k: usize = 0;
        while k < 32
            invariant
                0 <= k <= 32,
                *self == *old(self),
                self.words() == words,
                words.len() == MAP_WORDS,
                map_image(words).len() == 8 * MAP_WORDS,
                forall|i: int| 0 <= i < words.len() ==> #[trigger] map_image(words).subrange(8 * i, 8 * i + 8) == spec_u64_to_le_bytes(words[i]),
                c0 == old(disk).contents(),
                next < GENERATIONS,
                nodes_base == generation_base(next),
                map_base == generation_base(next) + 64,
                disk.contents().dom() == c0.dom(),
                forall|s: u64| !(nodes_base <= s < map_base + k) ==> #[trigger] disk.contents()[s] == c0[s],
                forall|i: int| 0 <= i < OBJECTS_V6 ==> #[trigger] node_slot_holds(disk.contents(), next, i, self.table()[i]),
                forall|j: int| 0 <= j < k ==> #[trigger] disk.contents()[(map_base + j) as u64] == map_image(words).subrange(512 * j, 512 * j + 512),
            decreases 32 - k,
        {
            let mut sector = [0u8; 512];
            let mut w: usize = 0;
            while w < 64
                invariant
                    0 <= w <= 64,
                    0 <= k < 32,
                    self.map@ == words,
                    words.len() == MAP_WORDS,
                    sector@.len() == 512,
                    forall|j: int| 0 <= j < w ==> #[trigger] sector@.subrange(8 * j, 8 * j + 8) == spec_u64_to_le_bytes(words[64 * k + j]),
                decreases 64 - w,
            {
                let ghost before = sector@;
                put_u64(&mut sector, w * 8, self.map[k * 64 + w]);
                proof {
                    assert forall|j: int| 0 <= j < w + 1 implies #[trigger] sector@.subrange(8 * j, 8 * j + 8) == spec_u64_to_le_bytes(words[64 * k + j]) by {
                        if j < w {
                            assert(sector@.subrange(8 * j, 8 * j + 8) =~= before.subrange(8 * j, 8 * j + 8));
                        } else {
                            assert(sector@.subrange(8 * j, 8 * j + 8) =~= spec_u64_to_le_bytes(words[64 * k + j]));
                        }
                    }
                }
                w = w + 1;
            }
            proof {
                assert forall|t: int| 0 <= t < 512 implies sector@[t] == map_image(words).subrange(512 * k, 512 * k + 512)[t] by {
                    let j = t / 8;
                    assert(sector@.subrange(8 * j, 8 * j + 8)[t % 8] == sector@[t]);
                    assert(map_image(words).subrange(8 * (64 * k + j), 8 * (64 * k + j) + 8)[t % 8] == map_image(words)[512 * k + t]);
                }
                assert(sector@ =~= map_image(words).subrange(512 * k, 512 * k + 512));
            }
            let ghost c = disk.contents();
            if disk.write(map_base + k as u64, &sector).is_err() {
                return Err(Error::Uncertain);
            }
            proof {
                assert forall|i: int| 0 <= i < OBJECTS_V6 implies #[trigger] node_slot_holds(disk.contents(), next, i, self.table()[i]) by {
                    assert(node_slot_holds(c, next, i, self.table()[i]));
                }
            }
            k = k + 1;
        }
        let block = self.receipts.encode_block();
        let receipts_base = receipts_sector(next);
        let mut j: u64 = 0;
        while j < 2
            invariant
                0 <= j <= 2,
                *self == *old(self),
                block@ == block_image(self.retained()),
                receipts_base == generation_base(next) + 96,
                c0 == old(disk).contents(),
                next < GENERATIONS,
                nodes_base == generation_base(next),
                map_base == generation_base(next) + 64,
                disk.contents().dom() == c0.dom(),
                forall|s: u64| !(nodes_base <= s < receipts_base + j) ==> #[trigger] disk.contents()[s] == c0[s],
                forall|i: int| 0 <= i < OBJECTS_V6 ==> #[trigger] node_slot_holds(disk.contents(), next, i, self.table()[i]),
                forall|q: int| 0 <= q < 32 ==> #[trigger] disk.contents()[(map_base + q) as u64] == map_image(self.words()).subrange(512 * q, 512 * q + 512),
                forall|q: int| 0 <= q < j ==> #[trigger] disk.contents()[(receipts_base + q) as u64] == block_image(self.retained()).subrange(512 * q, 512 * q + 512),
            decreases 2 - j,
        {
            let sector: [u8; 512] = take_array(&block, j as usize * 512);
            let ghost c = disk.contents();
            if disk.write(receipts_base + j, &sector).is_err() {
                return Err(Error::Uncertain);
            }
            proof {
                assert forall|i: int| 0 <= i < OBJECTS_V6 implies #[trigger] node_slot_holds(disk.contents(), next, i, self.table()[i]) by {
                    assert(node_slot_holds(c, next, i, self.table()[i]));
                }
            }
            j = j + 1;
        }
        if disk.flush().is_err() {
            return Err(Error::Uncertain);
        }
        let mut published = self.header;
        published.nodes_checksum = nodes_checksum(&self.nodes);
        published.map_checksum = map_checksum(&self.map);
        published.receipts_checksum = self.receipts.checksum();
        published.active = next;
        published.sequence = self.header.sequence.saturating_add(1);
        let ghost c = disk.contents();
        if disk.write(HEADER_SECTOR, &published.encode()).is_err() {
            return Err(Error::Uncertain);
        }
        if disk.flush().is_err() {
            return Err(Error::Uncertain);
        }
        proof {
            let c1 = disk.contents();
            assert forall|i: int| 0 <= i < OBJECTS_V6 implies #[trigger] node_slot_holds(c1, next, i, self.table()[i]) by {
                assert(node_slot_holds(c, next, i, self.table()[i]));
            }
            assert forall|q: int| 0 <= q < 32 implies #[trigger] c1[(generation_base(next) + 64 + q) as u64] == map_image(self.words()).subrange(512 * q, 512 * q + 512) by {
                assert(c[(map_base + q) as u64] == map_image(self.words()).subrange(512 * q, 512 * q + 512));
            }
            assert forall|q: int| 0 <= q < 2 implies #[trigger] c1[(generation_base(next) + 96 + q) as u64] == block_image(self.retained()).subrange(512 * q, 512 * q + 512) by {
                assert(c[(receipts_base + q) as u64] == block_image(self.retained()).subrange(512 * q, 512 * q + 512));
            }
            assert forall|s: u64| !written_by(next, s) implies #[trigger] c1[s] == c0[s] by {
                assert(c[s] == c0[s]);
            }
            assert(published == published6(*old(self)));
            assert(encodes_header6(c1[HEADER_SECTOR], published));
            assert(next == published6(*old(self)).active);
            assert(c1.dom() == c0.dom());
            assert(generation6_written(c0, c1, *self, next));
        }
        self.header = published;
        Ok(())
    }
}

} // verus!

verus! {

use crate::format::{sectors_from, sectors_present};
use crate::format6::PAYLOAD_SECTOR;
use crate::extent::total_sectors;

/// The bytes sectors `start..start + n` hold, when each holds a full sector.
pub proof fn lemma_sectors_from_at(c: Map<u64, Seq<u8>>, start: u64, n: nat, q: int)
    requires
        forall|k: int| 0 <= k < n ==> #[trigger] c[(start + k) as u64].len() == 512,
        0 <= q < 512 * n,
    ensures
        sectors_from(c, start, n).len() == 512 * n,
        sectors_from(c, start, n)[q] == c[(start + q / 512) as u64][q % 512],
    decreases n,
{
    lemma_sectors_from_len(c, start, n);
    if q < 512 * (n - 1) {
        lemma_sectors_from_at(c, start, (n - 1) as nat, q);
    } else {
        assert(c[(start + (n - 1)) as u64].len() == 512);
        assert(q / 512 == n - 1);
    }
}

pub proof fn lemma_sectors_from_len(c: Map<u64, Seq<u8>>, start: u64, n: nat)
    requires
        forall|k: int| 0 <= k < n ==> #[trigger] c[(start + k) as u64].len() == 512,
    ensures
        sectors_from(c, start, n).len() == 512 * n,
    decreases n,
{
    if n > 0 {
        lemma_sectors_from_len(c, start, (n - 1) as nat);
        assert(c[(start + (n - 1)) as u64].len() == 512);
    }
}

/// The bytes a payload run holds.
pub open spec fn run_bytes(c: Map<u64, Seq<u8>>, run: Extent) -> Seq<u8> {
    sectors_from(c, (PAYLOAD_SECTOR + run.start) as u64, run.sectors as nat)
}

/// Every sector of a run holds a full sector.
pub open spec fn run_present(c: Map<u64, Seq<u8>>, run: Extent) -> bool {
    &&& run.start + run.sectors <= DATA_SECTORS
    &&& forall|k: int| 0 <= k < run.sectors ==> c.dom().contains(#[trigger] ((PAYLOAD_SECTOR + run.start + k) as u64)) && c[(PAYLOAD_SECTOR + run.start + k) as u64].len() == 512
}

/// The bytes a file's runs hold, in order.
pub open spec fn runs_content(c: Map<u64, Seq<u8>>, runs: Seq<Extent>) -> Seq<u8>
    decreases runs.len(),
{
    if runs.len() == 0 {
        Seq::empty()
    } else {
        runs_content(c, runs.drop_last()) + run_bytes(c, runs.last())
    }
}

pub proof fn lemma_run_bytes_at(c: Map<u64, Seq<u8>>, run: Extent, q: int)
    requires
        run_present(c, run),
        0 <= q < 512 * run.sectors,
    ensures
        run_bytes(c, run).len() == 512 * run.sectors,
        run_bytes(c, run)[q] == c[(PAYLOAD_SECTOR + run.start + q / 512) as u64][q % 512],
{
    let start = (PAYLOAD_SECTOR + run.start) as u64;
    assert forall|k: int| 0 <= k < run.sectors implies #[trigger] c[(start + k) as u64].len() == 512 by {
        assert(((PAYLOAD_SECTOR + run.start + k) as u64) == (start + k) as u64);
    }
    lemma_sectors_from_at(c, start, run.sectors as nat, q);
}

/// A file's content has one full sector per run sector.
pub proof fn lemma_runs_content_len(c: Map<u64, Seq<u8>>, runs: Seq<Extent>)
    requires
        forall|k: int| 0 <= k < runs.len() ==> #[trigger] run_present(c, runs[k]),
    ensures
        runs_content(c, runs).len() == 512 * total_sectors(runs),
    decreases runs.len(),
{
    if runs.len() > 0 {
        let head = runs.drop_last();
        assert forall|k: int| 0 <= k < head.len() implies #[trigger] run_present(c, head[k]) by {
            assert(run_present(c, runs[k]));
        }
        lemma_runs_content_len(c, head);
        assert(run_present(c, runs.last()));
        if runs.last().sectors > 0 {
            lemma_run_bytes_at(c, runs.last(), 0);
        } else {
            assert(run_bytes(c, runs.last()) =~= Seq::<u8>::empty());
        }
    }
}

/// Byte `q` of run `k` is byte `512 * (sectors before run k) + q` of the file.
pub proof fn lemma_content_at(c: Map<u64, Seq<u8>>, runs: Seq<Extent>, k: int, q: int)
    requires
        forall|j: int| 0 <= j < runs.len() ==> #[trigger] run_present(c, runs[j]),
        0 <= k < runs.len(),
        0 <= q < 512 * runs[k].sectors,
    ensures
        runs_content(c, runs)[512 * total_sectors(runs.take(k)) + q] == c[(PAYLOAD_SECTOR + runs[k].start + q / 512) as u64][q % 512],
    decreases runs.len(),
{
    let head = runs.drop_last();
    assert forall|j: int| 0 <= j < head.len() implies #[trigger] run_present(c, head[j]) by {
        assert(run_present(c, runs[j]));
    }
    lemma_runs_content_len(c, head);
    lemma_run_bytes_at(c, runs[k], q);
    let p = 512 * total_sectors(runs.take(k)) + q;
    crate::extent::lemma_total_sectors_nonneg(runs.take(k));
    if k == runs.len() - 1 {
        assert(runs.take(k) =~= head);
        assert(runs.last() == runs[k]);
        assert(runs_content(c, runs) == runs_content(c, head) + run_bytes(c, runs[k]));
        assert(runs_content(c, runs)[p] == run_bytes(c, runs[k])[q]);
    } else {
        lemma_content_at(c, head, k, q);
        assert(head.take(k) =~= runs.take(k));
        crate::extent::lemma_total_sectors_monotone(head, k + 1);
        crate::extent::lemma_total_sectors_prefix(head, k);
        assert(head[k] == runs[k]);
        assert(p < runs_content(c, head).len());
        assert(runs_content(c, runs) == runs_content(c, head) + run_bytes(c, runs.last()));
        assert(runs_content(c, runs)[p] == runs_content(c, head)[p]);
    }
}

} // verus!

verus! {

/// Byte `p` of a file stored in `runs` of a payload region starting at sector
/// `base`: the byte of the run sector it falls in.
pub open spec fn payload_byte(c: Map<u64, Seq<u8>>, base: u64, runs: Seq<Extent>, p: int) -> u8
    decreases runs.len(),
{
    if runs.len() == 0 {
        0u8
    } else {
        let before = 512 * total_sectors(runs.drop_last());
        if p < before {
            payload_byte(c, base, runs.drop_last(), p)
        } else {
            let q = p - before;
            c[(base + runs.last().start + q / 512) as u64][q % 512]
        }
    }
}

/// Byte `p` of a file stored in `runs` of this layout's payload region.
pub open spec fn file_byte(c: Map<u64, Seq<u8>>, runs: Seq<Extent>, p: int) -> u8 {
    payload_byte(c, PAYLOAD_SECTOR, runs, p)
}

/// Byte `q` of run `k` is byte `512 * (sectors before run k) + q` of the file.
pub proof fn lemma_payload_byte(c: Map<u64, Seq<u8>>, base: u64, runs: Seq<Extent>, k: int, q: int)
    requires
        0 <= k < runs.len(),
        0 <= q < 512 * runs[k].sectors,
    ensures
        payload_byte(c, base, runs, 512 * total_sectors(runs.take(k)) + q) == c[(base + runs[k].start + q / 512) as u64][q % 512],
    decreases runs.len(),
{
    let head = runs.drop_last();
    crate::extent::lemma_total_sectors_nonneg(runs.take(k));
    if k == runs.len() - 1 {
        assert(runs.take(k) =~= head);
    } else {
        lemma_payload_byte(c, base, head, k, q);
        assert(head.take(k) =~= runs.take(k));
        crate::extent::lemma_total_sectors_monotone(head, k + 1);
        crate::extent::lemma_total_sectors_prefix(head, k);
        assert(head[k] == runs[k]);
    }
}

/// Byte `q` of run `k` is byte `512 * (sectors before run k) + q` of the file.
pub proof fn lemma_file_byte(c: Map<u64, Seq<u8>>, runs: Seq<Extent>, k: int, q: int)
    requires
        0 <= k < runs.len(),
        0 <= q < 512 * runs[k].sectors,
    ensures
        file_byte(c, runs, 512 * total_sectors(runs.take(k)) + q) == c[(PAYLOAD_SECTOR + runs[k].start + q / 512) as u64][q % 512],
{
    lemma_payload_byte(c, PAYLOAD_SECTOR, runs, k, q);
}

/// The smaller of two counts.
pub open spec fn least(a: int, b: int) -> int {
    if a < b {
        a
    } else {
        b
    }
}

/// `x` kept inside `[lo, hi]`.
pub open spec fn clamp(x: int, lo: int, hi: int) -> int {
    if x < lo {
        lo
    } else if x > hi {
        hi
    } else {
        x
    }
}

impl Volume6 {
    /// Read at most `out.len()` bytes of `node` from `offset`, streaming only
    /// the run sectors the range touches. A range starting past the end is
    /// `Size`; a record whose runs cannot hold its length is `Corrupt` before
    /// any read; a range running past the end copies what the file holds.
    pub fn read_range<D: Disk>(&self, disk: &mut D, node: &Node6, offset: u64, out: &mut [u8]) -> (r: Result<usize, Error>)
        requires
            node.extents_used <= EXTENTS_PER_FILE,
            forall|k: int| 0 <= k < node.extents_used ==> PAYLOAD_SECTOR + (#[trigger] node.extents@[k]).start + node.extents@[k].sectors <= u64::MAX,
            offset <= node.length ==> 512 * total_sectors(node.extents@.take(node.extents_used as int)) <= u64::MAX,
        ensures
            final(disk).contents() == old(disk).contents(),
            final(out)@.len() == old(out)@.len(),
            self.fenced() ==> r == Err::<usize, Error>(Error::Uncertain) && final(out)@ == old(out)@,
            !self.fenced() && offset > node.length ==> r == Err::<usize, Error>(Error::Size) && final(out)@ == old(out)@
                && final(disk).requests() == old(disk).requests(),
            !self.fenced() && offset <= node.length && node.length > 512 * total_sectors(node.extents@.take(node.extents_used as int))
                ==> r == Err::<usize, Error>(Error::Corrupt) && final(out)@ == old(out)@ && final(disk).requests() == old(disk).requests(),
            r matches Ok(count) ==> {
                let runs = node.extents@.take(node.extents_used as int);
                &&& !self.fenced()
                &&& offset <= node.length <= 512 * total_sectors(runs)
                &&& count == least(old(out)@.len() as int, node.length - offset)
                &&& forall|i: int| 0 <= i < count ==> #[trigger] final(out)@[i] == file_byte(old(disk).contents(), runs, offset + i)
                &&& forall|i: int| count <= i < old(out)@.len() ==> #[trigger] final(out)@[i] == old(out)@[i]
            },
    {
        self.ready()?;
        let length = node.length as u64;
        if offset > length {
            return Err(Error::Size);
        }
        let used = node.extents_used as usize;
        let ghost runs = node.extents@.take(used as int);
        let mut held: u64 = 0;
        let mut k: usize = 0;
        while k < used
            invariant
                used == node.extents_used,
                used <= EXTENTS_PER_FILE,
                0 <= k <= used,
                runs == node.extents@.take(used as int),
                512 * total_sectors(runs) <= u64::MAX,
                held == total_sectors(runs.take(k as int)),
            decreases used - k,
        {
            proof {
                crate::extent::lemma_total_sectors_prefix(runs, k as int);
            }
            assert(runs[k as int] == node.extents@[k as int]);
            proof {
                crate::extent::lemma_total_sectors_monotone(runs, k + 1);
            }
            held = held + node.extents[k].sectors;
            k = k + 1;
        }
        assert(runs.take(used as int) =~= runs);
        if length > held * 512 {
            return Err(Error::Corrupt);
        }
        read_runs(disk, PAYLOAD_SECTOR, &node.extents, used, length, offset, out)
    }
}

} // verus!

verus! {

/// Sector `q` of `run` in the payload region at `base`.
pub open spec fn run_sector_at(base: u64, run: Extent, q: int) -> u64 {
    (base + run.start + q) as u64
}

/// The first `used` runs of `extents` address sectors from `base` and hold a
/// byte count that the device's 64-bit arithmetic can express.
pub open spec fn runs_fit(base: u64, extents: Seq<Extent>, used: int) -> bool {
    &&& forall|k: int| 0 <= k < used ==> base + (#[trigger] extents[k]).start + extents[k].sectors <= u64::MAX
    &&& 512 * total_sectors(extents.take(used)) <= u64::MAX
}

/// Runs inside the payload region fit.
pub proof fn lemma_region_runs_fit(base: u64, extents: Seq<Extent>, used: int)
    requires
        base <= u32::MAX,
        0 <= used <= EXTENTS_PER_FILE,
        used <= extents.len(),
        forall|k: int| 0 <= k < used ==> (#[trigger] extents[k]).start + extents[k].sectors <= DATA_SECTORS,
    ensures
        runs_fit(base, extents, used),
{
    let runs = extents.take(used);
    assert forall|k: int| 0 <= k <= used implies total_sectors(#[trigger] runs.take(k)) <= k * DATA_SECTORS by {
        lemma_total_bound(runs, k);
    }
    assert(runs.take(used) =~= runs);
}

/// The first `k` runs, each inside the region, hold at most `k` regions.
proof fn lemma_total_bound(runs: Seq<Extent>, k: int)
    requires
        0 <= k <= runs.len(),
        forall|j: int| 0 <= j < runs.len() ==> (#[trigger] runs[j]).start + runs[j].sectors <= DATA_SECTORS,
    ensures
        total_sectors(runs.take(k)) <= k * DATA_SECTORS,
    decreases k,
{
    if k > 0 {
        lemma_total_bound(runs, k - 1);
        crate::extent::lemma_total_sectors_prefix(runs, k - 1);
    }
}

/// The device holds every sector of `runs` in the payload region at `base`.
pub open spec fn runs_present(c: Map<u64, Seq<u8>>, base: u64, runs: Seq<Extent>) -> bool {
    forall|k: int, q: int| 0 <= k < runs.len() && 0 <= q < runs[k].sectors ==> c.dom().contains(#[trigger] run_sector_at(base, runs[k], q))
}

/// Copy at most `out.len()` bytes of the file that `used` runs of `extents`
/// hold in the payload region at `base`, from `offset`, streaming only the run
/// sectors the range touches.
pub fn read_runs<D: Disk>(disk: &mut D, base: u64, extents: &[Extent; EXTENTS_PER_FILE], used: usize, length: u64, offset: u64, out: &mut [u8]) -> (r: Result<usize, Error>)
    requires
        used <= EXTENTS_PER_FILE,
        base <= u32::MAX,
        runs_fit(base, extents@, used as int),
        offset <= length <= 512 * total_sectors(extents@.take(used as int)),
    ensures
        final(disk).contents() == old(disk).contents(),
        final(out)@.len() == old(out)@.len(),
        r matches Ok(count) ==> {
            let runs = extents@.take(used as int);
            &&& count == least(old(out)@.len() as int, length - offset)
            &&& forall|i: int| 0 <= i < count ==> #[trigger] final(out)@[i] == payload_byte(old(disk).contents(), base, runs, offset + i)
            &&& forall|i: int| count <= i < old(out)@.len() ==> #[trigger] final(out)@[i] == old(out)@[i]
        },
        final(disk).dependable() == old(disk).dependable(),
        old(disk).dependable() && runs_present(old(disk).contents(), base, extents@.take(used as int)) ==> r is Ok,
{
    let ghost runs = extents@.take(used as int);
    let ghost held = total_sectors(runs);
    let count: usize = if (out.len() as u64) < length - offset { out.len() } else { (length - offset) as usize };
    let end = offset + count as u64;
    let ghost c = disk.contents();
    let ghost original = out@;
    let mut position: u64 = 0;
    let mut written: usize = 0;
    let mut k: usize = 0;
    while k < used
        invariant
            used <= EXTENTS_PER_FILE,
            0 <= k <= used,
            runs == extents@.take(used as int),
            runs_fit(base, extents@, used as int),
            held == total_sectors(runs),
            length <= 512 * held,
            offset <= end <= length,
            end == offset + count,
            count <= original.len(),
            out@.len() == original.len(),
            disk.contents() == c,
            disk.dependable() == old(disk).dependable(),
            base <= u32::MAX,            c == old(disk).contents(),
            original == old(out)@,
            runs.len() == used,
            offset <= length,
            length <= 512 * total_sectors(runs),
            position == 512 * total_sectors(runs.take(k as int)),
            512 * held <= u64::MAX,
            written == clamp(position as int, offset as int, end as int) - offset,
            forall|i: int| 0 <= i < written ==> #[trigger] out@[i] == payload_byte(c, base, runs, offset + i),
            forall|i: int| written <= i < original.len() ==> #[trigger] out@[i] == original[i],
        decreases used - k,
    {
        let run = extents[k];
        assert(run == runs[k as int]);
        assert(base + extents@[k as int].start + extents@[k as int].sectors <= u64::MAX);
        proof {
            crate::extent::lemma_total_sectors_prefix(runs, k as int);
            crate::extent::lemma_total_sectors_monotone(runs, k + 1);
            crate::extent::lemma_total_sectors_nonneg(runs.take(k as int));
        }
        let start = position;
        position = position + run.sectors * 512;
        if position > offset && start < end {
            let from = if offset > start { offset } else { start };
            let to = if end < position { end } else { position };
            let mut sector = (from - start) / 512;
            let mut within = ((from - start) % 512) as usize;
            let mut remaining = (to - from) as usize;
            while remaining > 0
                invariant
                    0 <= k < used,
                    runs == extents@.take(used as int),
                    run == runs[k as int],
                    base + run.start + run.sectors <= u64::MAX,
                    start == 512 * total_sectors(runs.take(k as int)),
                    position == start + run.sectors * 512,
                    offset <= from <= to <= end,
                    start <= from,
                    to <= position,
                    within < 512,
                    written + remaining == to - offset,
                    remaining > 0 ==> written == start + 512 * sector + within - offset,
                    end == offset + count,
                    count <= original.len(),
                    out@.len() == original.len(),
                    disk.contents() == c,
                    disk.dependable() == old(disk).dependable(),
                    base <= u32::MAX,                    c == old(disk).contents(),
                    original == old(out)@,
                    runs.len() == used,
                    offset <= length,
                    length <= 512 * total_sectors(runs),
                    forall|i: int| 0 <= i < written ==> #[trigger] out@[i] == payload_byte(c, base, runs, offset + i),
                    forall|i: int| written <= i < original.len() ==> #[trigger] out@[i] == original[i],
                decreases remaining,
            {
                let mut block = [0u8; 512];
                proof {
                    if runs_present(c, base, runs) {
                        assert(sector < run.sectors);
                        assert(c.dom().contains(run_sector_at(base, runs[k as int], sector as int)));
                    }
                }
                disk.read(base + run.start + sector, &mut block)?;
                let take = if remaining < 512 - within { remaining } else { 512 - within };
                let mut t: usize = 0;
                while t < take
                    invariant
                        0 <= t <= take,
                        take <= remaining,
                        within + take <= 512,
                        0 <= k < used,
                        runs == extents@.take(used as int),
                        run == runs[k as int],
                        start == 512 * total_sectors(runs.take(k as int)),
                        start + 512 * sector + within + remaining <= position,
                        position == start + run.sectors * 512,
                        written == start + 512 * sector + within - offset,
                        written + remaining <= count,
                        count <= original.len(),
                        out@.len() == original.len(),
                        block@ == c[(base + run.start + sector) as u64],
                        runs.len() == used,
                        forall|i: int| 0 <= i < written + t ==> #[trigger] out@[i] == payload_byte(c, base, runs, offset + i),
                        forall|i: int| written + t <= i < original.len() ==> #[trigger] out@[i] == original[i],
                    decreases take - t,
                {
                    out[written + t] = block[within + t];
                    proof {
                        let q = 512 * sector + within + t;
                        lemma_payload_byte(c, base, runs, k as int, q);
                        assert(q / 512 == sector);
                        assert(q % 512 == within + t);
                        assert(start + q == offset + written + t);
                    }
                    t = t + 1;
                }
                written = written + take;
                remaining = remaining - take;
                sector = sector + 1;
                within = 0;
            }
        }
        k = k + 1;
    }
    assert(runs.take(used as int) =~= runs);
    Ok(written)
}

/// `bytes` followed by zeros, at position `p`.
pub open spec fn padded_at(bytes: Seq<u8>, p: int) -> u8 {
    if 0 <= p < bytes.len() {
        bytes[p]
    } else {
        0u8
    }
}

/// A position before the end of the first `k` runs falls in one of them.
pub proof fn lemma_locate(runs: Seq<Extent>, k: int, p: int) -> (jq: (int, int))
    requires
        0 <= k <= runs.len(),
        0 <= p < 512 * total_sectors(runs.take(k)),
    ensures
        0 <= jq.0 < k,
        0 <= jq.1 < 512 * runs[jq.0].sectors,
        p == 512 * total_sectors(runs.take(jq.0)) + jq.1,
    decreases k,
{
    if k == 0 {
        assert(runs.take(0) =~= Seq::<Extent>::empty());
        (0, 0)
    } else {
        crate::extent::lemma_total_sectors_prefix(runs, k - 1);
        if p < 512 * total_sectors(runs.take(k - 1)) {
            lemma_locate(runs, k - 1, p)
        } else {
            (k - 1, p - 512 * total_sectors(runs.take(k - 1)))
        }
    }
}

/// The payload sector holding byte `q` of run `run`.
pub open spec fn run_sector(run: Extent, q: int) -> u64 {
    (PAYLOAD_SECTOR + run.start + q / 512) as u64
}

/// Write `bytes`, zero-padded, into the plan's runs in order. Only payload
/// sectors of the plan are touched; a failure may leave any prefix behind.
pub fn write_runs<D: Disk>(disk: &mut D, base: u64, plan: &PayloadPlan, bytes: &[u8]) -> (r: Result<(), Error>)
    requires
        base <= u32::MAX,
        plan.wf(),
        bytes@.len() <= 512 * plan.total(),
    ensures
        r is Ok ==> final(disk).contents().dom() == old(disk).contents().dom(),
        r is Ok ==> forall|s: u64| !covered(plan.runs@, plan.used as int, s - base) ==> #[trigger] final(disk).contents()[s] == old(disk).contents()[s],
        r is Ok ==> forall|p: int| 0 <= p < 512 * plan.total() ==> #[trigger] payload_byte(final(disk).contents(), base, plan.runs@.take(plan.used as int), p) == padded_at(bytes@, p),
        final(disk).dependable() == old(disk).dependable(),
        old(disk).dependable() && runs_present(old(disk).contents(), base, plan.runs@.take(plan.used as int)) ==> r is Ok,
{
    let ghost runs = plan.runs@.take(plan.used as int);
    let ghost c0 = disk.contents();
    let mut written: usize = 0;
    let mut k: usize = 0;
    assert(runs.take(0) =~= Seq::<Extent>::empty());
    while k < plan.used
        invariant
            base <= u32::MAX,
            plan.wf(),
            runs == plan.runs@.take(plan.used as int),
            runs.len() == plan.used,
            bytes@.len() <= 512 * plan.total(),
            0 <= k <= plan.used,
            written == least(bytes@.len() as int, 512 * total_sectors(runs.take(k as int))),
            disk.contents().dom() == c0.dom(),
            disk.dependable() == old(disk).dependable(),
            c0 == old(disk).contents(),
            forall|s: u64| !covered(plan.runs@, plan.used as int, s - base) ==> #[trigger] disk.contents()[s] == c0[s],
            forall|s: u64| !covered(plan.runs@, k as int, s - base) && covered(plan.runs@, plan.used as int, s - base) ==> #[trigger] disk.contents()[s] == c0[s],
            forall|p: int| 0 <= p < 512 * total_sectors(runs.take(k as int)) ==> #[trigger] payload_byte(disk.contents(), base, runs, p) == padded_at(bytes@, p),
        decreases plan.used - k,
    {
        let run = plan.runs[k];
        let ghost off = 512 * total_sectors(runs.take(k as int));
        proof {
            crate::extent::lemma_total_sectors_prefix(runs, k as int);
            assert(runs[k as int] == run);
            assert(run.start + run.sectors <= DATA_SECTORS);
        }
        let mut sector: u64 = 0;
        while sector < run.sectors
            invariant
                base <= u32::MAX,
                plan.wf(),
                runs == plan.runs@.take(plan.used as int),
                runs.len() == plan.used,
                0 <= k < plan.used,
                run == runs[k as int],
                run == plan.runs@[k as int],
                run.start + run.sectors <= DATA_SECTORS,
                off == 512 * total_sectors(runs.take(k as int)),
                0 <= sector <= run.sectors,
                written == least(bytes@.len() as int, off + 512 * sector),
                disk.contents().dom() == c0.dom(),
                disk.dependable() == old(disk).dependable(),
                c0 == old(disk).contents(),
                forall|s: u64| !covered(plan.runs@, plan.used as int, s - base) ==> #[trigger] disk.contents()[s] == c0[s],
                forall|s: u64| !covered(plan.runs@, k as int, s - base) && covered(plan.runs@, plan.used as int, s - base)
                    && !(base + run.start <= s < base + run.start + sector) ==> #[trigger] disk.contents()[s] == c0[s],
                forall|p: int| 0 <= p < off + 512 * sector ==> #[trigger] payload_byte(disk.contents(), base, runs, p) == padded_at(bytes@, p),
            decreases run.sectors - sector,
        {
            let mut block = [0u8; 512];
            let take = if bytes.len() - written < 512 { bytes.len() - written } else { 512 };
            put(&mut block, 0, vstd::slice::slice_subrange(bytes, written, written + take));
            let ghost c = disk.contents();
            let target = base + run.start + sector;
            proof {
                if runs_present(c0, base, runs) {
                    assert(c0.dom().contains(run_sector_at(base, runs[k as int], sector as int)));
                }
            }
            disk.write(target, &block)?;
            proof {
                let c1 = disk.contents();
                assert forall|p: int| 0 <= p < off + 512 * (sector + 1) implies #[trigger] payload_byte(c1, base, runs, p) == padded_at(bytes@, p) by {
                    if p < off + 512 * sector {
                        assert(payload_byte(c, base, runs, p) == padded_at(bytes@, p));
                        crate::extent::lemma_total_sectors_prefix(runs, k as int);
                        let (j, q) = lemma_locate(runs, k + 1, p);
                        lemma_payload_byte(c, base, runs, j, q);
                        lemma_payload_byte(c1, base, runs, j, q);
                        if j < k {
                            assert(apart(plan.runs@[j], plan.runs@[k as int]));
                            assert(runs[j] == plan.runs@[j]);
                        }
                        assert(((base + runs[j].start + q / 512) as u64) != target);
                    } else {
                        let q = p - off;
                        lemma_payload_byte(c1, base, runs, k as int, 512 * sector + (p - off - 512 * sector));
                        assert(q / 512 == sector);
                    }
                }
                assert forall|s: u64| !covered(plan.runs@, plan.used as int, s - base) implies #[trigger] c1[s] == c0[s] by {
                    if s == target {
                        assert(covered(plan.runs@, plan.used as int, s - base)) by {
                            assert(plan.runs@[k as int].start <= s - base < plan.runs@[k as int].start + plan.runs@[k as int].sectors);
                        }
                    }
                }
            }
            written = written + take;
            sector = sector + 1;
        }
        proof {
            assert forall|s: u64| !covered(plan.runs@, k + 1, s - base) && covered(plan.runs@, plan.used as int, s - base) implies #[trigger] disk.contents()[s] == c0[s] by {
                assert(!covered(plan.runs@, k as int, s - base)) by {
                    if covered(plan.runs@, k as int, s - base) {
                        let j = choose|j: int| 0 <= j < k && #[trigger] plan.runs@[j].start <= s - base < plan.runs@[j].start + plan.runs@[j].sectors;
                        assert(covered(plan.runs@, k + 1, s - base));
                    }
                }
                assert(!(base + run.start <= s < base + run.start + run.sectors)) by {
                    if base + run.start <= s < base + run.start + run.sectors {
                        assert(covered(plan.runs@, k + 1, s - base)) by {
                            assert(plan.runs@[k as int].start <= s - base < plan.runs@[k as int].start + plan.runs@[k as int].sectors);
                        }
                    }
                }
            }
        }
        k = k + 1;
    }
    assert(runs.take(plan.used as int) =~= runs);
    Ok(())
}

impl Volume6 {
    /// Write `bytes`, zero-padded, into the plan's runs of this layout's
    /// payload region.
    fn write_payload<D: Disk>(&self, disk: &mut D, plan: &PayloadPlan, bytes: &[u8]) -> (r: Result<(), Error>)
        requires
            plan.wf(),
            bytes@.len() <= 512 * plan.total(),
        ensures
            r is Ok ==> final(disk).contents().dom() == old(disk).contents().dom(),
            r is Ok ==> forall|s: u64| !covered(plan.runs@, plan.used as int, s - PAYLOAD_SECTOR) ==> #[trigger] final(disk).contents()[s] == old(disk).contents()[s],
            r is Ok ==> forall|p: int| 0 <= p < 512 * plan.total() ==> #[trigger] file_byte(final(disk).contents(), plan.runs@.take(plan.used as int), p) == padded_at(bytes@, p),
            final(disk).dependable() == old(disk).dependable(),
            old(disk).dependable() && runs_present(old(disk).contents(), PAYLOAD_SECTOR, plan.runs@.take(plan.used as int)) ==> r is Ok,
    {
        write_runs(disk, PAYLOAD_SECTOR, plan, bytes)
    }
}


} // verus!

verus! {

/// `n` is `old` moved onto the plan's runs with `length` bytes.
pub open spec fn adopted(n: Node6, old: Node6, plan: PayloadPlan, length: int) -> bool {
    &&& n.id == old.id
    &&& n.parent == old.parent
    &&& n.version == old.version
    &&& n.kind == old.kind
    &&& n.space == old.space
    &&& n.name == old.name
    &&& n.name_length == old.name_length
    &&& n.length == length
    &&& n.extents_used == plan.used
    &&& forall|k: int| 0 <= k < EXTENTS_PER_FILE ==> #[trigger] n.extents@[k] == if k < plan.used {
        plan.runs@[k]
    } else {
        Extent { start: 0, sectors: 0 }
    }
}

impl Volume6 {
    /// Move record `index` onto the plan's runs and give the runs it held
    /// back. A release that does not match the map is `Uncertain`.
    fn adopt(&mut self, index: usize, plan: &PayloadPlan, length: usize) -> (r: Result<(), Error>)
        requires
            old(self).wf(),
            index < OBJECTS_V6,
            plan.wf(),
            length <= 512 * plan.total(),
            length <= u32::MAX,
        ensures
            final(self).words().len() == MAP_WORDS,
            final(self).head() == old(self).head(),
            final(self).retained() == old(self).retained(),
            final(self).fenced() == old(self).fenced(),
            r is Err ==> r == Err::<(), Error>(Error::Uncertain) && final(self).table() == old(self).table(),
            r is Ok ==> {
                let prev = old(self).table()[index as int];
                &&& final(self).wf()
                &&& final(self).table() == old(self).table().update(index as int, final(self).table()[index as int])
                &&& adopted(final(self).table()[index as int], prev, *plan, length as int)
                &&& forall|k: int| 0 <= k < prev.extents_used ==> #[trigger] used_run(old(self).words(), prev.extents@[k].start as int, prev.extents@[k].sectors as int) || prev.extents@[k].sectors == 0
                &&& forall|s: int| 0 <= s < DATA_SECTORS ==> #[trigger] bit(final(self).words(), s) == (bit(old(self).words(), s) && !covered(prev.extents@, prev.extents_used as int, s))
            },
    {
        let previous = self.nodes[index].extents;
        let previous_used = self.nodes[index].extents_used as usize;
        let ghost w0 = self.words();
        proof {
            assert(node6_storable(self.table()[index as int]));
        }
        let mut j: usize = 0;
        while j < previous_used
            invariant
                0 <= j <= previous_used <= EXTENTS_PER_FILE,
                previous == old(self).table()[index as int].extents,
                previous_used == old(self).table()[index as int].extents_used,
                self.words().len() == MAP_WORDS,
                self.same_records(old(self)),
                self.fenced() == old(self).fenced(),
                w0 == old(self).words(),
                forall|k: int| 0 <= k < j ==> #[trigger] used_run(w0, previous@[k].start as int, previous@[k].sectors as int) || previous@[k].sectors == 0,
                forall|s: int| 0 <= s < DATA_SECTORS ==> #[trigger] bit(self.words(), s) == (bit(w0, s) && !covered(previous@, j as int, s)),
            decreases previous_used - j,
        {
            let run = previous[j];
            let ghost before = self.words();
            if self.release(run).is_err() {
                return Err(Error::Uncertain);
            }
            proof {
                assert(used_run(w0, run.start as int, run.sectors as int)) by {
                    assert forall|s: int| run.start <= s < run.start + run.sectors implies bit(w0, s) by {
                        assert(bit(before, s));
                    }
                }
                assert forall|s: int| 0 <= s < DATA_SECTORS implies #[trigger] bit(self.words(), s) == (bit(w0, s) && !covered(previous@, j + 1, s)) by {
                    if run.start <= s < run.start + run.sectors {
                        assert(covered(previous@, j + 1, s)) by {
                            assert(previous@[j as int].start <= s < previous@[j as int].start + previous@[j as int].sectors);
                        }
                    } else {
                        if covered(previous@, j + 1, s) {
                            let k = choose|k: int| 0 <= k < j + 1 && #[trigger] previous@[k].start <= s < previous@[k].start + previous@[k].sectors;
                            assert(k != j);
                            assert(covered(previous@, j as int, s));
                        }
                        if covered(previous@, j as int, s) {
                            let k = choose|k: int| 0 <= k < j && #[trigger] previous@[k].start <= s < previous@[k].start + previous@[k].sectors;
                            assert(covered(previous@, j + 1, s));
                        }
                    }
                }
            }
            j = j + 1;
        }
        let mut node = self.nodes[index];
        node.length = length as u32;
        node.extents = [Extent { start: 0, sectors: 0 }; EXTENTS_PER_FILE];
        let ghost n0 = node;
        let mut slot: usize = 0;
        while slot < plan.used
            invariant
                plan.wf(),
                0 <= slot <= plan.used,
                node == (Node6 { extents: node.extents, ..n0 }),
                forall|k: int| 0 <= k < EXTENTS_PER_FILE ==> #[trigger] node.extents@[k] == if k < slot {
                    plan.runs@[k]
                } else {
                    Extent { start: 0, sectors: 0 }
                },
            decreases plan.used - slot,
        {
            node.extents[slot] = plan.runs[slot];
            slot = slot + 1;
        }
        node.extents_used = plan.used as u8;
        proof {
            assert(node.extents@.take(plan.used as int) =~= plan.runs@.take(plan.used as int));
            assert(node.extents_used as int == plan.used as int);
            assert(node.length == length);
            assert(node.extents_used <= EXTENTS_PER_FILE);
            assert forall|k: int| 0 <= k < 8 implies #[trigger] node.extents@[k].start + node.extents@[k].sectors <= DATA_SECTORS by {
                if k < plan.used {
                    assert(plan.runs@[k].start + plan.runs@[k].sectors <= DATA_SECTORS);
                }
            }
            assert forall|k: int| node.extents_used <= k < 8 implies #[trigger] node.extents@[k] == (Extent { start: 0, sectors: 0 }) by {}
            assert(node.length <= total_sectors(node.extents@.take(node.extents_used as int)) * SECTOR_BYTES);
            assert(node6_storable(node));
        }
        self.nodes[index] = node;
        proof {
            assert forall|i: int| 0 <= i < OBJECTS_V6 implies node6_storable(#[trigger] self.table()[i]) by {
                if i != index {
                    assert(self.table()[i] == old(self).table()[i]);
                }
            }
            assert(self.table() =~= old(self).table().update(index as int, node));
        }
        Ok(())
    }
}

} // verus!

verus! {

/// File bytes live in payload sectors only, so two devices that agree there
/// hold the same file.
pub proof fn lemma_payload_byte_frame(c1: Map<u64, Seq<u8>>, c2: Map<u64, Seq<u8>>, base: u64, runs: Seq<Extent>, p: int)
    requires
        base <= u32::MAX,
        forall|s: u64| s >= base ==> #[trigger] c1[s] == c2[s],
        forall|k: int| 0 <= k < runs.len() ==> #[trigger] runs[k].start + runs[k].sectors <= DATA_SECTORS,
        0 <= p < 512 * total_sectors(runs),
    ensures
        payload_byte(c1, base, runs, p) == payload_byte(c2, base, runs, p),
    decreases runs.len(),
{
    if runs.len() > 0 {
        let head = runs.drop_last();
        assert forall|k: int| 0 <= k < head.len() implies #[trigger] head[k].start + head[k].sectors <= DATA_SECTORS by {
            assert(head[k] == runs[k]);
        }
        if p < 512 * total_sectors(head) {
            lemma_payload_byte_frame(c1, c2, base, head, p);
        } else {
            assert(runs.last() == runs[runs.len() - 1]);
        }
    }
}

pub proof fn lemma_file_byte_frame(c1: Map<u64, Seq<u8>>, c2: Map<u64, Seq<u8>>, runs: Seq<Extent>, p: int)
    requires
        forall|s: u64| s >= PAYLOAD_SECTOR ==> #[trigger] c1[s] == c2[s],
        forall|k: int| 0 <= k < runs.len() ==> #[trigger] runs[k].start + runs[k].sectors <= DATA_SECTORS,
        0 <= p < 512 * total_sectors(runs),
    ensures
        file_byte(c1, runs, p) == file_byte(c2, runs, p),
{
    lemma_payload_byte_frame(c1, c2, PAYLOAD_SECTOR, runs, p);
}

/// The runs a record holds.
pub open spec fn runs_of(n: Node6) -> Seq<Extent> {
    n.extents@.take(n.extents_used as int)
}

/// Record `n` holds `bytes`: each byte within its length reads back from its runs.
pub open spec fn holds_file(c: Map<u64, Seq<u8>>, n: Node6, bytes: Seq<u8>) -> bool {
    &&& n.length == bytes.len()
    &&& forall|p: int| 0 <= p < bytes.len() ==> #[trigger] file_byte(c, runs_of(n), p) == bytes[p]
}

impl Volume6 {
    /// Reserve the runs `bytes` need, write them and move record `index` onto
    /// them. A refusal before the first write leaves the map as it was and the
    /// mount usable; any failure from the payload write on fences the mount.
    fn stage<D: Disk>(&mut self, disk: &mut D, index: usize, bytes: &[u8]) -> (r: Result<(), Error>)
        requires
            old(self).wf(),
            !old(self).fenced(),
            index < OBJECTS_V6,
            bytes@.len() <= MAX_FILE_V6,
        ensures
            final(self).wf(),
            final(self).head() == old(self).head(),
            final(self).retained() == old(self).retained(),
            r is Err && !final(self).fenced() ==> (r == Err::<(), Error>(Error::Full) || r == Err::<(), Error>(Error::Size))
                && final(self).table() == old(self).table() && final(self).words() == old(self).words()
                && final(disk).contents() == old(disk).contents()
                && final(disk).requests() == old(disk).requests(),
            r is Err && final(self).fenced() ==> final(self).table() == old(self).table(),
            r is Err && !final(self).fenced() ==> r == Err::<(), Error>(Error::Full)
                && reserve6(old(self).words(), Seq::empty(), sectors_for(bytes@.len() as int)) is Err,
            reserve6(old(self).words(), Seq::empty(), sectors_for(bytes@.len() as int)) is Err
                ==> r == Err::<(), Error>(Error::Full) && !final(self).fenced(),
            r is Ok ==> {
                let n = final(self).table()[index as int];
                let prev = old(self).table()[index as int];
                &&& !final(self).fenced()
                &&& final(self).table() == old(self).table().update(index as int, n)
                &&& n == Node6 { length: n.length, extents: n.extents, extents_used: n.extents_used, ..prev }
                &&& holds_file(final(disk).contents(), n, bytes@)
                &&& forall|s: int| 0 <= s < DATA_SECTORS ==> #[trigger] bit(final(self).words(), s) == ((bit(old(self).words(), s) || covered(n.extents@, n.extents_used as int, s)) && !covered(prev.extents@, prev.extents_used as int, s))
                &&& final(disk).contents().dom() == old(disk).contents().dom()
                &&& forall|s: u64| s < PAYLOAD_SECTOR ==> #[trigger] final(disk).contents()[s] == old(disk).contents()[s]
                &&& forall|s: u64| !covered(n.extents@, n.extents_used as int, s - PAYLOAD_SECTOR) ==> #[trigger] final(disk).contents()[s] == old(disk).contents()[s]
                &&& forall|s: int| 0 <= s < DATA_SECTORS && covered(n.extents@, n.extents_used as int, s) ==> !#[trigger] bit(old(self).words(), s)
            },
    {
        assert(sectors_for(bytes@.len() as int) <= FILE_SECTORS_MAX);
        let plan = self.reserve(bytes.len())?;
        let ghost w1 = self.words();
        if let Err(error) = self.write_payload(disk, &plan, bytes) {
            self.fence();
            return Err(error);
        }
        if let Err(error) = self.adopt(index, &plan, bytes.len()) {
            self.fence();
            return Err(error);
        }
        proof {
            let n = self.table()[index as int];
            assert(runs_of(n) =~= plan.runs@.take(plan.used as int));
            assert forall|p: int| 0 <= p < bytes@.len() implies #[trigger] file_byte(disk.contents(), runs_of(n), p) == bytes@[p] by {
                assert(file_byte(disk.contents(), plan.runs@.take(plan.used as int), p) == padded_at(bytes@, p));
            }
            assert forall|s: int| covered(n.extents@, n.extents_used as int, s) == covered(plan.runs@, plan.used as int, s) by {
                if covered(n.extents@, n.extents_used as int, s) {
                    let k = choose|k: int| 0 <= k < n.extents_used && #[trigger] n.extents@[k].start <= s < n.extents@[k].start + n.extents@[k].sectors;
                    assert(n.extents@[k] == plan.runs@[k]);
                }
                if covered(plan.runs@, plan.used as int, s) {
                    let k = choose|k: int| 0 <= k < plan.used && #[trigger] plan.runs@[k].start <= s < plan.runs@[k].start + plan.runs@[k].sectors;
                    assert(n.extents@[k] == plan.runs@[k]);
                }
            }
            assert forall|s: u64| s < PAYLOAD_SECTOR implies #[trigger] disk.contents()[s] == old(disk).contents()[s] by {
                assert(!covered(plan.runs@, plan.used as int, s - PAYLOAD_SECTOR));
            }
        }
        Ok(())
    }

    /// Publish, fencing the mount if any part of the publication fails.
    fn publish<D: Disk>(&mut self, disk: &mut D) -> (r: Result<(), Error>)
        requires
            old(self).wf(),
            old(self).head().active < GENERATIONS,
        ensures
            final(self).wf(),
            final(self).table() == old(self).table(),
            final(self).words() == old(self).words(),
            final(self).retained() == old(self).retained(),
            r is Err ==> r == Err::<(), Error>(Error::Uncertain) && final(self).fenced() && final(self).head() == old(self).head(),
            r is Ok ==> final(self).fenced() == old(self).fenced() && final(self).head() == published6(*old(self))
                && generation6_written(old(disk).contents(), final(disk).contents(), *old(self), published6(*old(self)).active),
    {
        match self.write_generation(disk) {
            Ok(()) => Ok(()),
            Err(error) => {
                self.fence();
                Err(error)
            },
        }
    }

    /// Publish the current in-memory structures: build the inactive
    /// generation, make it durable, then let one header sector name it.
    pub fn flush<D: Disk>(&mut self, disk: &mut D) -> (r: Result<(), Error>)
        requires
            old(self).wf(),
            old(self).head().active < GENERATIONS,
        ensures
            final(self).wf(),
            final(self).table() == old(self).table(),
            final(self).words() == old(self).words(),
            final(self).retained() == old(self).retained(),
            old(self).fenced() ==> r == Err::<(), Error>(Error::Uncertain) && *final(self) == *old(self) && final(disk).contents() == old(disk).contents() && final(disk).requests() == old(disk).requests(),
            r is Err ==> r == Err::<(), Error>(Error::Uncertain) && final(self).fenced() && final(self).head() == old(self).head(),
            r is Ok ==> !final(self).fenced() && final(self).head() == published6(*old(self))
                && generation6_written(old(disk).contents(), final(disk).contents(), *old(self), published6(*old(self)).active),
    {
        self.ready()?;
        self.publish(disk)?;
        self.unfence();
        Ok(())
    }

    /// Write `bytes` into record `index` and record the extents that hold
    /// them, refusing a record whose version is not `expected`. The payload is
    /// allocated before anything is written, so a full or conflicting request
    /// leaves the record untouched. Returns the new version.
    pub fn write_file<D: Disk>(&mut self, disk: &mut D, index: usize, expected: u64, bytes: &[u8]) -> (r: Result<u64, Error>)
        requires
            old(self).wf(),
            old(self).head().active < GENERATIONS,
        ensures
            final(self).wf(),
            old(self).fenced() ==> r == Err::<u64, Error>(Error::Uncertain) && *final(self) == *old(self) && final(disk).contents() == old(disk).contents() && final(disk).requests() == old(disk).requests(),
            !old(self).fenced() && (index >= OBJECTS_V6 || bytes@.len() > MAX_FILE_V6) ==> r == Err::<u64, Error>(Error::Size)
                && *final(self) == *old(self) && final(disk).contents() == old(disk).contents() && final(disk).requests() == old(disk).requests(),
            !old(self).fenced() && index < OBJECTS_V6 && bytes@.len() <= MAX_FILE_V6 && old(self).table()[index as int].kind == crate::namespace::Kind::Empty
                ==> r == Err::<u64, Error>(Error::NotFound) && *final(self) == *old(self) && final(disk).contents() == old(disk).contents() && final(disk).requests() == old(disk).requests(),
            !old(self).fenced() && index < OBJECTS_V6 && bytes@.len() <= MAX_FILE_V6 && old(self).table()[index as int].kind != crate::namespace::Kind::Empty
                && old(self).table()[index as int].version != expected
                ==> r == Err::<u64, Error>(Error::Version) && *final(self) == *old(self) && final(disk).contents() == old(disk).contents() && final(disk).requests() == old(disk).requests(),
            r is Err && !final(self).fenced() ==> final(self).table() == old(self).table() && final(self).words() == old(self).words()
                && final(disk).contents() == old(disk).contents() && final(disk).requests() == old(disk).requests(),
            r is Err && final(self).fenced() ==> r == Err::<u64, Error>(Error::Uncertain),
            !old(self).fenced() && index < OBJECTS_V6 && bytes@.len() <= MAX_FILE_V6 && old(self).table()[index as int].kind != crate::namespace::Kind::Empty
                && old(self).table()[index as int].version == expected ==> {
                &&& r == Err::<u64, Error>(Error::Full) <==> reserve6(old(self).words(), Seq::empty(), sectors_for(bytes@.len() as int)) is Err
                &&& r is Err ==> r == Err::<u64, Error>(Error::Full) || (r == Err::<u64, Error>(Error::Uncertain) && final(self).fenced())
            },
            r matches Ok(version) ==> {
                let n = final(self).table()[index as int];
                let prev = old(self).table()[index as int];
                &&& index < OBJECTS_V6
                &&& !final(self).fenced()
                &&& version == if expected == u64::MAX { u64::MAX } else { (expected + 1) as u64 }
                &&& prev.version == expected
                &&& final(self).table() == old(self).table().update(index as int, n)
                &&& n == Node6 { version, length: n.length, extents: n.extents, extents_used: n.extents_used, ..prev }
                &&& holds_file(final(disk).contents(), n, bytes@)
                &&& forall|s: int| 0 <= s < DATA_SECTORS ==> #[trigger] bit(final(self).words(), s) == ((bit(old(self).words(), s) || covered(n.extents@, n.extents_used as int, s)) && !covered(prev.extents@, prev.extents_used as int, s))
                &&& final(self).head() == publish_header(old(self).head(), final(self).table(), final(self).words(), final(self).retained())
                &&& generation6_holds(final(disk).contents(), final(self).table(), final(self).words(), final(self).retained(), final(self).head(), final(self).head().active)
            },
    {
        self.ready()?;
        if index >= OBJECTS_V6 || bytes.len() > MAX_FILE_V6 {
            return Err(Error::Size);
        }
        if self.nodes[index].kind == crate::namespace::Kind::Empty {
            return Err(Error::NotFound);
        }
        if self.nodes[index].version != expected {
            return Err(Error::Version);
        }
        if let Err(error) = self.stage(disk, index, bytes) {
            return Err(self.outcome(error));
        }
        let ghost c1 = disk.contents();
        let ghost staged = self.table()[index as int];
        assert(holds_file(c1, staged, bytes@));
        self.fence();
        let mut node = self.nodes[index];
        node.version = node.version.saturating_add(1);
        let version = node.version;
        self.nodes[index] = node;
        proof {
            assert forall|i: int| 0 <= i < OBJECTS_V6 implies node6_storable(#[trigger] self.table()[i]) by {}
            assert(self.table() =~= old(self).table().update(index as int, node));
        }
        let ghost v1 = *self;
        self.publish(disk)?;
        self.unfence();
        proof {
            let c2 = disk.contents();
            assert forall|s: u64| s >= PAYLOAD_SECTOR implies #[trigger] c2[s] == c1[s] by {
                assert(!written_by(published6(v1).active, s));
            }
            assert forall|p: int| 0 <= p < bytes@.len() implies #[trigger] file_byte(c2, runs_of(node), p) == bytes@[p] by {
                assert(node6_storable(node));
                assert forall|k: int| 0 <= k < runs_of(node).len() implies #[trigger] runs_of(node)[k].start + runs_of(node)[k].sectors <= DATA_SECTORS by {
                    assert(runs_of(node)[k] == node.extents@[k]);
                }
                assert(runs_of(node) == runs_of(staged));
                assert(file_byte(c1, runs_of(staged), p) == bytes@[p]);
                lemma_file_byte_frame(c2, c1, runs_of(node), p);
            }
        }
        Ok(version)
    }
}

} // verus!

verus! {

use crate::recovery::Retry;
use crate::receipt6::{Receipt6, RETAINED_V6, filled, holds_retry};
use crate::namespace::Kind;

/// A retained v6 receipt answers a retry with other arguments.
pub open spec fn conflicts6(rec: Receipt6, id: u32, expected: u64, length: nat) -> bool {
    rec.id != id || rec.previous != expected || rec.length != length
}

impl Volume6 {
    /// What a tracked write answers before anything is written: a retained
    /// receipt to replay, `None` to write, or the refusal.
    pub open spec fn spec_tracked(&self, index: usize, expected: u64, retry: Retry, length: nat) -> Result<Option<Receipt6>, Error> {
        if self.fenced() {
            Err(Error::Uncertain)
        } else if index >= OBJECTS_V6 || length > MAX_FILE_V6 {
            Err(Error::Size)
        } else if self.table()[index as int].kind == Kind::Empty {
            Err(Error::NotFound)
        } else {
            match self.retained().spec_find(retry) {
                Err(e) => Err(e),
                Ok(Some(rec)) => if conflicts6(rec, self.table()[index as int].id, expected, length) {
                    Err(Error::IdempotencyConflict)
                } else {
                    Ok(Some(rec))
                },
                Ok(None) => if self.table()[index as int].version != expected {
                    Err(Error::Version)
                } else if filled(self.retained().spec_slots()) >= RETAINED_V6 {
                    Err(Error::Full)
                } else {
                    Ok(None)
                },
            }
        }
    }

    /// Write `bytes` and retain the operation identity that produced them, so
    /// data, version and receipt are published by one commit. A repeated retry
    /// returns the retained receipt without writing; one describing another
    /// write is a conflict; a full table is `Full` before any payload is
    /// staged. A replay matches identity, previous version and length.
    pub fn write_tracked<D: Disk>(&mut self, disk: &mut D, index: usize, expected: u64, retry: Retry, bytes: &[u8]) -> (r: Result<Receipt6, Error>)
        requires
            old(self).wf(),
            old(self).head().active < GENERATIONS,
        ensures
            final(self).wf(),
            old(self).spec_tracked(index, expected, retry, bytes@.len()) matches Err(e) ==> r == Err::<Receipt6, Error>(e)
                && *final(self) == *old(self) && final(disk).contents() == old(disk).contents() && final(disk).requests() == old(disk).requests(),
            old(self).spec_tracked(index, expected, retry, bytes@.len()) matches Ok(Some(rec)) ==> r == Ok::<Receipt6, Error>(rec)
                && *final(self) == *old(self) && final(disk).contents() == old(disk).contents() && final(disk).requests() == old(disk).requests(),
            r is Err && !final(self).fenced() ==> final(self).table() == old(self).table() && final(self).words() == old(self).words()
                && final(self).retained() == old(self).retained() && final(disk).contents() == old(disk).contents() && final(disk).requests() == old(disk).requests(),
            r is Err && final(self).fenced() ==> r == Err::<Receipt6, Error>(Error::Uncertain),
            old(self).spec_tracked(index, expected, retry, bytes@.len()) == Ok::<Option<Receipt6>, Error>(None) ==> {
                &&& r == Err::<Receipt6, Error>(Error::Full) <==> reserve6(old(self).words(), Seq::empty(), sectors_for(bytes@.len() as int)) is Err
                &&& r is Err ==> r == Err::<Receipt6, Error>(Error::Full) || (r == Err::<Receipt6, Error>(Error::Uncertain) && final(self).fenced())
            },
            old(self).spec_tracked(index, expected, retry, bytes@.len()) == Ok::<Option<Receipt6>, Error>(None) ==> (r matches Ok(rc) ==> {
                let n = final(self).table()[index as int];
                let prev = old(self).table()[index as int];
                let version = if expected == u64::MAX { u64::MAX } else { (expected + 1) as u64 };
                &&& !final(self).fenced()
                &&& rc == Receipt6 { retry, id: prev.id, previous: expected, committed: version, length: bytes@.len() as u32 }
                &&& final(self).table() == old(self).table().update(index as int, n)
                &&& n == Node6 { version, length: n.length, extents: n.extents, extents_used: n.extents_used, ..prev }
                &&& holds_file(final(disk).contents(), n, bytes@)
                &&& final(self).retained().spec_lineage() == old(self).retained().spec_lineage()
                &&& final(self).retained().spec_epoch() == old(self).retained().spec_epoch()
                &&& final(self).retained().spec_slots() == old(self).retained().spec_slots().update(
                    crate::receipt6::first_empty(old(self).retained().spec_slots(), 0).unwrap(), Some(rc))
                &&& final(self).head() == publish_header(old(self).head(), final(self).table(), final(self).words(), final(self).retained())
                &&& generation6_holds(final(disk).contents(), final(self).table(), final(self).words(), final(self).retained(), final(self).head(), final(self).head().active)
            }),
    {
        self.ready()?;
        if index >= OBJECTS_V6 || bytes.len() > MAX_FILE_V6 {
            return Err(Error::Size);
        }
        let id = self.nodes[index].id;
        if self.nodes[index].kind == Kind::Empty {
            return Err(Error::NotFound);
        }
        if let Some(record) = self.receipts.find(retry)? {
            if record.id != id || record.previous != expected || record.length != bytes.len() as u32 {
                return Err(Error::IdempotencyConflict);
            }
            return Ok(record);
        }
        if self.nodes[index].version != expected {
            return Err(Error::Version);
        }
        if self.receipts.len() >= RETAINED_V6 {
            return Err(Error::Full);
        }
        if let Err(error) = self.stage(disk, index, bytes) {
            return Err(self.outcome(error));
        }
        let ghost c1 = disk.contents();
        let ghost staged = self.table()[index as int];
        assert(holds_file(c1, staged, bytes@));
        self.fence();
        let mut node = self.nodes[index];
        node.version = node.version.saturating_add(1);
        let version = node.version;
        self.nodes[index] = node;
        proof {
            assert forall|i: int| 0 <= i < OBJECTS_V6 implies node6_storable(#[trigger] self.table()[i]) by {}
            assert(self.table() =~= old(self).table().update(index as int, node));
        }
        let receipt = Receipt6 { retry, id, previous: expected, committed: version, length: bytes.len() as u32 };
        proof {
            crate::receipt6::lemma_no_match(self.retained().spec_slots(), retry);
        }
        let mut receipts = self.receipts;
        if receipts.retain(receipt).is_err() {
            return Err(Error::Uncertain);
        }
        self.receipts = receipts;
        let ghost v1 = *self;
        self.publish(disk)?;
        self.unfence();
        proof {
            let c2 = disk.contents();
            assert forall|s: u64| s >= PAYLOAD_SECTOR implies #[trigger] c2[s] == c1[s] by {
                assert(!written_by(published6(v1).active, s));
            }
            assert forall|p: int| 0 <= p < bytes@.len() implies #[trigger] file_byte(c2, runs_of(node), p) == bytes@[p] by {
                assert(node6_storable(node));
                assert forall|k: int| 0 <= k < runs_of(node).len() implies #[trigger] runs_of(node)[k].start + runs_of(node)[k].sectors <= DATA_SECTORS by {
                    assert(runs_of(node)[k] == node.extents@[k]);
                }
                assert(runs_of(node) == runs_of(staged));
                assert(file_byte(c1, runs_of(staged), p) == bytes@[p]);
                lemma_file_byte_frame(c2, c1, runs_of(node), p);
            }
        }
        Ok(receipt)
    }
}

} // verus!

verus! {

/// A tracked write replays: once `write_tracked` has written `rc` for a new
/// retry, taking `before` to `after`, the same request on `after` is answered
/// with `rc` itself, so a repeat writes nothing and changes nothing.
pub proof fn lemma_tracked_replays(before: Volume6, after: Volume6, index: usize, expected: u64, retry: Retry, length: nat, rc: Receipt6)
    requires
        before.spec_tracked(index, expected, retry, length) == Ok::<Option<Receipt6>, Error>(None),
        ({
            let prev = before.table()[index as int];
            let version = if expected == u64::MAX { u64::MAX } else { (expected + 1) as u64 };
            let n = after.table()[index as int];
            &&& !after.fenced()
            &&& rc == Receipt6 { retry, id: prev.id, previous: expected, committed: version, length: length as u32 }
            &&& after.table() == before.table().update(index as int, n)
            &&& n == Node6 { version, length: n.length, extents: n.extents, extents_used: n.extents_used, ..prev }
            &&& after.retained().spec_lineage() == before.retained().spec_lineage()
            &&& after.retained().spec_epoch() == before.retained().spec_epoch()
            &&& after.retained().spec_slots() == before.retained().spec_slots().update(
                crate::receipt6::first_empty(before.retained().spec_slots(), 0).unwrap(), Some(rc))
        }),
    ensures
        after.spec_tracked(index, expected, retry, length) == Ok::<Option<Receipt6>, Error>(Some(rc)),
{
    let old_slots = before.retained().spec_slots();
    let slots = after.retained().spec_slots();
    before.retained().lemma_slots_len();
    after.retained().lemma_slots_len();
    crate::receipt6::lemma_first_empty_at(old_slots, 0);
    if crate::receipt6::first_empty(old_slots, 0) is None {
        crate::receipt6::lemma_all_filled(old_slots);
    }
    let j = crate::receipt6::first_empty(old_slots, 0)->Some_0;
    crate::receipt6::lemma_no_match(old_slots, retry);
    assert forall|k: int| 0 <= k < j implies !crate::receipt6::slot_is(#[trigger] slots[k], retry) by {
        assert(slots[k] == old_slots[k]);
        if crate::receipt6::slot_is(old_slots[k], retry) {
            assert(crate::receipt6::holds_retry(old_slots, retry));
        }
    }
    crate::receipt6::lemma_first_match(slots, retry, j);
    assert(crate::receipt6::first_match(slots, retry, j) == Some(rc));
}

}

verus! {

use crate::format6::{spec_decode_node6, spec_decode_header6};
use crate::codec::get_u64;
use vstd::bytes::spec_u64_from_le_bytes;

impl Volume6 {
    /// Remove record `index` and give its runs back.
    pub fn remove_file<D: Disk>(&mut self, disk: &mut D, index: usize) -> (r: Result<(), Error>)
        requires
            old(self).wf(),
            old(self).head().active < GENERATIONS,
        ensures
            final(self).wf(),
            old(self).fenced() ==> r == Err::<(), Error>(Error::Uncertain) && *final(self) == *old(self) && final(disk).contents() == old(disk).contents() && final(disk).requests() == old(disk).requests(),
            !old(self).fenced() && index >= OBJECTS_V6 ==> r == Err::<(), Error>(Error::Size) && *final(self) == *old(self) && final(disk).contents() == old(disk).contents() && final(disk).requests() == old(disk).requests(),
            !old(self).fenced() && index < OBJECTS_V6 && old(self).table()[index as int].kind == Kind::Empty
                ==> r == Err::<(), Error>(Error::NotFound) && *final(self) == *old(self) && final(disk).contents() == old(disk).contents() && final(disk).requests() == old(disk).requests(),
            r is Err && final(self).fenced() ==> r == Err::<(), Error>(Error::Uncertain),
            !old(self).fenced() && index < OBJECTS_V6 && old(self).table()[index as int].kind != Kind::Empty
                ==> (r is Err ==> r == Err::<(), Error>(Error::Uncertain) && final(self).fenced()),
            r is Ok ==> {
                let prev = old(self).table()[index as int];
                &&& index < OBJECTS_V6
                &&& !final(self).fenced()
                &&& final(self).table() == old(self).table().update(index as int, empty_node6())
                &&& forall|s: int| 0 <= s < DATA_SECTORS ==> #[trigger] bit(final(self).words(), s) == (bit(old(self).words(), s) && !covered(prev.extents@, prev.extents_used as int, s))
                &&& final(self).head() == publish_header(old(self).head(), final(self).table(), final(self).words(), final(self).retained())
                &&& generation6_holds(final(disk).contents(), final(self).table(), final(self).words(), final(self).retained(), final(self).head(), final(self).head().active)
            },
    {
        self.ready()?;
        if index >= OBJECTS_V6 {
            return Err(Error::Size);
        }
        if self.nodes[index].kind == Kind::Empty {
            return Err(Error::NotFound);
        }
        self.fence();
        let runs = self.nodes[index].extents;
        let used = self.nodes[index].extents_used as usize;
        let ghost w0 = self.words();
        proof {
            assert(node6_storable(self.table()[index as int]));
        }
        let mut j: usize = 0;
        while j < used
            invariant
                0 <= j <= used <= EXTENTS_PER_FILE,
                runs == old(self).table()[index as int].extents,
                used == old(self).table()[index as int].extents_used,
                !old(self).fenced(),
                index < OBJECTS_V6,
                old(self).table()[index as int].kind != Kind::Empty,
                self.wf(),
                self.fenced(),
                self.same_records(old(self)),
                w0 == old(self).words(),
                forall|s: int| 0 <= s < DATA_SECTORS ==> #[trigger] bit(self.words(), s) == (bit(w0, s) && !covered(runs@, j as int, s)),
            decreases used - j,
        {
            let run = runs[j];
            if self.release(run).is_err() {
                return Err(Error::Uncertain);
            }
            proof {
                assert forall|s: int| 0 <= s < DATA_SECTORS implies #[trigger] bit(self.words(), s) == (bit(w0, s) && !covered(runs@, j + 1, s)) by {
                    if run.start <= s < run.start + run.sectors {
                        assert(covered(runs@, j + 1, s)) by {
                            assert(runs@[j as int].start <= s < runs@[j as int].start + runs@[j as int].sectors);
                        }
                    } else {
                        if covered(runs@, j + 1, s) {
                            let k = choose|k: int| 0 <= k < j + 1 && #[trigger] runs@[k].start <= s < runs@[k].start + runs@[k].sectors;
                            assert(covered(runs@, j as int, s));
                        }
                        if covered(runs@, j as int, s) {
                            let k = choose|k: int| 0 <= k < j && #[trigger] runs@[k].start <= s < runs@[k].start + runs@[k].sectors;
                            assert(covered(runs@, j + 1, s));
                        }
                    }
                }
            }
            j = j + 1;
        }
        let empty = Node6::empty();
        self.nodes[index] = empty;
        proof {
            let z = [Extent { start: 0, sectors: 0 }; EXTENTS_PER_FILE];
            assert(forall|k: int| 0 <= k < 8 ==> #[trigger] z@[k] == (Extent { start: 0, sectors: 0 }));
            crate::codec::lemma_zero_runs(z);
            assert(empty.extents@ =~= z@);
            assert(empty.extents@.take(0) =~= Seq::<Extent>::empty());
            assert(node6_storable(empty));
            assert forall|i: int| 0 <= i < OBJECTS_V6 implies node6_storable(#[trigger] self.table()[i]) by {
                if i != index {
                    assert(self.table()[i] == old(self).table()[i]);
                }
            }
            assert(self.table() =~= old(self).table().update(index as int, empty_node6()));
        }
        self.publish(disk)?;
        self.unfence();
        Ok(())
    }

    /// Read record `node`'s bytes into `out`, returning how many were copied;
    /// `out` must hold the whole file.
    pub fn read_file<D: Disk>(&self, disk: &mut D, node: &Node6, out: &mut [u8]) -> (r: Result<usize, Error>)
        requires
            node.extents_used <= EXTENTS_PER_FILE,
            forall|k: int| 0 <= k < node.extents_used ==> PAYLOAD_SECTOR + (#[trigger] node.extents@[k]).start + node.extents@[k].sectors <= u64::MAX,
            old(out)@.len() >= node.length ==> 512 * total_sectors(node.extents@.take(node.extents_used as int)) <= u64::MAX,
        ensures
            final(disk).contents() == old(disk).contents(),
            final(out)@.len() == old(out)@.len(),
            self.fenced() ==> r == Err::<usize, Error>(Error::Uncertain) && final(out)@ == old(out)@,
            !self.fenced() && old(out)@.len() < node.length ==> r == Err::<usize, Error>(Error::Size) && final(out)@ == old(out)@
                && final(disk).requests() == old(disk).requests(),
            !self.fenced() && old(out)@.len() >= node.length && node.length > 512 * total_sectors(runs_of(*node))
                ==> r == Err::<usize, Error>(Error::Corrupt) && final(out)@ == old(out)@ && final(disk).requests() == old(disk).requests(),
            r matches Ok(count) ==> {
                &&& count == node.length
                &&& forall|i: int| 0 <= i < count ==> #[trigger] final(out)@[i] == file_byte(old(disk).contents(), runs_of(*node), i)
                &&& forall|i: int| count <= i < old(out)@.len() ==> #[trigger] final(out)@[i] == old(out)@[i]
            },
    {
        self.ready()?;
        let length = node.length as usize;
        if out.len() < length {
            return Err(Error::Size);
        }
        self.read_range(disk, node, 0, out)
    }

    /// The live record of object `id`.
    pub fn node(&self, id: u32) -> (r: Option<&Node6>)
        ensures
            r matches Some(n) ==> exists|i: int| 0 <= i < OBJECTS_V6 && self.table()[i] == *n && n.id == id && n.kind != Kind::Empty
                && forall|j: int| 0 <= j < i ==> !(#[trigger] self.table()[j].id == id && self.table()[j].kind != Kind::Empty),
            r is None ==> forall|i: int| 0 <= i < OBJECTS_V6 ==> !(#[trigger] self.table()[i].id == id && self.table()[i].kind != Kind::Empty),
    {
        let mut i: usize = 0;
        while i < OBJECTS_V6
            invariant
                0 <= i <= OBJECTS_V6,
                forall|j: int| 0 <= j < i ==> !(#[trigger] self.table()[j].id == id && self.table()[j].kind != Kind::Empty),
            decreases OBJECTS_V6 - i,
        {
            if self.nodes[i].id == id && self.nodes[i].kind != Kind::Empty {
                assert(self.table()[i as int] == self.nodes[i as int]);
                return Some(&self.nodes[i]);
            }
            i = i + 1;
        }
        None
    }

    /// Retain a receipt and publish it with the next commit.
    pub fn retain_receipt<D: Disk>(&mut self, disk: &mut D, receipt: Receipt6) -> (r: Result<(), Error>)
        requires
            old(self).wf(),
            old(self).head().active < GENERATIONS,
        ensures
            final(self).wf(),
            final(self).table() == old(self).table(),
            final(self).words() == old(self).words(),
            old(self).fenced() ==> r == Err::<(), Error>(Error::Uncertain) && *final(self) == *old(self) && final(disk).contents() == old(disk).contents() && final(disk).requests() == old(disk).requests(),
            r is Err && !final(self).fenced() ==> *final(self) == *old(self) && final(disk).contents() == old(disk).contents() && final(disk).requests() == old(disk).requests(),
            r is Err && final(self).fenced() ==> r == Err::<(), Error>(Error::Uncertain),
            !old(self).fenced() ==> match old(self).retained().spec_retain(receipt) {
                Err(e) => r == Err::<(), Error>(e) && *final(self) == *old(self) && final(disk).contents() == old(disk).contents() && final(disk).requests() == old(disk).requests(),
                Ok(()) => r is Err ==> r == Err::<(), Error>(Error::Uncertain) && final(self).fenced(),
            },
            r is Ok ==> !final(self).fenced()
                && final(self).head() == publish_header(old(self).head(), final(self).table(), final(self).words(), final(self).retained())
                && generation6_holds(final(disk).contents(), final(self).table(), final(self).words(), final(self).retained(), final(self).head(), final(self).head().active)
                && final(self).retained().spec_slots() == (if holds_retry(old(self).retained().spec_slots(), receipt.retry) {
                    old(self).retained().spec_slots()
                } else {
                    old(self).retained().spec_slots().update(crate::receipt6::first_empty(old(self).retained().spec_slots(), 0).unwrap(), Some(receipt))
                }),
    {
        self.ready()?;
        let mut receipts = self.receipts;
        receipts.retain(receipt)?;
        self.receipts = receipts;
        assert(self.table() == old(self).table());
        assert(self.wf());
        self.fence();
        self.publish(disk)?;
        self.unfence();
        Ok(())
    }

    /// The retained record for a retry, or `None`. A fenced mount answers
    /// `Uncertain`: its table may hold a receipt whose commit never settled.
    pub fn find_receipt(&self, retry: Retry) -> (r: Result<Option<Receipt6>, Error>)
        ensures
            self.fenced() ==> r == Err::<Option<Receipt6>, Error>(Error::Uncertain),
            !self.fenced() ==> r == self.retained().spec_find(retry),
    {
        self.ready()?;
        self.receipts.find(retry)
    }

    /// Put `node` in slot `index` without staging or publishing anything.
    pub(crate) fn place(&mut self, index: usize, node: Node6)
        requires
            old(self).wf(),
            index < OBJECTS_V6,
            node6_storable(node),
        ensures
            final(self).wf(),
            final(self).table() == old(self).table().update(index as int, node),
            final(self).words() == old(self).words(),
            final(self).head() == old(self).head(),
            final(self).retained() == old(self).retained(),
            final(self).fenced() == old(self).fenced(),
    {
        let ghost before = self.nodes@;
        self.nodes[index] = node;
        proof {
            assert(self.nodes@ == before.update(index as int, node));
            assert forall|i: int| 0 <= i < OBJECTS_V6 implies node6_storable(#[trigger] self.table()[i]) by {
                if i != index {
                    assert(self.nodes@[i] == before[i]);
                    assert(old(self).table()[i] == before[i]);
                    assert(node6_storable(old(self).table()[i]));
                }
            }
        }
    }

    /// Stage `bytes` into record `index` without publishing: the version and
    /// the commit stay with the caller.
    pub(crate) fn stage_bytes<D: Disk>(&mut self, disk: &mut D, index: usize, bytes: &[u8]) -> (r: Result<(), Error>)
        requires
            old(self).wf(),
        ensures
            final(self).wf(),
            final(self).head() == old(self).head(),
            final(self).retained() == old(self).retained(),
            old(self).fenced() ==> r == Err::<(), Error>(Error::Uncertain),
            r is Ok ==> {
                let n = final(self).table()[index as int];
                let prev = old(self).table()[index as int];
                &&& index < OBJECTS_V6
                &&& !final(self).fenced()
                &&& holds_file(final(disk).contents(), n, bytes@)
                &&& final(self).table() == old(self).table().update(index as int, n)
                &&& n == Node6 { length: n.length, extents: n.extents, extents_used: n.extents_used, ..prev }
                &&& forall|s: int| 0 <= s < DATA_SECTORS ==> #[trigger] bit(final(self).words(), s) == ((bit(old(self).words(), s) || covered(n.extents@, n.extents_used as int, s)) && !covered(prev.extents@, prev.extents_used as int, s))
                &&& final(disk).contents().dom() == old(disk).contents().dom()
                &&& forall|s: u64| !covered(n.extents@, n.extents_used as int, s - PAYLOAD_SECTOR) ==> #[trigger] final(disk).contents()[s] == old(disk).contents()[s]
                &&& forall|s: int| 0 <= s < DATA_SECTORS && covered(n.extents@, n.extents_used as int, s) ==> !#[trigger] bit(old(self).words(), s)
            },
    {
        self.ready()?;
        if index >= OBJECTS_V6 || bytes.len() > MAX_FILE_V6 {
            return Err(Error::Size);
        }
        if self.nodes[index].kind == Kind::Empty {
            return Err(Error::NotFound);
        }
        self.stage(disk, index, bytes)
    }
}

} // verus!

verus! {

use crate::format::read_sectors;
use crate::receipt6::BLOCK_BYTES;

/// Record `i` of generation `g` decodes to `n`.
pub open spec fn node_decoded(c: Map<u64, Seq<u8>>, g: u8, i: int, n: Node6) -> bool {
    let s = (generation_base(g) + i / 4) as u64;
    spec_decode_node6(c[s].subrange(128 * (i % 4), 128 * (i % 4) + 128)) == Ok::<Node6, Error>(n)
}

/// Word `i` of generation `g`'s map is `w`.
pub open spec fn word_decoded(c: Map<u64, Seq<u8>>, g: u8, i: int, w: u64) -> bool {
    let s = (generation_base(g) + 64 + i / 64) as u64;
    w == spec_u64_from_le_bytes(c[s].subrange(8 * (i % 64), 8 * (i % 64) + 8))
}

/// `v` holds what the generation its header names decodes to, and the header
/// checksums agree with it.
pub open spec fn mounted6(c: Map<u64, Seq<u8>>, v: Volume6) -> bool {
    let h = v.head();
    let g = h.active;
    let block = c[(generation_base(g) + 96) as u64] + c[(generation_base(g) + 97) as u64];
    &&& spec_decode_header6(c[HEADER_SECTOR]) == Ok::<Header6, Error>(h)
    &&& forall|i: int| 0 <= i < OBJECTS_V6 ==> #[trigger] node_decoded(c, g, i, v.table()[i])
    &&& forall|i: int| 0 <= i < MAP_WORDS ==> #[trigger] word_decoded(c, g, i, v.words()[i])
    &&& v.retained().spec_lineage() == crate::codec::spec_array::<16>(block.subrange(0, 16))
    &&& v.retained().spec_epoch() == spec_u64_from_le_bytes(block.subrange(16, 24))
    &&& v.retained().spec_slots() == crate::receipt6::decoded_slots(block.subrange(24, 792), v.retained().spec_lineage())
    &&& h.nodes_checksum == spec_crc(table6_image(v.table()))
    &&& h.map_checksum == spec_crc(map_image(v.words()))
    &&& h.receipts_checksum == spec_crc(crate::receipt6::table_image(v.retained().spec_lineage(), v.retained().spec_epoch(), v.retained().spec_slots()))
}

/// The device holds every metadata sector of the layout in full.
pub open spec fn layout_present6(c: Map<u64, Seq<u8>>) -> bool {
    forall|s: u64| s < PAYLOAD_SECTOR ==> #[trigger] c.dom().contains(s) && c[s].len() == 512
}

/// The node table generation `g` of `c` decodes to, slot by slot.
pub open spec fn decoded_table6(c: Map<u64, Seq<u8>>, g: u8) -> Seq<Node6> {
    Seq::new(OBJECTS_V6 as nat, |i: int| spec_decode_node6(c[(generation_base(g) + i / 4) as u64].subrange(128 * (i % 4), 128 * (i % 4) + 128))->Ok_0)
}

/// The map words generation `g` of `c` holds.
pub open spec fn decoded_words6(c: Map<u64, Seq<u8>>, g: u8) -> Seq<u64> {
    Seq::new(MAP_WORDS as nat, |i: int| spec_u64_from_le_bytes(c[(generation_base(g) + 64 + i / 64) as u64].subrange(8 * (i % 64), 8 * (i % 64) + 8)))
}

/// What `c` holds decodes as a generation: the header, every node slot and
/// the retained block decode, and each region matches the header's checksum.
pub open spec fn decodes6(c: Map<u64, Seq<u8>>) -> bool {
    match spec_decode_header6(c[HEADER_SECTOR]) {
        Err(_) => false,
        Ok(h) => {
            let g = h.active;
            let block = c[(generation_base(g) + 96) as u64] + c[(generation_base(g) + 97) as u64];
            let lineage = crate::codec::spec_array::<16>(block.subrange(0, 16));
            &&& forall|i: int| 0 <= i < OBJECTS_V6 ==> #[trigger] spec_decode_node6(c[(generation_base(g) + i / 4) as u64].subrange(128 * (i % 4), 128 * (i % 4) + 128)) is Ok
            &&& crate::codec::zero_range(block, 792, 1024)
            &&& block.subrange(0, 16) != Seq::new(16, |i: int| 0u8)
            &&& spec_u64_from_le_bytes(block.subrange(16, 24)) != 0
            &&& crate::receipt6::slots_decode(block.subrange(24, 792), lineage)
            &&& h.nodes_checksum == spec_crc(table6_image(decoded_table6(c, g)))
            &&& h.map_checksum == spec_crc(map_image(decoded_words6(c, g)))
            &&& h.receipts_checksum == spec_crc(crate::receipt6::table_image(lineage, spec_u64_from_le_bytes(block.subrange(16, 24)),
                crate::receipt6::decoded_slots(block.subrange(24, 792), lineage)))
        },
    }
}

/// The header sector, checked on its own.
fn read_header<D: Disk>(disk: &mut D) -> (r: Result<Header6, Error>)
    ensures
        final(disk).contents() == old(disk).contents(),
        r matches Ok(h) ==> old(disk).contents().dom().contains(HEADER_SECTOR) && spec_decode_header6(old(disk).contents()[HEADER_SECTOR]) == Ok::<Header6, Error>(h),
        final(disk).dependable() == old(disk).dependable(),
        old(disk).dependable() && old(disk).contents().dom().contains(HEADER_SECTOR) ==> r == spec_decode_header6(old(disk).contents()[HEADER_SECTOR]),
{
    let mut bytes = [0u8; 512];
    disk.read(HEADER_SECTOR, &mut bytes)?;
    Header6::decode(&bytes)
}

impl Volume6 {
    /// Read every structure of the generation the header names into the
    /// fields and verify it against the header's checksums. The header is
    /// assigned last.
    fn decode<D: Disk>(&mut self, disk: &mut D) -> (r: Result<(), Error>)
        requires
            old(self).wf(),
        ensures
            final(self).wf(),
            final(self).fenced() == old(self).fenced(),
            final(disk).contents() == old(disk).contents(),
            r is Ok ==> mounted6(old(disk).contents(), *final(self)),
            final(disk).dependable() == old(disk).dependable(),
            old(disk).dependable() && layout_present6(old(disk).contents()) ==> (r is Ok <==> decodes6(old(disk).contents()))
                && (r is Err ==> r == Err::<(), Error>(Error::Corrupt)),
    {
        let ghost c = disk.contents();
        proof {
            if layout_present6(c) {
                assert(c.dom().contains(HEADER_SECTOR));
            }
        }
        let header = read_header(disk)?;
        let g = header.active;
        let nodes_base = nodes_sector(g);
        let mut chunk: usize = 0;
        while chunk < 64
            invariant
                0 <= chunk <= 64,
                self.wf(),
                self.fenced() == old(self).fenced(),
                disk.contents() == c,
                disk.dependable() == old(disk).dependable(),
                c == old(disk).contents(),
                g < GENERATIONS,
                g == header.active,
                c.dom().contains(HEADER_SECTOR) && spec_decode_header6(c[HEADER_SECTOR]) == Ok::<Header6, Error>(header),
                nodes_base == generation_base(g),
                forall|i: int| 0 <= i < 4 * chunk ==> #[trigger] node_decoded(c, g, i, self.table()[i]),
            decreases 64 - chunk,
        {
            let mut sector = [0u8; 512];
            proof {
                if layout_present6(c) {
                    assert(c.dom().contains((nodes_base + chunk) as u64));
                }
            }
            disk.read(nodes_base + chunk as u64, &mut sector)?;
            let mut offset: usize = 0;
            while offset < 4
                invariant
                    0 <= offset <= 4,
                    0 <= chunk < 64,
                    self.wf(),
                    self.fenced() == old(self).fenced(),
                    disk.contents() == c,
                    disk.dependable() == old(disk).dependable(),
                    c == old(disk).contents(),
                    g < GENERATIONS,
                    g == header.active,
                    c.dom().contains(HEADER_SECTOR) && spec_decode_header6(c[HEADER_SECTOR]) == Ok::<Header6, Error>(header),
                    nodes_base == generation_base(g),
                    sector@ == c[(nodes_base + chunk) as u64],
                    forall|i: int| 0 <= i < 4 * chunk + offset ==> #[trigger] node_decoded(c, g, i, self.table()[i]),
                decreases 4 - offset,
            {
                let record: [u8; 128] = take_array(&sector, offset * 128);
                let ghost k: int = 4 * chunk + offset;
                let node = match Node6::decode(&record) {
                    Ok(node) => node,
                    Err(e) => {
                        proof {
                            assert(k / 4 == chunk as int);
                            assert(k % 4 == offset as int);
                            assert(record@ == c[(generation_base(g) + k / 4) as u64].subrange(128 * (k % 4), 128 * (k % 4) + 128));
                        }
                        return Err(e);
                    },
                };
                let ghost before = self.table();
                proof {
                    assert(k / 4 == chunk as int);
                    assert(k % 4 == offset as int);
                    assert(record@ == c[(generation_base(g) + k / 4) as u64].subrange(128 * (k % 4), 128 * (k % 4) + 128));
                    assert(node_decoded(c, g, k, node));
                    assert(node6_storable(node));
                }
                self.nodes[4 * chunk + offset] = node;
                proof {
                    assert(self.table() == before.update(k, node));
                    assert forall|j: int| 0 <= j < OBJECTS_V6 implies node6_storable(#[trigger] self.table()[j]) by {
                        if j != k {
                            assert(self.table()[j] == before[j]);
                        }
                    }
                    assert forall|j: int| 0 <= j < k + 1 implies #[trigger] node_decoded(c, g, j, self.table()[j]) by {
                        if j != k {
                            assert(self.table()[j] == before[j]);
                        }
                    }
                }
                offset = offset + 1;
            }
            chunk = chunk + 1;
        }
        let map_base = map_sector(g);
        let mut sector = [0u8; 512];
        let mut words: Vec<u64> = Vec::new();
        let ghost s0 = *self;
        while words.len() < MAP_WORDS
            invariant
                words.len() <= MAP_WORDS,
                *self == s0,
                s0.wf(),
                s0.fenced() == old(self).fenced(),
                disk.contents() == c,
                disk.dependable() == old(disk).dependable(),
                c == old(disk).contents(),
                g < GENERATIONS,
                g == header.active,
                c.dom().contains(HEADER_SECTOR) && spec_decode_header6(c[HEADER_SECTOR]) == Ok::<Header6, Error>(header),
                map_base == generation_base(g) + 64,
                words.len() % 64 != 0 ==> sector@ == c[(map_base + words.len() / 64) as u64],
                forall|i: int| 0 <= i < OBJECTS_V6 ==> #[trigger] node_decoded(c, g, i, s0.table()[i]),
                forall|i: int| 0 <= i < words.len() ==> #[trigger] word_decoded(c, g, i, words@[i]),
            decreases MAP_WORDS - words.len(),
        {
            let index = words.len();
            if index % 64 == 0 {
                proof {
                    if layout_present6(c) {
                        assert(c.dom().contains((map_base + index / 64) as u64));
                    }
                }
                disk.read(map_base + (index / 64) as u64, &mut sector)?;
            }
            let word = get_u64(&sector, (index % 64) * 8);
            words.push(word);
            proof {
                assert(word_decoded(c, g, index as int, word));
            }
        }
        self.map = words;
        proof {
            assert(self.table() == s0.table());
            assert(self.words().len() == MAP_WORDS);
            assert forall|i: int| 0 <= i < OBJECTS_V6 implies node6_storable(#[trigger] self.table()[i]) by {
                assert(s0.table()[i] == self.table()[i]);
            }
        }
        let mut block = [0u8; BLOCK_BYTES];
        proof {
            if layout_present6(c) {
                let s = (map_base + 32) as u64;
                assert forall|k: int| 0 <= k < 2 implies c.dom().contains(#[trigger] ((s + k) as u64)) && c[(s + k) as u64].len() == 512 by {
                    assert(((s + k) as u64) < PAYLOAD_SECTOR);
                }
            }
        }
        read_sectors(disk, map_base + 32, 2, &mut block)?;
        let ghost b = c[(generation_base(g) + 96) as u64] + c[(generation_base(g) + 97) as u64];
        proof {
            let s = (map_base + 32) as u64;
            assert(s == (generation_base(g) + 96) as u64);
            assert(crate::format::sectors_from(c, s, 0) == Seq::<u8>::empty());
            assert(crate::format::sectors_from(c, s, 1) == crate::format::sectors_from(c, s, 0) + c[s]);
            assert(crate::format::sectors_from(c, s, 2) == crate::format::sectors_from(c, s, 1) + c[(s + 1) as u64]);
            assert(crate::format::sectors_from(c, s, 2) =~= b);
            assert(self.table() =~= decoded_table6(c, g)) by {
                assert forall|i: int| 0 <= i < OBJECTS_V6 implies self.table()[i] == decoded_table6(c, g)[i] by {
                    assert(node_decoded(c, g, i, self.table()[i]));
                }
            }
            assert(self.words() =~= decoded_words6(c, g)) by {
                assert forall|i: int| 0 <= i < MAP_WORDS implies self.words()[i] == decoded_words6(c, g)[i] by {
                    assert(word_decoded(c, g, i, self.words()[i]));
                }
            }
            assert forall|i: int| 0 <= i < OBJECTS_V6 implies #[trigger] spec_decode_node6(c[(generation_base(g) + i / 4) as u64].subrange(128 * (i % 4), 128 * (i % 4) + 128)) is Ok by {
                assert(node_decoded(c, g, i, self.table()[i]));
            }
        }
        let receipts = Receipts6::decode_block(&block)?;
        if map_checksum(&self.map) != header.map_checksum || nodes_checksum(&self.nodes) != header.nodes_checksum
            || receipts.checksum() != header.receipts_checksum {
            return Err(Error::Corrupt);
        }
        self.header = header;
        self.receipts = receipts;
        Ok(())
    }

    /// Drop everything a refused mount read, so no caller observes half of a
    /// volume. The fence stays as it was.
    fn clear(&mut self)
        requires
            old(self).wf(),
        ensures
            final(self).wf(),
            final(self).fenced() == old(self).fenced(),
            final(self).head() == Header6::spec_initial(),
            forall|i: int| 0 <= i < OBJECTS_V6 ==> #[trigger] final(self).table()[i] == empty_node6(),
            final(self).words() == Seq::new(MAP_WORDS as nat, |i: int| 0u64),
    {
        let fresh = Self::empty();
        self.header = fresh.header;
        self.nodes = fresh.nodes;
        self.map = fresh.map;
        self.receipts = fresh.receipts;
    }

    /// Mount into this value, decoding each structure straight into its
    /// field. The device is flushed first, so only durable state is adopted;
    /// the value stays fenced until every checksum agreed, and a refused mount
    /// clears the structures.
    pub fn mount_into<D: Disk>(&mut self, disk: &mut D) -> (r: Result<(), Error>)
        requires
            old(self).wf(),
        ensures
            final(self).wf(),
            r is Ok ==> !final(self).fenced() && mounted6(old(disk).contents(), *final(self)),
            r is Err ==> final(self).fenced() && final(self).head() == Header6::spec_initial()
                && (forall|i: int| 0 <= i < OBJECTS_V6 ==> #[trigger] final(self).table()[i] == empty_node6())
                && final(self).words() == Seq::new(MAP_WORDS as nat, |i: int| 0u64),
            final(disk).dependable() == old(disk).dependable(),
            old(disk).dependable() ==> final(disk).contents() == old(disk).contents(),
            old(disk).dependable() && layout_present6(old(disk).contents()) ==> (r is Ok <==> decodes6(old(disk).contents())),
    {
        self.fence();
        let flushed = disk.flush();
        let result = match flushed {
            Ok(()) => self.decode(disk),
            Err(e) => Err(e),
        };
        match result {
            Ok(()) => {
                self.unfence();
                Ok(())
            },
            Err(error) => {
                self.clear();
                Err(error)
            },
        }
    }
}

/// Slot `i` holds root directory `i + 1` of a fresh volume: its fixed name,
/// version `i + 1`, no payload.
pub open spec fn fresh_root6(n: Node6, i: int) -> bool {
    let name = crate::format::root_name((i + 1) as u32);
    &&& n.id == i + 1
    &&& n.parent == 0
    &&& n.version == i + 1
    &&& n.length == 0
    &&& n.kind == Kind::Directory
    &&& n.space == 0
    &&& n.extents == empty_node6().extents
    &&& n.extents_used == 0
    &&& n.name_length == name.len()
    &&& n.name@ == name + Seq::new((32 - name.len()) as nat, |k: int| 0u8)
}

/// A fresh volume of lineage `lineage`, in memory: the four roots, an all-free
/// map, an empty receipt table at epoch one and the initial header.
pub open spec fn blank6(v: Volume6, lineage: [u8; 16]) -> bool {
    &&& v.wf()
    &&& !v.fenced()
    &&& v.head() == Header6::spec_initial()
    &&& v.words() == Seq::new(MAP_WORDS as nat, |i: int| 0u64)
    &&& v.retained().spec_lineage() == lineage
    &&& v.retained().spec_epoch() == 1
    &&& v.retained().spec_slots() == Seq::new(RETAINED_V6 as nat, |i: int| None::<Receipt6>)
    &&& forall|i: int| 0 <= i < 4 ==> fresh_root6(#[trigger] v.table()[i], i)
    &&& forall|i: int| 4 <= i < OBJECTS_V6 ==> #[trigger] v.table()[i] == empty_node6()
}

/// The roots and empty structures a fresh volume starts from, built in memory
/// so a caller that publishes later can stage records first. A zero lineage
/// is `Invalid`.
pub(crate) fn blank(lineage: [u8; 16]) -> (r: Result<Volume6, Error>)
    ensures
        r is Err <==> lineage@ == Seq::new(16, |i: int| 0u8),
        r is Err ==> r == Err::<Volume6, Error>(Error::Invalid),
        r matches Ok(v) ==> blank6(v, lineage),
{
    let receipts = Receipts6::new(lineage)?;
    let mut volume = Volume6::empty();
    volume.receipts = receipts;
    let mut index: usize = 0;
    while index < 4
        invariant
            0 <= index <= 4,
            volume.wf(),
            !volume.fenced(),
            volume.head() == Header6::spec_initial(),
            volume.words() == Seq::new(MAP_WORDS as nat, |i: int| 0u64),
            volume.retained() == receipts,
            forall|i: int| 0 <= i < index ==> fresh_root6(#[trigger] volume.table()[i], i),
            forall|i: int| index <= i < OBJECTS_V6 ==> #[trigger] volume.table()[i] == empty_node6(),
        decreases 4 - index,
    {
        let id: u32 = index as u32 + 1;
        let name = crate::format::root_name_bytes(id);
        let mut record = Node6::empty();
        assert(node6_storable(record)) by {
            assert(volume.table()[index as int] == empty_node6());
        }
        let mut bytes = record.name;
        let zero = [0u8; 32];
        proof {
            assert(zero@ =~= Seq::new(32, |i: int| 0u8));
            assert(bytes@ == Seq::new(32, |i: int| 0u8));
        }
        put(&mut bytes, 0, name);
        record.name = bytes;
        record.id = id;
        record.parent = 0;
        record.version = id as u64;
        record.kind = Kind::Directory;
        record.name_length = name.len() as u8;
        proof {
            assert(record.name@ =~= name@ + Seq::new((32 - name@.len()) as nat, |k: int| 0u8));
            assert(fresh_root6(record, index as int));
            assert(node6_storable(record));
        }
        let ghost before = volume.table();
        volume.nodes[index] = record;
        proof {
            assert(volume.table() == before.update(index as int, record));
            assert forall|i: int| 0 <= i < OBJECTS_V6 implies node6_storable(#[trigger] volume.table()[i]) by {
                if i != index {
                    assert(volume.table()[i] == before[i]);
                }
            }
            assert forall|i: int| 0 <= i < index + 1 implies fresh_root6(#[trigger] volume.table()[i], i) by {
                if i != index {
                    assert(volume.table()[i] == before[i]);
                }
            }
            assert forall|i: int| index + 1 <= i < OBJECTS_V6 implies #[trigger] volume.table()[i] == empty_node6() by {
                assert(volume.table()[i] == before[i]);
            }
        }
        index = index + 1;
    }
    Ok(volume)
}

/// Write a fresh volume: the four root directories, an empty map and a header
/// that checksums them. The caller owns the disk and its durability.
pub fn provision<D: Disk>(disk: &mut D, lineage: [u8; 16]) -> (r: Result<Volume6, Error>)
    ensures
        lineage@ == Seq::new(16, |i: int| 0u8) ==> r == Err::<Volume6, Error>(Error::Invalid) && final(disk).contents() == old(disk).contents(),
        r matches Ok(v) ==> exists|b: Volume6| {
            &&& #[trigger] blank6(b, lineage)
            &&& v.wf() && !v.fenced()
            &&& v.table() == b.table() && v.words() == b.words() && v.retained() == b.retained()
            &&& v.head() == published6(b)
            &&& generation6_written(old(disk).contents(), final(disk).contents(), b, v.head().active)
        },
        r is Err && lineage@ != Seq::new(16, |i: int| 0u8) ==> r == Err::<Volume6, Error>(Error::Uncertain),
{
    let mut volume = blank(lineage)?;
    let ghost b = volume;
    volume.flush(disk)?;
    assert(blank6(b, lineage));
    Ok(volume)
}

/// Read and verify a v6 volume: every structure is checksummed before it is
/// trusted, and a half-written volume is an error rather than a silent mount.
pub fn mount<D: Disk>(disk: &mut D) -> (r: Result<Volume6, Error>)
    ensures
        r matches Ok(v) ==> v.wf() && !v.fenced() && mounted6(old(disk).contents(), v),
        final(disk).dependable() == old(disk).dependable(),
        old(disk).dependable() ==> final(disk).contents() == old(disk).contents(),
        old(disk).dependable() && layout_present6(old(disk).contents()) ==> (r is Ok <==> decodes6(old(disk).contents())),
{
    let mut volume = Volume6::empty();
    volume.mount_into(disk)?;
    Ok(volume)
}

} // verus!
