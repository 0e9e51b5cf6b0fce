//! Payload planning and reservation against the allocation map.
use vstd::prelude::*;
use crate::extent::{
    Extent, FreeSpace, DATA_SECTORS, MAP_WORDS, EXTENTS_PER_FILE, bit, free_run, used_run, marked,
    set_bit, get_bit, total_sectors, lemma_total_sectors_push,
};
use crate::format7::MAX_FILE_BYTES;
use crate::volume6::{PayloadPlan, apart, covered, sectors_for};
use crate::Error;

verus! {

/// Whether payload sector `sector` is allocated.
pub fn allocated(map: &[u64], sector: u64) -> (r: bool)
    requires
        map@.len() == MAP_WORDS,
        sector < DATA_SECTORS,
    ensures
        r == bit(map@, sector as int),
{
    get_bit(map, sector)
}

/// Mark payload sector `sector` allocated or free.
pub fn set_allocated(map: &mut Vec<u64>, sector: u64, used: bool)
    requires
        old(map)@.len() == MAP_WORDS,
        sector < DATA_SECTORS,
    ensures
        marked(final(map)@, old(map)@, sector as int, sector + 1, used),
{
    set_bit(map, sector, used);
}

/// Every run of the plan is free in `words`.
pub open spec fn plan_free(plan: PayloadPlan, words: Seq<u64>) -> bool {
    forall|k: int| 0 <= k < plan.used ==> free_run(words, (#[trigger] plan.runs@[k]).start as int, plan.runs@[k].sectors as int)
}

/// `run` shares no sector with the first `used` runs.
pub open spec fn clear_of_plan(runs: Seq<Extent>, used: int, run: Extent) -> bool {
    forall|k: int| 0 <= k < used ==> apart(#[trigger] runs[k], run)
}

/// Whether `[start, end)` shares no sector with the plan.
fn clear_of(plan: &PayloadPlan, start: u64, end: u64) -> (r: bool)
    requires
        plan.wf(),
        start <= end,
    ensures
        r == clear_of_plan(plan.runs@, plan.used as int, Extent { start, sectors: (end - start) as u64 }),
{
    let ghost run = Extent { start, sectors: (end - start) as u64 };
    let mut k: usize = 0;
    while k < plan.used
        invariant
            plan.wf(),
            0 <= k <= plan.used,
            start <= end,
            run == (Extent { start, sectors: (end - start) as u64 }),
            forall|j: int| 0 <= j < k ==> apart(#[trigger] plan.runs@[j], run),
        decreases plan.used - k,
    {
        let selected = plan.runs[k];
        assert(selected == plan.runs@[k as int]);
        if start < selected.start + selected.sectors && selected.start < end {
            assert(!apart(plan.runs@[k as int], run));
            return false;
        }
        k = k + 1;
    }
    true
}

/// `run` is a maximal stretch of free sectors of `map`: free throughout, and
/// bounded by an allocated sector or the region's edge on either side.
pub open spec fn stretch7(map: Seq<u64>, run: Extent) -> bool {
    &&& run.sectors > 0
    &&& free_run(map, run.start as int, run.sectors as int)
    &&& (run.start == 0 || bit(map, run.start - 1))
    &&& (run.start + run.sectors == DATA_SECTORS || bit(map, run.start + run.sectors))
}

/// A stretch that shares no sector with the runs chosen so far.
pub open spec fn eligible7(map: Seq<u64>, runs: Seq<Extent>, run: Extent) -> bool {
    &&& stretch7(map, run)
    &&& forall|k: int| 0 <= k < runs.len() ==> apart(#[trigger] runs[k], run)
}

/// `run` is the longest eligible stretch, the first of equals.
pub open spec fn best7(map: Seq<u64>, runs: Seq<Extent>, run: Extent) -> bool {
    &&& eligible7(map, runs, run)
    &&& forall|t: Extent| #[trigger] eligible7(map, runs, t) ==> t.sectors < run.sectors
        || (t.sectors == run.sectors && run.start <= t.start)
}

/// The runs the planner chooses after `runs` for `remaining` more sectors:
/// each round takes the longest eligible stretch, the first of equals, cut to
/// what is still needed; no eligible stretch, or a ninth run, is `Full`.
pub open spec fn greedy7(map: Seq<u64>, runs: Seq<Extent>, remaining: int) -> Result<Seq<Extent>, Error>
    decreases remaining,
{
    if remaining <= 0 {
        Ok(runs)
    } else if runs.len() >= EXTENTS_PER_FILE {
        Err(Error::Full)
    } else if !(exists|b: Extent| #[trigger] best7(map, runs, b)) {
        Err(Error::Full)
    } else {
        let b = choose|b: Extent| #[trigger] best7(map, runs, b);
        let take: int = if b.sectors < remaining { b.sectors as int } else { remaining };
        if take <= 0 {
            Err(Error::Full)
        } else {
            greedy7(map, runs.push(Extent { start: b.start, sectors: take as u64 }), remaining - take)
        }
    }
}

/// Two longest eligible stretches are the same stretch.
proof fn lemma_best_unique(map: Seq<u64>, runs: Seq<Extent>, a: Extent, b: Extent)
    requires
        best7(map, runs, a),
        best7(map, runs, b),
    ensures
        a == b,
{
    assert(eligible7(map, runs, a));
    assert(eligible7(map, runs, b));
}

/// Choose at most eight free runs for `length` bytes without changing the
/// map: each round takes the longest free stretch that shares no sector with
/// the runs chosen so far (the first of equals), cut to what is still needed.
/// A length past the largest file or a map of the wrong size is `Size`; a map
/// that runs out of stretches or of run slots is `Full`.
pub fn plan_payload(map: &[u64], length: usize) -> (r: Result<PayloadPlan, Error>)
    ensures
        r == Err::<PayloadPlan, Error>(Error::Size) <==> (length > MAX_FILE_BYTES || map@.len() != MAP_WORDS),
        r is Err ==> r == Err::<PayloadPlan, Error>(Error::Size) || r == Err::<PayloadPlan, Error>(Error::Full),
        length <= MAX_FILE_BYTES && map@.len() == MAP_WORDS ==> match greedy7(map@, Seq::empty(), sectors_for(length as int)) {
            Ok(runs) => r matches Ok(plan) && plan.runs@.take(plan.used as int) == runs,
            Err(e) => r == Err::<PayloadPlan, Error>(e),
        },
        r matches Ok(plan) ==> {
            &&& plan.wf()
            &&& plan.total() == sectors_for(length as int)
            &&& plan_free(plan, map@)
        },
{
    if length > MAX_FILE_BYTES as usize || map.len() != MAP_WORDS {
        return Err(Error::Size);
    }
    let whole = length as u64 / 512;
    let needed = if length as u64 % 512 != 0 { whole + 1 } else { whole };
    assert(needed == sectors_for(length as int));
    let mut remaining = needed;
    let mut plan = PayloadPlan::empty();
    assert(plan.runs@.take(0) =~= Seq::<Extent>::empty());
    while remaining > 0
        invariant
            map@.len() == MAP_WORDS,
            length <= MAX_FILE_BYTES,
            needed == sectors_for(length as int),
            plan.wf(),
            plan_free(plan, map@),
            remaining + plan.total() == needed,
            remaining <= needed,
            greedy7(map@, Seq::empty(), needed as int) == greedy7(map@, plan.runs@.take(plan.used as int), remaining as int),
        decreases remaining,
    {
        let ghost runs = plan.runs@.take(plan.used as int);
        if plan.used == EXTENTS_PER_FILE {
            return Err(Error::Full);
        }
        let mut best_start: u64 = 0;
        let mut best_len: u64 = 0;
        let mut cursor: u64 = 0;
        while cursor < DATA_SECTORS
            invariant
                map@.len() == MAP_WORDS,
                plan.wf(),
                plan.used < EXTENTS_PER_FILE,
                runs == plan.runs@.take(plan.used as int),
                cursor <= DATA_SECTORS,
                cursor == 0 || cursor == DATA_SECTORS || bit(map@, cursor as int),
                best_len > 0 ==> {
                    &&& best_start < cursor
                    &&& eligible7(map@, runs, Extent { start: best_start, sectors: best_len })
                },
                forall|t: Extent| #[trigger] eligible7(map@, runs, t) && t.start < cursor ==> best_len > 0
                    && (t.sectors < best_len || (t.sectors == best_len && best_start <= t.start)),
            decreases DATA_SECTORS - cursor,
        {
            let ghost c0 = cursor;
            while cursor < DATA_SECTORS && allocated(map, cursor)
                invariant
                    map@.len() == MAP_WORDS,
                    c0 <= cursor <= DATA_SECTORS,
                    forall|s: int| c0 <= s < cursor ==> bit(map@, s),
                decreases DATA_SECTORS - cursor,
            {
                cursor = cursor + 1;
            }
            let start = cursor;
            while cursor < DATA_SECTORS && !allocated(map, cursor)
                invariant
                    map@.len() == MAP_WORDS,
                    c0 <= start <= cursor <= DATA_SECTORS,
                    forall|s: int| start <= s < cursor ==> !bit(map@, s),
                    cursor > c0 || (cursor == start && start < DATA_SECTORS && !bit(map@, start as int)),
                decreases DATA_SECTORS - cursor,
            {
                cursor = cursor + 1;
            }
            let sectors = cursor - start;
            let ghost cand = Extent { start, sectors };
            proof {
                // The stretch found is maximal, and it is the only stretch
                // starting between the old and the new cursor.
                if sectors > 0 {
                    assert(start == 0 || bit(map@, start - 1)) by {
                        if start > c0 {
                            assert(bit(map@, start - 1));
                        } else {
                            assert(c0 == 0 || c0 == DATA_SECTORS || bit(map@, c0 as int));
                        }
                    }
                    assert(stretch7(map@, cand));
                }
                assert forall|t: Extent| #[trigger] eligible7(map@, runs, t) && c0 <= t.start < cursor implies t == cand by {
                    assert(!bit(map@, t.start as int));
                    if t.start < start {
                        assert(bit(map@, t.start as int));
                    }
                    if t.start > start {
                        assert(!bit(map@, t.start - 1));
                    }
                    assert(t.start == start);
                    if t.start + t.sectors < cursor {
                        assert(!bit(map@, t.start + t.sectors));
                    }
                    if t.start + t.sectors > cursor {
                        assert(!bit(map@, cursor as int));
                    }
                }
            }
            if sectors > 0 && sectors > best_len && clear_of(&plan, start, cursor) {
                proof {
                    assert forall|k: int| 0 <= k < runs.len() implies apart(#[trigger] runs[k], cand) by {
                        assert(runs[k] == plan.runs@[k]);
                    }
                }
                best_start = start;
                best_len = sectors;
            } else {
                proof {
                    if sectors > 0 && sectors > best_len && eligible7(map@, runs, cand) {
                        assert forall|k: int| 0 <= k < plan.used implies apart(#[trigger] plan.runs@[k], cand) by {
                            assert(runs[k] == plan.runs@[k]);
                        }
                    }
                }
            }
        }
        if best_len == 0 {
            proof {
                assert(!(exists|b: Extent| #[trigger] best7(map@, runs, b)));
            }
            return Err(Error::Full);
        }
        let take = if best_len < remaining { best_len } else { remaining };
        let run = Extent::new(best_start, take);
        let ghost before = plan;
        let index = plan.used;
        proof {
            let b = Extent { start: best_start, sectors: best_len };
            assert(best7(map@, runs, b));
            let c = choose|c: Extent| #[trigger] best7(map@, runs, c);
            lemma_best_unique(map@, runs, b, c);
            assert forall|k: int| 0 <= k < plan.used implies apart(#[trigger] plan.runs@[k], b) by {
                assert(runs[k] == plan.runs@[k]);
            }
        }
        plan.runs[index] = run;
        plan.used = index + 1;
        proof {
            assert(plan.runs@ == before.runs@.update(index as int, run));
            assert(plan.runs@.take(index + 1) =~= before.runs@.take(index as int).push(run));
            lemma_total_sectors_push(before.runs@.take(index as int), run);
            assert forall|k: int| 0 <= k < plan.used implies (#[trigger] plan.runs@[k]).start + plan.runs@[k].sectors <= DATA_SECTORS && plan.runs@[k].sectors > 0 by {
                if k != index {
                    assert(plan.runs@[k] == before.runs@[k]);
                }
            }
            assert forall|i: int, j: int| 0 <= i < j < plan.used implies apart(#[trigger] plan.runs@[i], #[trigger] plan.runs@[j]) by {
                assert(plan.runs@[i] == before.runs@[i]);
                if j == index {
                    assert(apart(before.runs@[i], Extent { start: best_start, sectors: best_len }));
                } else {
                    assert(plan.runs@[j] == before.runs@[j]);
                }
            }
            assert forall|k: int| 0 <= k < plan.used implies free_run(map@, (#[trigger] plan.runs@[k]).start as int, plan.runs@[k].sectors as int) by {
                if k != index {
                    assert(plan.runs@[k] == before.runs@[k]);
                }
            }
        }
        remaining = remaining - take;
    }
    Ok(plan)
}

/// Mark a planned set of free runs allocated.
pub fn reserve_plan(map: &mut Vec<u64>, plan: &PayloadPlan)
    requires
        old(map)@.len() == MAP_WORDS,
        plan.wf(),
    ensures
        final(map)@.len() == MAP_WORDS,
        forall|s: int| 0 <= s < DATA_SECTORS ==> #[trigger] bit(final(map)@, s) == (bit(old(map)@, s) || covered(plan.runs@, plan.used as int, s)),
{
    let ghost w0 = map@;
    let mut k: usize = 0;
    while k < plan.used
        invariant
            plan.wf(),
            0 <= k <= plan.used,
            map@.len() == MAP_WORDS,
            w0 == old(map)@,
            forall|s: int| 0 <= s < DATA_SECTORS ==> #[trigger] bit(map@, s) == (bit(w0, s) || covered(plan.runs@, k as int, s)),
        decreases plan.used - k,
    {
        let run = plan.runs[k];
        assert(run == plan.runs@[k as int]);
        let end = run.start + run.sectors;
        let mut sector = run.start;
        while sector < end
            invariant
                plan.wf(),
                0 <= k < plan.used,
                run == plan.runs@[k as int],
                end == run.start + run.sectors,
                run.start <= sector <= end <= DATA_SECTORS,
                map@.len() == MAP_WORDS,
                forall|s: int| 0 <= s < DATA_SECTORS ==> #[trigger] bit(map@, s) == (bit(w0, s) || covered(plan.runs@, k as int, s) || (run.start <= s < sector)),
            decreases end - sector,
        {
            let ghost before = map@;
            set_bit(map, sector, true);
            assert forall|s: int| 0 <= s < DATA_SECTORS implies #[trigger] bit(map@, s) == (bit(w0, s) || covered(plan.runs@, k as int, s) || (run.start <= s < sector + 1)) by {
                assert(bit(map@, s) == if sector <= s < sector + 1 { true } else { bit(before, s) });
            }
            sector = sector + 1;
        }
        assert forall|s: int| 0 <= s < DATA_SECTORS implies #[trigger] bit(map@, s) == (bit(w0, s) || covered(plan.runs@, k + 1, s)) by {
            if run.start <= s < end {
                assert(plan.runs@[k as int].start <= s < plan.runs@[k as int].start + plan.runs@[k as int].sectors);
                assert(covered(plan.runs@, k + 1, s));
            }
            if covered(plan.runs@, k + 1, s) && !(run.start <= s < end) {
                let j = choose|j: int| 0 <= j < k + 1 && #[trigger] plan.runs@[j].start <= s < plan.runs@[j].start + plan.runs@[j].sectors;
                assert(j != k);
                assert(covered(plan.runs@, k as int, s));
            }
            if covered(plan.runs@, k as int, s) {
                let j = choose|j: int| 0 <= j < k && #[trigger] plan.runs@[j].start <= s < plan.runs@[j].start + plan.runs@[j].sectors;
                assert(covered(plan.runs@, k + 1, s));
            }
        }
        k = k + 1;
    }
}

/// Give a run back to the map. A map of the wrong size is `Size`; a zero run,
/// one past the region or one holding a free sector is `Invalid`.
pub fn release_run(map: &mut Vec<u64>, run: Extent) -> (r: Result<(), Error>)
    ensures
        old(map)@.len() != MAP_WORDS ==> r == Err::<(), Error>(Error::Size) && final(map)@ == old(map)@,
        old(map)@.len() == MAP_WORDS ==> (r is Ok <==> (run.sectors > 0 && used_run(old(map)@, run.start as int, run.sectors as int))),
        r is Ok ==> marked(final(map)@, old(map)@, run.start as int, run.spec_end(), false),
        old(map)@.len() == MAP_WORDS && r is Err ==> r == Err::<(), Error>(Error::Invalid) && final(map)@ == old(map)@,
        final(map)@.len() == old(map)@.len(),
{
    if map.len() != MAP_WORDS {
        return Err(Error::Size);
    }
    let mut words: Vec<u64> = Vec::new();
    core::mem::swap(&mut words, map);
    let mut space = match FreeSpace::new(words) {
        Ok(space) => space,
        Err(e) => {
            return Err(e);
        },
    };
    let r = space.release(run);
    *map = space.into_words();
    r
}

} // verus!
