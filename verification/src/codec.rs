//! Little-endian field access on fixed-size sector images.
use vstd::prelude::*;
use vstd::bytes::*;
use vstd::slice::slice_subrange;

verus! {

/// `b` holds `part` at `at`.
pub open spec fn holds(b: Seq<u8>, at: int, part: Seq<u8>) -> bool {
    &&& 0 <= at
    &&& at + part.len() <= b.len()
    &&& b.subrange(at, at + part.len()) == part
}

/// Every byte of `b` in `[from, to)` is zero.
pub open spec fn zero_range(b: Seq<u8>, from: int, to: int) -> bool {
    forall|i: int| from <= i < to ==> b[i] == 0
}

/// `new` is `old` with `part` written at `at`.
pub open spec fn written(new: Seq<u8>, old: Seq<u8>, at: int, part: Seq<u8>) -> bool {
    &&& new.len() == old.len()
    &&& forall|i: int|
        0 <= i < new.len() ==> #[trigger] new[i] == if at <= i < at + part.len() {
            part[i - at]
        } else {
            old[i]
        }
}

pub fn get_u16<const N: usize>(b: &[u8; N], at: usize) -> (r: u16)
    requires
        at + 2 <= N,
    ensures
        r == spec_u16_from_le_bytes(b@.subrange(at as int, at + 2)),
{
    u16_from_le_bytes(slice_subrange(b.as_slice(), at, at + 2))
}

pub fn get_u32<const N: usize>(b: &[u8; N], at: usize) -> (r: u32)
    requires
        at + 4 <= N,
    ensures
        r == spec_u32_from_le_bytes(b@.subrange(at as int, at + 4)),
{
    u32_from_le_bytes(slice_subrange(b.as_slice(), at, at + 4))
}

pub fn get_u64<const N: usize>(b: &[u8; N], at: usize) -> (r: u64)
    requires
        at + 8 <= N,
    ensures
        r == spec_u64_from_le_bytes(b@.subrange(at as int, at + 8)),
{
    u64_from_le_bytes(slice_subrange(b.as_slice(), at, at + 8))
}

/// Copy `part` into `b` at `at`.
pub fn put<const N: usize>(b: &mut [u8; N], at: usize, part: &[u8])
    requires
        at + part@.len() <= N,
    ensures
        written(final(b)@, old(b)@, at as int, part@),
{
    let ghost start = b@;
    let mut i: usize = 0;
    while i < part.len()
        invariant
            at + part@.len() <= N,
            0 <= i <= part@.len(),
            b@.len() == N,
            forall|k: int|
                0 <= k < N ==> #[trigger] b@[k] == if at <= k < at + i {
                    part@[k - at]
                } else {
                    start[k]
                },
        decreases part@.len() - i,
    {
        b[at + i] = part[i];
        i = i + 1;
    }
}

pub fn put_u16<const N: usize>(b: &mut [u8; N], at: usize, v: u16)
    requires
        at + 2 <= N,
    ensures
        written(final(b)@, old(b)@, at as int, spec_u16_to_le_bytes(v)),
        spec_u16_to_le_bytes(v).len() == 2,
{
    proof {
        lemma_auto_spec_u16_to_from_le_bytes();
    }
    let bytes = u16_to_le_bytes(v);
    put(b, at, bytes.as_slice());
}

pub fn put_u32<const N: usize>(b: &mut [u8; N], at: usize, v: u32)
    requires
        at + 4 <= N,
    ensures
        written(final(b)@, old(b)@, at as int, spec_u32_to_le_bytes(v)),
        spec_u32_to_le_bytes(v).len() == 4,
{
    proof {
        lemma_auto_spec_u32_to_from_le_bytes();
    }
    let bytes = u32_to_le_bytes(v);
    put(b, at, bytes.as_slice());
}

pub fn put_u64<const N: usize>(b: &mut [u8; N], at: usize, v: u64)
    requires
        at + 8 <= N,
    ensures
        written(final(b)@, old(b)@, at as int, spec_u64_to_le_bytes(v)),
        spec_u64_to_le_bytes(v).len() == 8,
{
    proof {
        lemma_auto_spec_u64_to_from_le_bytes();
    }
    let bytes = u64_to_le_bytes(v);
    put(b, at, bytes.as_slice());
}

/// Whether `b[from..to]` is all zero.
pub fn is_zero<const N: usize>(b: &[u8; N], from: usize, to: usize) -> (r: bool)
    requires
        from <= to <= N,
    ensures
        r == zero_range(b@, from as int, to as int),
{
    let mut i = from;
    while i < to
        invariant
            from <= i <= to <= N,
            zero_range(b@, from as int, i as int),
        decreases to - i,
    {
        if b[i] != 0 {
            return false;
        }
        i = i + 1;
    }
    true
}

/// Zero `b[from..to]`.
pub fn clear<const N: usize>(b: &mut [u8; N], from: usize, to: usize)
    requires
        from <= to <= N,
    ensures
        final(b)@.len() == N,
        forall|i: int|
            0 <= i < N ==> #[trigger] final(b)@[i] == if from <= i < to {
                0u8
            } else {
                old(b)@[i]
            },
{
    let mut i = from;
    while i < to
        invariant
            from <= i <= to <= N,
            b@.len() == N,
            forall|k: int|
                0 <= k < N ==> #[trigger] b@[k] == if from <= k < i {
                    0u8
                } else {
                    old(b)@[k]
                },
        decreases to - i,
    {
        b[i] = 0;
        i = i + 1;
    }
}

/// A copy of `b[from..to]` as a slice view, for checksumming part of an image.
pub fn prefix<const N: usize>(b: &[u8; N], to: usize) -> (r: &[u8])
    requires
        to <= N,
    ensures
        r@ == b@.subrange(0, to as int),
{
    slice_subrange(b.as_slice(), 0, to)
}

} // verus!

verus! {

/// The run stored as two little-endian `u32` at `at`.
pub open spec fn spec_run_at(b: Seq<u8>, at: int) -> crate::extent::Extent {
    crate::extent::Extent {
        start: spec_u32_from_le_bytes(b.subrange(at, at + 4)) as u64,
        sectors: spec_u32_from_le_bytes(b.subrange(at + 4, at + 8)) as u64,
    }
}

/// `b` holds run `k` of `runs` at `at + 8 * k`, truncated to 32 bits.
pub open spec fn holds_run(b: Seq<u8>, at: int, runs: Seq<crate::extent::Extent>, k: int) -> bool {
    &&& b.subrange(at + 8 * k, at + 8 * k + 4) == spec_u32_to_le_bytes(runs[k].start as u32)
    &&& b.subrange(at + 8 * k + 4, at + 8 * k + 8) == spec_u32_to_le_bytes(runs[k].sectors as u32)
}

/// `b` holds the eight runs of `runs` at `at`, each truncated to 32 bits.
pub open spec fn holds_runs(b: Seq<u8>, at: int, runs: Seq<crate::extent::Extent>) -> bool {
    forall|k: int| 0 <= k < 8 ==> #[trigger] holds_run(b, at, runs, k)
}

/// Store eight runs as `(start, sectors)` pairs of little-endian `u32` at `at`.
pub fn put_runs<const N: usize>(b: &mut [u8; N], at: usize, runs: &[crate::extent::Extent; 8])
    requires
        at + 64 <= N,
    ensures
        final(b)@.len() == N,
        holds_runs(final(b)@, at as int, runs@),
        forall|j: int| 0 <= j < N && !(at <= j < at + 64) ==> #[trigger] final(b)@[j] == old(b)@[j],
{
    let mut i: usize = 0;
    while i < 8
        invariant
            at + 64 <= N,
            0 <= i <= 8,
            b@.len() == N,
            forall|k: int| 0 <= k < i ==> #[trigger] holds_run(b@, at as int, runs@, k),
            forall|j: int| 0 <= j < N && !(at <= j < at + 8 * i) ==> #[trigger] b@[j] == old(b)@[j],
        decreases 8 - i,
    {
        let ghost before = b@;
        let run = runs[i];
        put_u32(b, at + 8 * i, run.start as u32);
        let ghost mid = b@;
        put_u32(b, at + 8 * i + 4, run.sectors as u32);
        proof {
            assert(b@.subrange(at + 8 * i, at + 8 * i + 4) =~= mid.subrange(at + 8 * i, at + 8 * i + 4));
            assert(mid.subrange(at + 8 * i, at + 8 * i + 4) =~= spec_u32_to_le_bytes(run.start as u32));
            assert(b@.subrange(at + 8 * i + 4, at + 8 * i + 8) =~= spec_u32_to_le_bytes(run.sectors as u32));
            assert forall|k: int| 0 <= k < i + 1 implies #[trigger] holds_run(b@, at as int, runs@, k) by {
                if k < i {
                    assert(holds_run(before, at as int, runs@, k));
                    assert(b@.subrange(at + 8 * k, at + 8 * k + 4) =~= before.subrange(
                        at + 8 * k,
                        at + 8 * k + 4,
                    ));
                    assert(b@.subrange(at + 8 * k + 4, at + 8 * k + 8) =~= before.subrange(
                        at + 8 * k + 4,
                        at + 8 * k + 8,
                    ));
                }
            }
        }
        i = i + 1;
    }
}

/// Read eight runs stored by `put_runs`.
pub fn get_runs<const N: usize>(b: &[u8; N], at: usize) -> (r: [crate::extent::Extent; 8])
    requires
        at + 64 <= N,
    ensures
        forall|k: int| 0 <= k < 8 ==> #[trigger] r@[k] == spec_run_at(b@, at + 8 * k),
{
    let mut r = [crate::extent::Extent { start: 0, sectors: 0 }; 8];
    let mut i: usize = 0;
    while i < 8
        invariant
            at + 64 <= N,
            0 <= i <= 8,
            forall|k: int| 0 <= k < i ==> #[trigger] r@[k] == spec_run_at(b@, at + 8 * k),
        decreases 8 - i,
    {
        let start = get_u32(b, at + 8 * i);
        let sectors = get_u32(b, at + 8 * i + 4);
        r[i] = crate::extent::Extent { start: start as u64, sectors: sectors as u64 };
        i = i + 1;
    }
    r
}

/// A run round-trips through the 32-bit fields when both halves fit.
pub proof fn lemma_run_roundtrip(b: Seq<u8>, at: int, runs: Seq<crate::extent::Extent>, k: int)
    requires
        holds_runs(b, at, runs),
        0 <= at,
        at + 64 <= b.len(),
        0 <= k < 8,
        runs[k].start <= u32::MAX,
        runs[k].sectors <= u32::MAX,
    ensures
        spec_run_at(b, at + 8 * k) == runs[k],
{
    lemma_auto_spec_u32_to_from_le_bytes();
    assert(holds_run(b, at, runs, k));
    assert(b.subrange(at + 8 * k, at + 8 * k + 4) == spec_u32_to_le_bytes(runs[k].start as u32));
    assert(b.subrange(at + 8 * k + 4, at + 8 * k + 8) == spec_u32_to_le_bytes(
        runs[k].sectors as u32,
    ));
    assert((runs[k].start as u32) as u64 == runs[k].start);
    assert((runs[k].sectors as u32) as u64 == runs[k].sectors);
}

} // verus!

verus! {

/// Arrays with the same view are the same array.
pub proof fn lemma_array_view_eq<T, const N: usize>(a: [T; N], c: [T; N])
    requires
        a@ == c@,
    ensures
        a == c,
{
    broadcast use vstd::array::group_array_axioms;

    assert forall|i: int| 0 <= i < N implies a[i] == c[i] by {
        assert(a@[i] == c@[i]);
    }
    assert(a =~= c);
}

/// The eight runs stored at `at`, as an array.
pub open spec fn spec_runs_from(b: Seq<u8>, at: int) -> [crate::extent::Extent; 8] {
    choose|a: [crate::extent::Extent; 8]| a@ == runs_seq(b, at)
}

pub open spec fn runs_seq(b: Seq<u8>, at: int) -> Seq<crate::extent::Extent> {
    Seq::new(8, |k: int| spec_run_at(b, at + 8 * k))
}

/// Eight zero runs.
pub open spec fn zero_runs() -> [crate::extent::Extent; 8] {
    choose|a: [crate::extent::Extent; 8]| a@ == Seq::new(8, |k: int| crate::extent::Extent { start: 0, sectors: 0 })
}

pub proof fn lemma_zero_runs(a: [crate::extent::Extent; 8])
    requires
        forall|k: int| 0 <= k < 8 ==> #[trigger] a@[k] == (crate::extent::Extent { start: 0, sectors: 0 }),
    ensures
        zero_runs() == a,
{
    assert(a@ =~= Seq::new(8, |k: int| crate::extent::Extent { start: 0, sectors: 0 }));
    let c = zero_runs();
    lemma_array_view_eq(c, a);
}

/// The 32-byte array whose view is `s`.
pub open spec fn spec_bytes32(s: Seq<u8>) -> [u8; 32] {
    choose|a: [u8; 32]| a@ == s
}

pub proof fn lemma_bytes32(a: [u8; 32])
    ensures
        spec_bytes32(a@) == a,
{
    let c = spec_bytes32(a@);
    assert(c@ == a@);
    lemma_array_view_eq(c, a);
}

pub proof fn lemma_runs_from(a: [crate::extent::Extent; 8], b: Seq<u8>, at: int)
    requires
        forall|k: int| 0 <= k < 8 ==> #[trigger] a@[k] == spec_run_at(b, at + 8 * k),
    ensures
        spec_runs_from(b, at) == a,
{
    assert(a@ =~= runs_seq(b, at));
    let c = spec_runs_from(b, at);
    assert(c@ =~= a@);
    lemma_array_view_eq(c, a);
}

} // verus!

verus! {

pub proof fn lemma_le16(x: u16)
    ensures
        spec_u16_to_le_bytes(x).len() == 2,
        spec_u16_from_le_bytes(spec_u16_to_le_bytes(x)) == x,
{
    lemma_auto_spec_u16_to_from_le_bytes();
    assert(spec_u16_to_le_bytes(x).len() == 2);
}

pub proof fn lemma_le32(x: u32)
    ensures
        spec_u32_to_le_bytes(x).len() == 4,
        spec_u32_from_le_bytes(spec_u32_to_le_bytes(x)) == x,
{
    lemma_auto_spec_u32_to_from_le_bytes();
    assert(spec_u32_to_le_bytes(x).len() == 4);
}

pub proof fn lemma_le64(x: u64)
    ensures
        spec_u64_to_le_bytes(x).len() == 8,
        spec_u64_from_le_bytes(spec_u64_to_le_bytes(x)) == x,
{
    lemma_auto_spec_u64_to_from_le_bytes();
    assert(spec_u64_to_le_bytes(x).len() == 8);
}

} // verus!

verus! {

/// `b` with `[from, to)` zeroed.
pub open spec fn zeroed(b: Seq<u8>, from: int, to: int) -> Seq<u8> {
    Seq::new(b.len(), |i: int| if from <= i < to { 0u8 } else { b[i] })
}

/// Whether `b[at..at + part.len()]` equals `part`.
pub fn matches_at<const N: usize>(b: &[u8; N], at: usize, part: &[u8]) -> (r: bool)
    requires
        at + part@.len() <= N,
    ensures
        r == (b@.subrange(at as int, at + part@.len()) == part@),
{
    let mut i: usize = 0;
    while i < part.len()
        invariant
            at + part@.len() <= N,
            0 <= i <= part@.len(),
            forall|k: int| 0 <= k < i ==> b@[at + k] == part@[k],
        decreases part@.len() - i,
    {
        if b[at + i] != part[i] {
            assert(b@.subrange(at as int, at + part@.len())[i as int] != part@[i as int]);
            return false;
        }
        i = i + 1;
    }
    assert(b@.subrange(at as int, at + part@.len()) =~= part@);
    true
}

/// A copy of `b` with `[from, to)` zeroed.
pub fn copy_zeroed<const N: usize>(b: &[u8; N], from: usize, to: usize) -> (r: [u8; N])
    requires
        from <= to <= N,
    ensures
        r@ == zeroed(b@, from as int, to as int),
{
    let mut body = *b;
    clear(&mut body, from, to);
    assert(body@ =~= zeroed(b@, from as int, to as int));
    body
}

} // verus!

verus! {

/// The array whose view is `s`.
pub open spec fn spec_array<const N: usize>(s: Seq<u8>) -> [u8; N] {
    choose|a: [u8; N]| a@ == s
}

pub proof fn lemma_array<const N: usize>(a: [u8; N])
    ensures
        spec_array::<N>(a@) == a,
{
    let c = spec_array::<N>(a@);
    assert(c@ == a@);
    lemma_array_view_eq(c, a);
}

/// Copy `b[at..at + N]` into a fresh array.
pub fn take_array<const M: usize, const N: usize>(b: &[u8; M], at: usize) -> (r: [u8; N])
    requires
        at + N <= M,
    ensures
        r@ == b@.subrange(at as int, at + N),
{
    let mut r = [0u8; N];
    put(&mut r, 0, slice_subrange(b.as_slice(), at, at + N));
    assert(r@ =~= b@.subrange(at as int, at + N));
    r
}

/// Whether two byte arrays hold the same bytes.
pub fn same_bytes<const N: usize>(a: &[u8; N], c: &[u8; N]) -> (r: bool)
    ensures
        r == (a@ == c@),
        r == (*a == *c),
{
    let mut i: usize = 0;
    while i < N
        invariant
            0 <= i <= N,
            forall|k: int| 0 <= k < i ==> a@[k] == c@[k],
        decreases N - i,
    {
        if a[i] != c[i] {
            return false;
        }
        i = i + 1;
    }
    assert(a@ =~= c@);
    proof {
        lemma_array_view_eq(*a, *c);
    }
    true
}

/// Whether every byte of `a` is zero.
pub fn all_zero<const N: usize>(a: &[u8; N]) -> (r: bool)
    ensures
        r == zero_range(a@, 0, N as int),
{
    is_zero(a, 0, N)
}

} // verus!

verus! {

/// Whether two byte slices hold the same bytes.
pub fn slices_equal(a: &[u8], c: &[u8]) -> (r: bool)
    ensures
        r == (a@ == c@),
{
    if a.len() != c.len() {
        return false;
    }
    let mut i: usize = 0;
    while i < a.len()
        invariant
            a@.len() == c@.len(),
            0 <= i <= a@.len(),
            forall|k: int| 0 <= k < i ==> a@[k] == c@[k],
        decreases a@.len() - i,
    {
        if a[i] != c[i] {
            return false;
        }
        i = i + 1;
    }
    assert(a@ =~= c@);
    true
}

} // verus!
