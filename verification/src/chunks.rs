//! Differential chunking.
//!
//! Given a new vector and a reference vector, the chunker yields the maximal
//! runs of positions where the two differ, cut into windows of at most
//! `chunk_size` elements. Each emitted chunk starts at the first differing
//! position of a run and is trimmed so that its last element also differs;
//! scanning resumes one full window after the chunk's start.

use vstd::prelude::*;
use vstd::std_specs::cmp::PartialEqSpec;

verus! {

/// Exec equality on `T` agrees with spec equality, as it does for the
/// integers and tuples of integers this library chunks.
pub open spec fn plain_eq<T: PartialEq + PartialEqSpec>() -> bool {
    &&& T::obeys_eq_spec()
    &&& forall|a: T, b: T| #[trigger] a.eq_spec(&b) <==> a == b
}

/// Exec equality on `u8` is spec equality.
pub proof fn lemma_plain_eq_u8()
    ensures
        plain_eq::<u8>(),
{
}

/// Exec equality on `(u8, u8)` pairs is spec equality.
pub proof fn lemma_plain_eq_u8_pair()
    ensures
        plain_eq::<(u8, u8)>(),
{
    assert(<(u8, u8)>::obeys_eq_spec());
    assert(forall|a: (u8, u8), b: (u8, u8)| #[trigger] a.eq_spec(&b) <==> a == b);
}

/// The largest index in `[start, end)` where `new` and `refr` differ,
/// assuming one exists; `start` otherwise.
pub open spec fn last_diff_before<T>(new: Seq<T>, refr: Seq<T>, start: int, end: int) -> int
    decreases end - start,
{
    if end <= start {
        start
    } else if new[end - 1] != refr[end - 1] {
        end - 1
    } else {
        last_diff_before(new, refr, start, end - 1)
    }
}

/// The chunks the scan emits from position `i` on: skip equal positions; at a
/// differing position `i`, open a window of `cs` elements, emit the window
/// trimmed to its last differing position, and resume after the window.
pub open spec fn spec_chunks<T>(new: Seq<T>, refr: Seq<T>, cs: int, i: int) -> Seq<(int, Seq<T>)>
    decreases new.len() - i,
{
    if cs < 1 || i < 0 || i >= new.len() {
        Seq::empty()
    } else if new[i] == refr[i] {
        spec_chunks(new, refr, cs, i + 1)
    } else {
        let max_end = if i + cs <= new.len() {
            i + cs
        } else {
            new.len() as int
        };
        let last = last_diff_before(new, refr, i, max_end);
        seq![(i, new.subrange(i, last + 1))] + spec_chunks(new, refr, cs, max_end)
    }
}

/// What it means for one emitted chunk to be well shaped: it lies within
/// `new`, holds at most `cs` elements copied verbatim from `new`, and its
/// first and last elements differ from `refr` at their positions.
pub open spec fn chunk_wf<T>(new: Seq<T>, refr: Seq<T>, cs: int, c: (int, Seq<T>)) -> bool {
    &&& 0 <= c.0
    &&& c.0 + c.1.len() <= new.len()
    &&& 1 <= c.1.len() <= cs
    &&& c.1 =~= new.subrange(c.0, c.0 + c.1.len())
    &&& new[c.0] != refr[c.0]
    &&& new[c.0 + c.1.len() - 1] != refr[c.0 + c.1.len() - 1]
}

proof fn lemma_last_diff_props<T>(new: Seq<T>, refr: Seq<T>, start: int, end: int)
    requires
        0 <= start < end <= new.len(),
        new.len() <= refr.len(),
        new[start] != refr[start],
    ensures
        start <= last_diff_before(new, refr, start, end) < end,
        new[last_diff_before(new, refr, start, end)] != refr[last_diff_before(
            new,
            refr,
            start,
            end,
        )],
        forall|j: int|
            last_diff_before(new, refr, start, end) < j < end ==> new[j] == refr[j],
    decreases end - start,
{
    if new[end - 1] != refr[end - 1] {
    } else if end - 1 == start {
    } else {
        lemma_last_diff_props(new, refr, start, end - 1);
    }
}

/// Scanning backward from `end`, the first differing position found is the
/// last differing position of the whole window.
proof fn lemma_last_diff_from_scan<T>(new: Seq<T>, refr: Seq<T>, start: int, e: int, end: int)
    requires
        0 <= start < e <= end <= new.len(),
        new[e - 1] != refr[e - 1],
        forall|j: int| e <= j < end ==> new[j] == refr[j],
    ensures
        last_diff_before(new, refr, start, end) == e - 1,
    decreases end - e,
{
    if end == e {
    } else {
        lemma_last_diff_from_scan(new, refr, start, e, end - 1);
    }
}

/// Chunking is unchanged by moving the scan start across equal positions.
proof fn lemma_chunks_skip_equal<T>(new: Seq<T>, refr: Seq<T>, cs: int, i: int, j: int)
    requires
        0 <= i <= j <= new.len(),
        forall|k: int| i <= k < j ==> new[k] == refr[k],
    ensures
        spec_chunks(new, refr, cs, i) == spec_chunks(new, refr, cs, j),
    decreases j - i,
{
    if i < j {
        lemma_chunks_skip_equal(new, refr, cs, i + 1, j);
        assert(new[i] == refr[i]);
        if cs < 1 {
            assert(spec_chunks(new, refr, cs, i) == spec_chunks(new, refr, cs, i + 1));
        } else {
            assert(spec_chunks(new, refr, cs, i) == spec_chunks(new, refr, cs, i + 1));
        }
    }
}

/// Every emitted chunk is well shaped.
pub proof fn lemma_chunks_wf<T>(new: Seq<T>, refr: Seq<T>, cs: int, i: int)
    requires
        1 <= cs,
        0 <= i,
        new.len() <= refr.len(),
    ensures
        forall|k: int|
            0 <= k < spec_chunks(new, refr, cs, i).len() ==> chunk_wf(
                new,
                refr,
                cs,
                #[trigger] spec_chunks(new, refr, cs, i)[k],
            ),
    decreases new.len() - i,
{
    let cks = spec_chunks(new, refr, cs, i);
    if i >= new.len() {
    } else if new[i] == refr[i] {
        lemma_chunks_wf(new, refr, cs, i + 1);
        assert forall|k: int| 0 <= k < cks.len() implies chunk_wf(
            new,
            refr,
            cs,
            #[trigger] cks[k],
        ) by {
            assert(cks[k] == spec_chunks(new, refr, cs, i + 1)[k]);
        }
    } else {
        let max_end = if i + cs <= new.len() {
            i + cs
        } else {
            new.len() as int
        };
        lemma_last_diff_props(new, refr, i, max_end);
        let last = last_diff_before(new, refr, i, max_end);
        let head = (i, new.subrange(i, last + 1));
        let tail = spec_chunks(new, refr, cs, max_end);
        lemma_chunks_wf(new, refr, cs, max_end);
        assert(cks == seq![head] + tail);
        assert(chunk_wf(new, refr, cs, head));
        assert forall|k: int| 0 <= k < cks.len() implies chunk_wf(
            new,
            refr,
            cs,
            #[trigger] cks[k],
        ) by {
            if k > 0 {
                assert(cks[k] == tail[k - 1]);
            } else {
                assert(cks[0] == head);
            }
        }
    }
}

/// Every emitted chunk starts at or after the scan position.
pub proof fn lemma_chunks_lower<T>(new: Seq<T>, refr: Seq<T>, cs: int, i: int)
    requires
        1 <= cs,
        0 <= i,
        new.len() <= refr.len(),
    ensures
        forall|k: int|
            0 <= k < spec_chunks(new, refr, cs, i).len() ==> i <= (#[trigger] spec_chunks(
                new,
                refr,
                cs,
                i,
            )[k]).0,
    decreases new.len() - i,
{
    let cks = spec_chunks(new, refr, cs, i);
    if i >= new.len() {
    } else if new[i] == refr[i] {
        lemma_chunks_lower(new, refr, cs, i + 1);
        assert forall|k: int| 0 <= k < cks.len() implies i <= (#[trigger] cks[k]).0 by {
            assert(cks[k] == spec_chunks(new, refr, cs, i + 1)[k]);
        }
    } else {
        let max_end = if i + cs <= new.len() {
            i + cs
        } else {
            new.len() as int
        };
        let last = last_diff_before(new, refr, i, max_end);
        let head = (i, new.subrange(i, last + 1));
        let tail = spec_chunks(new, refr, cs, max_end);
        lemma_chunks_lower(new, refr, cs, max_end);
        assert(cks == seq![head] + tail);
        assert forall|k: int| 0 <= k < cks.len() implies i <= (#[trigger] cks[k]).0 by {
            if k > 0 {
                assert(cks[k] == tail[k - 1]);
            } else {
                assert(cks[0] == head);
            }
        }
    }
}

/// The emitted chunks appear in increasing order and never overlap.
pub proof fn lemma_chunks_sorted<T>(new: Seq<T>, refr: Seq<T>, cs: int, i: int)
    requires
        1 <= cs,
        0 <= i,
        new.len() <= refr.len(),
    ensures
        forall|k1: int, k2: int|
            0 <= k1 < k2 < spec_chunks(new, refr, cs, i).len() ==> (#[trigger] spec_chunks(
                new,
                refr,
                cs,
                i,
            )[k1]).0 + spec_chunks(new, refr, cs, i)[k1].1.len() <= (#[trigger] spec_chunks(
                new,
                refr,
                cs,
                i,
            )[k2]).0,
    decreases new.len() - i,
{
    let cks = spec_chunks(new, refr, cs, i);
    if i >= new.len() {
    } else if new[i] == refr[i] {
        lemma_chunks_sorted(new, refr, cs, i + 1);
        assert forall|k1: int, k2: int| 0 <= k1 < k2 < cks.len() implies (#[trigger] cks[k1]).0
            + cks[k1].1.len() <= (#[trigger] cks[k2]).0 by {
            assert(cks[k1] == spec_chunks(new, refr, cs, i + 1)[k1]);
            assert(cks[k2] == spec_chunks(new, refr, cs, i + 1)[k2]);
        }
    } else {
        let max_end = if i + cs <= new.len() {
            i + cs
        } else {
            new.len() as int
        };
        lemma_last_diff_props(new, refr, i, max_end);
        let last = last_diff_before(new, refr, i, max_end);
        let head = (i, new.subrange(i, last + 1));
        let tail = spec_chunks(new, refr, cs, max_end);
        lemma_chunks_sorted(new, refr, cs, max_end);
        lemma_chunks_lower(new, refr, cs, max_end);
        assert(cks == seq![head] + tail);
        assert forall|k1: int, k2: int| 0 <= k1 < k2 < cks.len() implies (#[trigger] cks[k1]).0
            + cks[k1].1.len() <= (#[trigger] cks[k2]).0 by {
            assert(cks[k2] == tail[k2 - 1]);
            if k1 > 0 {
                assert(cks[k1] == tail[k1 - 1]);
            } else {
                assert(cks[0] == head);
                assert(head.0 + head.1.len() == last + 1 <= max_end);
            }
        }
    }
}

/// Every position where `new` and the reference differ, at or after the scan
/// position, is covered by some emitted chunk.
pub proof fn lemma_chunks_cover<T>(new: Seq<T>, refr: Seq<T>, cs: int, i: int)
    requires
        1 <= cs,
        0 <= i,
        new.len() <= refr.len(),
    ensures
        forall|j: int|
            i <= j < new.len() && new[j] != refr[j] ==> exists|k: int|
                0 <= k < spec_chunks(new, refr, cs, i).len() && (#[trigger] spec_chunks(
                    new,
                    refr,
                    cs,
                    i,
                )[k]).0 <= j < spec_chunks(new, refr, cs, i)[k].0 + spec_chunks(
                    new,
                    refr,
                    cs,
                    i,
                )[k].1.len(),
    decreases new.len() - i,
{
    let cks = spec_chunks(new, refr, cs, i);
    if i >= new.len() {
    } else if new[i] == refr[i] {
        lemma_chunks_cover(new, refr, cs, i + 1);
        assert forall|j: int| i <= j < new.len() && new[j] != refr[j] implies exists|k: int|
            0 <= k < cks.len() && (#[trigger] cks[k]).0 <= j < cks[k].0 + cks[k].1.len() by {
            assert(i + 1 <= j);
            let k0: int = choose|k: int|
                0 <= k < spec_chunks(new, refr, cs, i + 1).len() && (#[trigger] spec_chunks(
                    new,
                    refr,
                    cs,
                    i + 1,
                )[k]).0 <= j < spec_chunks(new, refr, cs, i + 1)[k].0 + spec_chunks(
                    new,
                    refr,
                    cs,
                    i + 1,
                )[k].1.len();
            assert(cks[k0] == spec_chunks(new, refr, cs, i + 1)[k0]);
            assert(cks[k0].0 <= j < cks[k0].0 + cks[k0].1.len());
        }
    } else {
        let max_end = if i + cs <= new.len() {
            i + cs
        } else {
            new.len() as int
        };
        lemma_last_diff_props(new, refr, i, max_end);
        let last = last_diff_before(new, refr, i, max_end);
        let head = (i, new.subrange(i, last + 1));
        let tail = spec_chunks(new, refr, cs, max_end);
        lemma_chunks_cover(new, refr, cs, max_end);
        assert(cks == seq![head] + tail);
        assert forall|j: int| i <= j < new.len() && new[j] != refr[j] implies exists|k: int|
            0 <= k < cks.len() && (#[trigger] cks[k]).0 <= j < cks[k].0 + cks[k].1.len() by {
            if j <= last {
                assert(cks[0] == head);
                assert(cks[0].0 <= j < cks[0].0 + cks[0].1.len());
            } else if j < max_end {
                assert(new[j] == refr[j]);
            } else {
                let k0: int = choose|k: int|
                    0 <= k < tail.len() && (#[trigger] tail[k]).0 <= j < tail[k].0
                        + tail[k].1.len();
                assert(cks[k0 + 1] == tail[k0]);
                assert(cks[k0 + 1].0 <= j < cks[k0 + 1].0 + cks[k0 + 1].1.len());
            }
        }
    }
}

/// `base` with `data` written at offset `off`.
pub open spec fn write_at<T>(base: Seq<T>, off: int, data: Seq<T>) -> Seq<T> {
    Seq::new(
        base.len(),
        |j: int|
            if off <= j < off + data.len() {
                data[j - off]
            } else {
                base[j]
            },
    )
}

/// `base` with every chunk written at its offset, left to right.
pub open spec fn overlay_chunks<T>(base: Seq<T>, cks: Seq<(int, Seq<T>)>) -> Seq<T>
    decreases cks.len(),
{
    if cks.len() == 0 {
        base
    } else {
        overlay_chunks(write_at(base, cks[0].0, cks[0].1), cks.skip(1))
    }
}

proof fn lemma_overlay_len<T>(base: Seq<T>, cks: Seq<(int, Seq<T>)>)
    ensures
        overlay_chunks(base, cks).len() == base.len(),
    decreases cks.len(),
{
    if cks.len() > 0 {
        lemma_overlay_len(write_at(base, cks[0].0, cks[0].1), cks.skip(1));
    }
}

proof fn lemma_overlay_untouched<T>(base: Seq<T>, cks: Seq<(int, Seq<T>)>, b: int)
    requires
        forall|k: int| 0 <= k < cks.len() ==> b <= (#[trigger] cks[k]).0,
    ensures
        forall|j: int|
            0 <= j < base.len() && j < b ==> overlay_chunks(base, cks)[j] == base[j],
    decreases cks.len(),
{
    if cks.len() > 0 {
        let base1 = write_at(base, cks[0].0, cks[0].1);
        assert(forall|k: int| 0 <= k < cks.skip(1).len() ==> b <= (#[trigger] cks.skip(1)[k]).0);
        lemma_overlay_untouched(base1, cks.skip(1), b);
        assert forall|j: int| 0 <= j < base.len() && j < b implies overlay_chunks(base, cks)[j]
            == base[j] by {
            assert(b <= cks[0].0);
            assert(base1.len() == base.len());
            assert(base1[j] == base[j]);
            assert(overlay_chunks(base, cks) == overlay_chunks(base1, cks.skip(1)));
        }
    }
}

proof fn lemma_overlay_applies<T>(new: Seq<T>, base: Seq<T>, cks: Seq<(int, Seq<T>)>, j: int)
    requires
        base.len() == new.len(),
        forall|k: int| 0 <= k < cks.len() ==> #[trigger] cks[k].1 =~= new.subrange(
            cks[k].0,
            cks[k].0 + cks[k].1.len(),
        ) && 0 <= cks[k].0 && cks[k].0 + cks[k].1.len() <= new.len(),
        forall|k1: int, k2: int|
            0 <= k1 < k2 < cks.len() ==> (#[trigger] cks[k1]).0 + cks[k1].1.len() <= (
            #[trigger] cks[k2]).0,
        exists|k: int| 0 <= k < cks.len() && (#[trigger] cks[k]).0 <= j < cks[k].0 + cks[k].1.len(),
    ensures
        overlay_chunks(base, cks)[j] == new[j],
    decreases cks.len(),
{
    let k0: int = choose|k: int|
        0 <= k < cks.len() && (#[trigger] cks[k]).0 <= j < cks[k].0 + cks[k].1.len();
    let base1 = write_at(base, cks[0].0, cks[0].1);
    if k0 == 0 {
        assert(base1[j] == cks[0].1[j - cks[0].0]);
        assert(base1[j] == new[j]);
        assert(forall|k: int|
            0 <= k < cks.skip(1).len() ==> cks[0].0 + cks[0].1.len() <= (
            #[trigger] cks.skip(1)[k]).0);
        lemma_overlay_untouched(base1, cks.skip(1), cks[0].0 + cks[0].1.len());
        assert(overlay_chunks(base, cks) == overlay_chunks(base1, cks.skip(1)));
    } else {
        assert(cks.skip(1)[k0 - 1] == cks[k0]);
        lemma_overlay_applies(new, base1, cks.skip(1), j);
    }
}

/// Overlaying the emitted chunks on the reference rebuilds `new` at every
/// position where `new` and the reference differ; positions where they agree
/// keep whichever value the base held.
#[verifier::rlimit(100)]
pub proof fn lemma_chunks_reconstruct<T>(new: Seq<T>, refr: Seq<T>, cs: int)
    requires
        1 <= cs,
        new.len() <= refr.len(),
    ensures
        ({
            let out = overlay_chunks(refr.take(new.len() as int), spec_chunks(new, refr, cs, 0));
            &&& out.len() == new.len()
            &&& forall|j: int| 0 <= j < new.len() && new[j] != refr[j] ==> out[j] == new[j]
        }),
{
    let base = refr.take(new.len() as int);
    let cks = spec_chunks(new, refr, cs, 0);
    lemma_chunks_wf(new, refr, cs, 0);
    lemma_chunks_sorted(new, refr, cs, 0);
    lemma_chunks_cover(new, refr, cs, 0);
    lemma_overlay_len(base, cks);
    let out = overlay_chunks(base, cks);
    assert forall|j: int| 0 <= j < new.len() && new[j] != refr[j] implies out[j] == new[j] by {
        assert(forall|k: int|
            0 <= k < cks.len() ==> #[trigger] cks[k].1 =~= new.subrange(
                cks[k].0,
                cks[k].0 + cks[k].1.len(),
            ) && 0 <= cks[k].0 && cks[k].0 + cks[k].1.len() <= new.len());
        lemma_overlay_applies(new, base, cks, j);
    }
}

/// Every chunk holds at most `cs` elements and begins and ends at positions
/// where `new` and the reference differ.
pub proof fn lemma_chunks_shape<T>(new: Seq<T>, refr: Seq<T>, cs: int)
    requires
        1 <= cs,
        new.len() <= refr.len(),
    ensures
        forall|k: int|
            0 <= k < spec_chunks(new, refr, cs, 0).len() ==> chunk_wf(
                new,
                refr,
                cs,
                #[trigger] spec_chunks(new, refr, cs, 0)[k],
            ),
{
    lemma_chunks_wf(new, refr, cs, 0);
}

/// The view of a collected chunk list.
pub open spec fn chunks_view<T>(r: Seq<(usize, Vec<T>)>) -> Seq<(int, Seq<T>)> {
    r.map_values(|p: (usize, Vec<T>)| (p.0 as int, p.1@))
}

/// A scan in progress over a new slice and its reference.
pub struct ChunksChanges<'a, T> {
    v: &'a [T],
    offset: usize,
    chunk_size: usize,
    reference: &'a [T],
}

impl<'a, T: Copy + PartialEq + PartialEqSpec> ChunksChanges<'a, T> {
    pub closed spec fn wf(&self) -> bool {
        &&& self.chunk_size >= 1
        &&& self.v@.len() <= self.reference@.len()
    }

    /// The chunks this scan has yet to emit.
    pub closed spec fn remaining(&self) -> Seq<(int, Seq<T>)> {
        spec_chunks(self.v@, self.reference@, self.chunk_size as int, self.offset as int)
    }

    pub fn new(v: &'a [T], chunk_size: usize, reference: &'a [T]) -> (r: ChunksChanges<'a, T>)
        requires
            chunk_size >= 1,
            v@.len() <= reference@.len(),
        ensures
            r.wf(),
            r.remaining() == spec_chunks(v@, reference@, chunk_size as int, 0),
    {
        ChunksChanges { v, offset: 0, chunk_size, reference }
    }

    /// The next chunk of the scan: its offset into the new slice, and the
    /// differing elements it carries.
    pub fn next(&mut self) -> (r: Option<(usize, Vec<T>)>)
        requires
            old(self).wf(),
            plain_eq::<T>(),
        ensures
            final(self).wf(),
            r is None ==> old(self).remaining().len() == 0 && final(self).remaining().len() == 0,
            r matches Some(c) ==> {
                &&& old(self).remaining().len() >= 1
                &&& old(self).remaining()[0] == (c.0 as int, c.1@)
                &&& final(self).remaining() == old(self).remaining().skip(1)
            },
    {
        let n = self.v.len();
        let ghost new = self.v@;
        let ghost refr = self.reference@;
        let ghost cs = self.chunk_size as int;
        let start0 = self.offset;
        if start0 >= n {
            return None;
        }
        let mut i = start0;
        while i < n && self.v[i] == self.reference[i]
            invariant
                start0 <= i <= n,
                n == new.len(),
                self == old(self),
                self.v@ == new,
                self.reference@ == refr,
                new.len() <= refr.len(),
                forall|j: int| start0 <= j < i ==> new[j] == refr[j],
                plain_eq::<T>(),
            decreases n - i,
        {
            i = i + 1;
        }
        proof {
            lemma_chunks_skip_equal(new, refr, cs, start0 as int, i as int);
        }
        if i >= n {
            return None;
        }
        assert(new[i as int] != refr[i as int]);
        let start = i;
        let rem = n - start;
        let max_end = if self.chunk_size < rem {
            start + self.chunk_size
        } else {
            n
        };
        let mut e = max_end;
        while self.v[e - 1] == self.reference[e - 1]
            invariant
                start < e <= max_end <= n,
                n == new.len(),
                self == old(self),
                self.v@ == new,
                self.reference@ == refr,
                new.len() <= refr.len(),
                new[start as int] != refr[start as int],
                forall|j: int| e <= j < max_end ==> new[j] == refr[j],
                plain_eq::<T>(),
            decreases e,
        {
            e = e - 1;
        }
        assert(new[e - 1] != refr[e - 1]);
        proof {
            lemma_last_diff_from_scan(new, refr, start as int, e as int, max_end as int);
        }
        let mut chunk: Vec<T> = Vec::new();
        let mut k = start;
        while k < e
            invariant
                start <= k <= e <= n,
                n == new.len(),
                self.v@ == new,
                chunk@ =~= new.subrange(start as int, k as int),
            decreases e - k,
        {
            chunk.push(self.v[k]);
            k = k + 1;
        }
        self.offset = max_end;
        proof {
            assert(chunk@ =~= new.subrange(start as int, e as int));
            let spec_max_end: int = if start + cs <= new.len() {
                start + cs
            } else {
                new.len() as int
            };
            assert(spec_max_end == max_end as int);
            assert(spec_chunks(new, refr, cs, start as int) == seq![
                (start as int, new.subrange(start as int, e as int)),
            ] + spec_chunks(new, refr, cs, max_end as int));
            assert(old(self).remaining()[0] == (start as int, chunk@));
            assert(final(self).remaining() =~= old(self).remaining().skip(1));
        }
        Some((start, chunk))
    }

    /// Runs the scan to its end and collects every chunk.
    pub fn collect_all(&mut self) -> (r: Vec<(usize, Vec<T>)>)
        requires
            old(self).wf(),
            plain_eq::<T>(),
        ensures
            final(self).wf(),
            chunks_view(r@) == old(self).remaining(),
    {
        let mut out: Vec<(usize, Vec<T>)> = Vec::new();
        loop
            invariant
                self.wf(),
                plain_eq::<T>(),
                chunks_view(out@) + self.remaining() =~= old(self).remaining(),
            ensures
                self.wf(),
                chunks_view(out@) == old(self).remaining(),
            decreases self.remaining().len(),
        {
            match self.next() {
                None => {
                    proof {
                        assert(chunks_view(out@) =~= old(self).remaining());
                    }
                    break ;
                },
                Some(c) => {
                    let ghost before = out@;
                    out.push(c);
                    proof {
                        assert(chunks_view(out@) =~= chunks_view(before) + seq![
                            (c.0 as int, c.1@),
                        ]);
                    }
                },
            }
        }
        out
    }
}

/// Differential chunking of a slice against a reference of at least its
/// length.
pub trait ChunkChanged<'a, T: Copy + PartialEq + PartialEqSpec>: View<V = Seq<T>> {
    fn chunk_changed(&'a self, chunk_size: usize, reference: &'a [T]) -> (r: ChunksChanges<
        'a,
        T,
    >)
        requires
            chunk_size >= 1,
            self@.len() <= reference@.len(),
        ensures
            r.wf(),
            r.remaining() == spec_chunks(self@, reference@, chunk_size as int, 0),
    ;
}

impl<'a, T: Copy + PartialEq + PartialEqSpec> ChunkChanged<'a, T> for [T] {
    fn chunk_changed(&'a self, chunk_size: usize, reference: &'a [T]) -> (r: ChunksChanges<
        'a,
        T,
    >) {
        ChunksChanges::new(self, chunk_size, reference)
    }
}

/// The chunks of `new` against `reference`, collected into a vector.
pub fn chunk_changed_list<T: Copy + PartialEq + PartialEqSpec>(
    new: &[T],
    reference: &[T],
    chunk_size: usize,
) -> (r: Vec<(usize, Vec<T>)>)
    requires
        chunk_size >= 1,
        new@.len() <= reference@.len(),
        plain_eq::<T>(),
    ensures
        chunks_view(r@) == spec_chunks(new@, reference@, chunk_size as int, 0),
{
    let mut scan = ChunksChanges::new(new, chunk_size, reference);
    scan.collect_all()
}

} // verus!
