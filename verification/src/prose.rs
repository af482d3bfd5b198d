//! Texts and positions: byte offsets, the line-start table that turns a byte
//! offset into a line and column, and the line-aligned partitioner that splits
//! a text for independent searching.

use vstd::prelude::*;

use crate::util::count_byte;

verus! {

/// A byte range into a text, relative to the whole buffer.
#[derive(Clone, Copy, Debug, PartialEq, Eq, Structural)]
pub struct Offset {
    pub start: usize,
    pub end: usize,
}

impl Offset {
    pub fn new(start: usize, end: usize) -> (o: Offset)
        ensures
            o.start == start,
            o.end == end,
    {
        Offset { start, end }
    }
}

/// An immutable text buffer with a provenance label and an end-of-line byte.
#[derive(Clone, Debug)]
pub struct Prose {
    pub name: String,
    pub text: Vec<u8>,
    pub eol: u8,
}

/// One unit of search work: a text together with the byte range to search.
#[derive(Clone, Debug)]
pub struct ProseOff {
    pub prose: Prose,
    pub offset: Offset,
}

/// What a worker draws from the shared pool: either a range of a text to
/// search, or the signal to stop.
pub enum Work {
    Prose(ProseOff),
    Quit,
}

/// Byte offsets at which a line begins because the previous byte ends a line:
/// one entry `p + 1` for each end-of-line byte at position `p`, in order.
pub open spec fn spec_eol_starts(text: Seq<u8>, eol: u8) -> Seq<usize>
    decreases text.len(),
{
    if text.len() == 0 {
        seq![]
    } else {
        spec_eol_starts(text.drop_last(), eol) + if text.last() == eol {
            seq![text.len() as usize]
        } else {
            seq![]
        }
    }
}

/// The full offset table: a first line start at zero, one entry per further
/// line start, and a final sentinel one past the buffer length.
pub open spec fn spec_index(text: Seq<u8>, eol: u8) -> Seq<usize> {
    seq![0usize] + spec_eol_starts(text, eol) + seq![(text.len() + 1) as usize]
}

pub open spec fn strictly_increasing(t: Seq<usize>) -> bool {
    forall|i: int, j: int| 0 <= i < j < t.len() ==> t[i] < t[j]
}

/// Shape of every table that `PositionIndex::build` produces.
pub proof fn lemma_eol_starts_wf(text: Seq<u8>, eol: u8)
    requires
        text.len() <= usize::MAX,
    ensures
        spec_eol_starts(text, eol).len() == count_byte(text, eol),
        forall|k: int|
            0 <= k < spec_eol_starts(text, eol).len() ==> 1 <= #[trigger] spec_eol_starts(
                text,
                eol,
            )[k] <= text.len(),
        strictly_increasing(spec_eol_starts(text, eol)),
    decreases text.len(),
{
    if text.len() > 0 {
        lemma_eol_starts_wf(text.drop_last(), eol);
        let prev = spec_eol_starts(text.drop_last(), eol);
        let cur = spec_eol_starts(text, eol);
        assert(forall|k: int|
            0 <= k < prev.len() ==> #[trigger] prev[k] <= text.drop_last().len());
        if text.last() == eol {
            assert(cur =~= prev + seq![text.len() as usize]);
            assert(forall|k: int| 0 <= k < prev.len() ==> cur[k] == prev[k]);
            assert forall|i: int, j: int| 0 <= i < j < cur.len() implies cur[i] < cur[j] by {
                if j < prev.len() {
                    assert(prev[i] < prev[j]);
                } else {
                    assert(cur[j] == text.len());
                    assert(cur[i] == prev[i]);
                }
            }
        } else {
            assert(cur =~= prev);
        }
    }
}

pub proof fn lemma_index_wf(text: Seq<u8>, eol: u8)
    requires
        text.len() < usize::MAX,
    ensures
        spec_index(text, eol).len() == count_byte(text, eol) + 2,
        spec_index(text, eol)[0] == 0,
        spec_index(text, eol).last() == text.len() + 1,
        strictly_increasing(spec_index(text, eol)),
        forall|k: int|
            0 <= k < spec_index(text, eol).len() - 1 ==> #[trigger] spec_index(text, eol)[k]
                <= text.len(),
{
    lemma_eol_starts_wf(text, eol);
    let t = spec_index(text, eol);
    assert forall|i: int, j: int| 0 <= i < j < t.len() implies t[i] < t[j] by {
        lemma_eol_starts_wf(text, eol);
    }
}

/// The greatest index whose entry is at most `off`, or `-1` when every entry
/// exceeds `off`.
pub open spec fn spec_line_of(t: Seq<usize>, off: usize) -> int
    decreases t.len(),
{
    if t.len() == 0 {
        -1
    } else if t.last() <= off {
        t.len() - 1
    } else {
        spec_line_of(t.drop_last(), off)
    }
}

/// The 1-based line and column of a byte offset: the line owning the greatest
/// line start not past the offset, and the distance into that line plus one.
pub open spec fn spec_resolve(t: Seq<usize>, off: usize) -> (usize, usize) {
    let i = spec_line_of(t, off);
    ((i + 1) as usize, (off - t[i] + 1) as usize)
}

pub proof fn lemma_line_of(t: Seq<usize>, off: usize)
    requires
        t.len() > 0,
        t[0] <= off,
    ensures
        0 <= spec_line_of(t, off) < t.len(),
        t[spec_line_of(t, off)] <= off,
        forall|j: int| spec_line_of(t, off) < j < t.len() ==> t[j] > off,
    decreases t.len(),
{
    if t.len() > 0 && t.last() > off {
        lemma_line_of(t.drop_last(), off);
        let r = spec_line_of(t, off);
        assert(r == spec_line_of(t.drop_last(), off));
        assert(t[r] == t.drop_last()[r]);
        assert forall|j: int| r < j < t.len() implies t[j] > off by {
            if j < t.len() - 1 {
                assert(t.drop_last()[j] > off);
            }
        }
    }
}

/// A precomputed table mapping byte offsets to line and column positions.
pub struct PositionIndex {
    offsets: Vec<usize>,
}

impl View for PositionIndex {
    type V = Seq<usize>;

    closed spec fn view(&self) -> Seq<usize> {
        self.offsets@
    }
}

impl PositionIndex {
    /// One forward scan of the buffer, collecting a start for each line and
    /// the final sentinel.
    pub fn build(text: &Vec<u8>, eol: u8) -> (idx: PositionIndex)
        requires
            text@.len() < usize::MAX,
        ensures
            idx@ == spec_index(text@, eol),
    {
        let mut offsets: Vec<usize> = Vec::new();
        offsets.push(0);
        let mut i: usize = 0;
        while i < text.len()
            invariant
                0 <= i <= text@.len(),
                text@.len() < usize::MAX,
                offsets@ == seq![0usize] + spec_eol_starts(text@.take(i as int), eol),
            decreases text@.len() - i,
        {
            proof {
                assert(text@.take(i + 1).drop_last() =~= text@.take(i as int));
                assert(text@.take(i + 1).last() == text@[i as int]);
            }
            if text[i] == eol {
                offsets.push(i + 1);
                proof {
                    assert(offsets@ =~= seq![0usize] + spec_eol_starts(text@.take(i + 1), eol));
                }
            } else {
                proof {
                    assert(offsets@ =~= seq![0usize] + spec_eol_starts(text@.take(i + 1), eol));
                }
            }
            i = i + 1;
        }
        proof {
            assert(text@.take(text@.len() as int) =~= text@);
        }
        offsets.push(text.len() + 1);
        proof {
            assert(offsets@ =~= spec_index(text@, eol));
        }
        PositionIndex { offsets }
    }

    /// Resolve a byte offset to its 1-based line and column: a binary search
    /// for the greatest line start not past the offset. Among several table
    /// entries of one value, the greatest index wins, so an offset shared by
    /// empty lines is attributed to the last of them, at column one.
    pub fn resolve(&self, off: usize) -> (r: (usize, usize))
        requires
            self@.len() >= 2,
            strictly_increasing(self@),
            self@[0] <= off,
            off < self@.last(),
        ensures
            r == spec_resolve(self@, off),
            1 <= r.0 < self@.len(),
            self@[r.0 - 1] <= off,
            forall|j: int| r.0 <= j < self@.len() ==> self@[j] > off,
            r.1 == off - self@[r.0 - 1] + 1,
    {
        proof {
            lemma_line_of(self@, off);
        }
        let ghost t = self@;
        let mut lo: usize = 0;
        let mut hi: usize = self.offsets.len() - 1;
        while lo + 1 < hi
            invariant
                0 <= lo < hi < t.len(),
                t == self@,
                t[lo as int] <= off,
                t[hi as int] > off,
                off < t.last(),
                strictly_increasing(t),
            decreases hi - lo,
        {
            let mid = lo + (hi - lo) / 2;
            if self.offsets[mid] <= off {
                lo = mid;
            } else {
                hi = mid;
            }
        }
        proof {
            let i = spec_line_of(t, off);
            assert(forall|j: int| lo < j < t.len() ==> t[j] > off);
            assert(i == lo) by {
                if i < lo {
                    assert(t[lo as int] > off);
                } else if i > lo {
                    assert(t[i] > off);
                }
            }
        }
        (lo + 1, off - self.offsets[lo] + 1)
    }

    pub fn len(&self) -> (n: usize)
        ensures
            n == self@.len(),
    {
        self.offsets.len()
    }

    pub fn entry(&self, i: usize) -> (v: usize)
        requires
            i < self@.len(),
        ensures
            v == self@[i as int],
    {
        self.offsets[i]
    }
}

/// Whether `v` is one of the line starts recorded in the table (the final
/// sentinel is not a line start).
pub open spec fn is_line_start(t: Seq<usize>, v: usize) -> bool {
    exists|i: int| 0 <= i < t.len() - 1 && t[i] == v
}

/// Lines per partition: the line count divided by the clamped split factor,
/// rounded up.
pub open spec fn spec_lpp(line_count: usize, split: usize) -> usize {
    let s = if split < 1 || line_count < 1 {
        1
    } else if split > line_count {
        line_count
    } else {
        split
    };
    (line_count / s + if line_count % s == 0 {
        0int
    } else {
        1int
    }) as usize
}

/// The partitions from line `cur` on: each takes the next `lpp` lines, the
/// final one runs to the end of the buffer.
pub open spec fn spec_parts_from(t: Seq<usize>, text_len: usize, lpp: usize, cur: int) -> Seq<
    Offset,
>
    decreases t.len() - cur,
{
    let lc = t.len() - 1;
    if lpp < 1 || cur < 0 || cur >= lc {
        seq![]
    } else {
        let next = if lc - cur > lpp {
            cur + lpp
        } else {
            lc
        };
        let start = t[cur];
        let end = if next == lc {
            text_len
        } else {
            t[next]
        };
        seq![Offset { start, end }] + spec_parts_from(t, text_len, lpp, next)
    }
}

/// The partitioning of the text behind the offset table.
pub open spec fn spec_partition(t: Seq<usize>, text_len: usize, split: usize) -> Seq<Offset> {
    spec_parts_from(t, text_len, spec_lpp((t.len() - 1) as usize, split), 0)
}

/// With a split factor of one, the whole buffer is a single partition.
pub proof fn lemma_single_partition(t: Seq<usize>, text_len: usize)
    requires
        t.len() >= 2,
        t.len() - 1 <= usize::MAX,
        t[0] == 0,
    ensures
        spec_partition(t, text_len, 1) == seq![Offset { start: 0, end: text_len }],
{
    let lc = (t.len() - 1) as usize;
    assert(spec_lpp(lc, 1) == lc);
    assert(spec_parts_from(t, text_len, lc, lc as int) =~= Seq::<Offset>::empty());
    assert(spec_partition(t, text_len, 1) =~= seq![Offset { start: 0, end: text_len }]);
}

/// Split the text behind the offset table into contiguous, line-aligned byte
/// ranges: the split factor is clamped to one partition at least and one per
/// line at most, each partition takes the next `ceil(lines / split)` lines,
/// and the final partition runs to the end of the buffer.
pub fn partition(idx: &PositionIndex, text_len: usize, split: usize) -> (parts: Vec<Offset>)
    requires
        idx@.len() >= 2,
        strictly_increasing(idx@),
        idx@[0] == 0,
        idx@.last() == text_len + 1,
        text_len < usize::MAX,
    ensures
        parts@.len() >= 1,
        split >= 1 ==> parts@.len() <= split,
        parts@.len() <= idx@.len() - 1,
        parts@[0].start == 0,
        parts@.last().end == text_len,
        forall|k: int| 0 <= k < parts@.len() - 1 ==> (#[trigger] parts@[k]).end == parts@[k + 1].start,
        forall|k: int|
            0 <= k < parts@.len() ==> (#[trigger] parts@[k]).start <= parts@[k].end <= text_len,
        forall|k: int| 0 <= k < parts@.len() ==> is_line_start(idx@, (#[trigger] parts@[k]).start),
        forall|k: int|
            0 <= k < parts@.len() - 1 ==> is_line_start(idx@, (#[trigger] parts@[k]).end),
        parts@ == spec_partition(idx@, text_len, split),
{
    let ghost t = idx@;
    let lc: usize = idx.len() - 1;
    let s: usize = if split < 1 {
        1
    } else if split > lc {
        lc
    } else {
        split
    };
    let lpp: usize = lc / s + if lc % s == 0 {
        0
    } else {
        1
    };
    proof {
        vstd::arithmetic::div_mod::lemma_fundamental_div_mod(lc as int, s as int);
        assert(lc <= lpp * s) by (nonlinear_arith)
            requires
                s >= 1,
                lpp >= lc / s,
                lc % s != 0 ==> lpp >= lc / s + 1,
                lc == s * (lc / s) + lc % s,
                0 <= lc % s < s,
        ;
        assert(lpp >= 1) by (nonlinear_arith)
            requires
                1 <= s <= lc,
                lpp >= lc / s,
        ;
        assert(forall|k: int| 0 <= k < t.len() - 1 ==> #[trigger] t[k] < t[t.len() - 1]);
    }
    let mut parts: Vec<Offset> = Vec::new();
    let mut cur: usize = 0;
    proof {
        assert(parts@.len() * lpp == 0) by (nonlinear_arith)
            requires
                parts@.len() == 0,
        ;
        assert(lpp == spec_lpp(lc, split));
        assert(parts@ + spec_parts_from(t, text_len, lpp, 0) =~= spec_partition(
            t,
            text_len,
            split,
        ));
    }
    while cur < lc
        invariant
            t == idx@,
            t.len() >= 2,
            strictly_increasing(t),
            t[0] == 0,
            t.last() == text_len + 1,
            text_len < usize::MAX,
            lc == t.len() - 1,
            1 <= s <= lc,
            1 <= lpp,
            lc <= lpp * s,
            0 <= cur <= lc,
            parts@.len() == 0 ==> cur == 0,
            parts@.len() >= 1 ==> parts@[0].start == 0,
            cur == parts@.len() * lpp || (cur == lc && parts@.len() >= 1 && cur > (parts@.len()
                - 1) * lpp),
            parts@.len() >= 1 && cur < lc ==> parts@.last().end == t[cur as int],
            parts@.len() >= 1 && cur == lc ==> parts@.last().end == text_len,
            forall|k: int|
                0 <= k < parts@.len() - 1 ==> (#[trigger] parts@[k]).end == parts@[k + 1].start,
            forall|k: int|
                0 <= k < parts@.len() ==> (#[trigger] parts@[k]).start <= parts@[k].end
                    <= text_len,
            forall|k: int|
                0 <= k < parts@.len() ==> is_line_start(t, (#[trigger] parts@[k]).start),
            forall|k: int|
                0 <= k < parts@.len() - 1 ==> is_line_start(t, (#[trigger] parts@[k]).end),
            lpp == spec_lpp(lc, split),
            parts@ + spec_parts_from(t, text_len, lpp, cur as int) == spec_partition(
                t,
                text_len,
                split,
            ),
        decreases lc - cur,
    {
        let next: usize = if lc - cur > lpp {
            cur + lpp
        } else {
            lc
        };
        let start = idx.entry(cur);
        let end = if next == lc {
            text_len
        } else {
            idx.entry(next)
        };
        proof {
            assert(t[cur as int] < t[t.len() - 1]);
            if next < lc {
                assert(t[cur as int] < t[next as int]);
                assert(t[next as int] < t[t.len() - 1]);
            }
            assert(is_line_start(t, t[cur as int]));
            if next < lc {
                assert(is_line_start(t, t[next as int]));
            }
            let l = parts@.len() as int;
            assert(cur == l * lpp);
            if lc - cur > lpp {
                assert((l + 1) * lpp == l * lpp + lpp) by (nonlinear_arith);
            }
            assert(spec_parts_from(t, text_len, lpp, cur as int) == seq![
                Offset { start: t[cur as int], end: (if next == lc {
                    text_len
                } else {
                    t[next as int]
                }) },
            ] + spec_parts_from(t, text_len, lpp, next as int));
            assert(parts@.push(Offset { start: t[cur as int], end: (if next == lc {
                text_len
            } else {
                t[next as int]
            }) }) + spec_parts_from(t, text_len, lpp, next as int) =~= parts@ + spec_parts_from(
                t,
                text_len,
                lpp,
                cur as int,
            ));
        }
        parts.push(Offset { start, end });
        cur = next;
    }
    proof {
        let ghost n = parts@.len() as int;
        assert(n <= s) by (nonlinear_arith)
            requires
                lpp >= 1,
                s >= 1,
                n >= 1,
                lc <= lpp * s,
                lc as int == n * lpp || (n - 1) * lpp < lc,
        ;
        assert(spec_parts_from(t, text_len, lpp, cur as int) =~= Seq::<Offset>::empty());
        assert(parts@ =~= spec_partition(t, text_len, split));
    }
    parts
}

/// The byte contents of each partition, in order.
pub open spec fn parts_bytes(text: Seq<u8>, parts: Seq<Offset>) -> Seq<Seq<u8>> {
    parts.map_values(|p: Offset| text.subrange(p.start as int, p.end as int))
}

proof fn lemma_ranges_flatten(text: Seq<u8>, parts: Seq<Offset>, from: int)
    requires
        0 <= from <= text.len(),
        parts.len() == 0 ==> from == text.len(),
        parts.len() > 0 ==> parts[0].start == from,
        parts.len() > 0 ==> parts.last().end == text.len(),
        forall|k: int|
            0 <= k < parts.len() ==> (#[trigger] parts[k]).start <= parts[k].end <= text.len(),
        forall|k: int| 0 <= k < parts.len() - 1 ==> (#[trigger] parts[k]).end == parts[k + 1].start,
    ensures
        parts_bytes(text, parts).flatten() == text.subrange(from, text.len() as int),
    decreases parts.len(),
{
    if parts.len() == 0 {
        assert(parts_bytes(text, parts).flatten() =~= text.subrange(from, text.len() as int));
    } else {
        let rest = parts.drop_first();
        let mid = parts[0].end as int;
        assert(forall|k: int|
            0 <= k < rest.len() ==> rest[k] == parts[k + 1]);
        lemma_ranges_flatten(text, rest, mid);
        let sb = parts_bytes(text, parts);
        assert(sb.len() == parts.len());
        assert(sb.drop_first() =~= parts_bytes(text, rest));
        assert(sb.first() == text.subrange(from, mid));
        assert(sb.flatten() == sb.first() + sb.drop_first().flatten());
        assert(parts_bytes(text, parts).flatten() == text.subrange(from, mid) + parts_bytes(
            text,
            rest,
        ).flatten());
        assert(text.subrange(from, mid) + text.subrange(mid, text.len() as int) =~= text.subrange(
            from,
            text.len() as int,
        ));
    }
}

/// Concatenating the byte ranges of all partitions, in order, reproduces the
/// original buffer exactly, and (since every boundary is a line start) no
/// boundary falls inside a line.
pub proof fn lemma_partition_coverage(text: Seq<u8>, parts: Seq<Offset>)
    requires
        parts.len() >= 1,
        parts[0].start == 0,
        parts.last().end == text.len(),
        forall|k: int|
            0 <= k < parts.len() ==> (#[trigger] parts[k]).start <= parts[k].end <= text.len(),
        forall|k: int| 0 <= k < parts.len() - 1 ==> (#[trigger] parts[k]).end == parts[k + 1].start,
    ensures
        parts_bytes(text, parts).flatten() == text,
{
    lemma_ranges_flatten(text, parts, 0);
    assert(text.subrange(0, text.len() as int) =~= text);
}

/// Every line start resolves to its own line at column one.
pub proof fn lemma_line_start_resolution(t: Seq<usize>, i: int)
    requires
        strictly_increasing(t),
        0 <= i < t.len(),
    ensures
        spec_resolve(t, t[i]) == ((i + 1) as usize, 1usize),
{
    lemma_line_of(t, t[i]);
    let r = spec_line_of(t, t[i]);
    if r < i {
        assert(t[i] > t[i]);
    }
    if r > i {
        assert(t[r] > t[i]);
        assert(t[i] < t[r]);
        assert(t[r] <= t[i]);
    }
}

} // verus!
