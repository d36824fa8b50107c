//! Rebuilding the document: the text between markers is kept byte for byte and
//! each marker gives way to its image reference, in scan order.
use vstd::prelude::*;
use vstd::string::StringSliceAdditionalSpecFns;
use crate::scan::{markers, markers_from, marker_starts, marker_end, content_len, lemma_content_len_bound};

verus! {

/// Where the untouched text before marker `k` starts: the end of marker
/// `k - 1`, or the start of the document.
pub open spec fn cursor(ms: Seq<(int, int)>, k: int) -> int {
    if k <= 0 {
        0
    } else {
        ms[k - 1].1
    }
}

/// The spans lie inside `s`, in order, without overlap, each holding at least
/// its two delimiters.
pub open spec fn spans_wf(s: Seq<u8>, ms: Seq<(int, int)>) -> bool {
    &&& forall|k: int|
        #![trigger ms[k]]
        0 <= k < ms.len() ==> 0 <= ms[k].0 && ms[k].0 + 6 <= ms[k].1 && ms[k].1 <= s.len()
    &&& forall|i: int, j: int|
        #![trigger ms[i], ms[j]]
        0 <= i < j < ms.len() ==> ms[i].1 <= ms[j].0
}

/// The output up to and including the reference of marker `k - 1`.
pub open spec fn spliced(s: Seq<u8>, ms: Seq<(int, int)>, refs: Seq<Seq<u8>>, k: int) -> Seq<u8>
    decreases k,
{
    if k <= 0 {
        Seq::empty()
    } else {
        spliced(s, ms, refs, k - 1) + s.subrange(cursor(ms, k - 1), ms[k - 1].0) + refs[k - 1]
    }
}

/// `s` with span `ms[k]` replaced by `refs[k]` for each `k`.
pub open spec fn rewritten(s: Seq<u8>, ms: Seq<(int, int)>, refs: Seq<Seq<u8>>) -> Seq<u8> {
    spliced(s, ms, refs, ms.len() as int) + s.subrange(cursor(ms, ms.len() as int), s.len() as int)
}

/// Total length of the first `k` spans.
pub open spec fn covered(ms: Seq<(int, int)>, k: int) -> int
    decreases k,
{
    if k <= 0 {
        0
    } else {
        covered(ms, k - 1) + (ms[k - 1].1 - ms[k - 1].0)
    }
}

/// Total length of the first `k` references.
pub open spec fn inserted(refs: Seq<Seq<u8>>, k: int) -> int
    decreases k,
{
    if k <= 0 {
        0
    } else {
        inserted(refs, k - 1) + refs[k - 1].len()
    }
}

/// The markers from `p` on lie inside `s`, in order, all at or after `p`.
proof fn lemma_markers_from_wf(s: Seq<u8>, p: int)
    requires
        0 <= p,
    ensures
        spans_wf(s, markers_from(s, p)),
        forall|k: int|
            #![trigger markers_from(s, p)[k]]
            0 <= k < markers_from(s, p).len() ==> p <= markers_from(s, p)[k].0,
    decreases s.len() - p,
{
    if p < s.len() {
        if marker_starts(s, p) {
            let e = marker_end(s, p);
            lemma_content_len_bound(s, p + 3);
            lemma_markers_from_wf(s, e);
            let tail = markers_from(s, e);
            let ms = markers_from(s, p);
            assert(ms =~= seq![(p, e)] + tail);
            assert forall|k: int| #![trigger ms[k]] 0 <= k < ms.len() implies 0 <= ms[k].0 && ms[k].0
                + 6 <= ms[k].1 && ms[k].1 <= s.len() && p <= ms[k].0 by {
                if k > 0 {
                    assert(ms[k] == tail[k - 1]);
                }
            }
            assert forall|i: int, j: int| #![trigger ms[i], ms[j]] 0 <= i < j < ms.len() implies ms[i].1
                <= ms[j].0 by {
                assert(ms[j] == tail[j - 1]);
                if i > 0 {
                    assert(ms[i] == tail[i - 1]);
                }
            }
            assert(spans_wf(s, ms));
        } else {
            lemma_markers_from_wf(s, p + 1);
            assert(markers_from(s, p) == markers_from(s, p + 1));
        }
    }
}

/// The markers that the scan finds are well placed.
pub proof fn lemma_markers_wf(s: Seq<u8>)
    ensures
        spans_wf(s, markers(s)),
{
    lemma_markers_from_wf(s, 0);
}

/// The output before the untouched text of marker `k` is as long as the
/// source before it, less what the earlier markers covered, plus what was put
/// in their place.
proof fn lemma_spliced_len(s: Seq<u8>, ms: Seq<(int, int)>, refs: Seq<Seq<u8>>, k: int)
    requires
        spans_wf(s, ms),
        refs.len() == ms.len(),
        0 <= k <= ms.len(),
    ensures
        spliced(s, ms, refs, k).len() == cursor(ms, k) - covered(ms, k) + inserted(refs, k),
    decreases k,
{
    if k > 0 {
        lemma_spliced_len(s, ms, refs, k - 1);
        if k > 1 {
            assert(ms[k - 2].1 <= ms[k - 1].0);
        }
        assert(0 <= cursor(ms, k - 1) <= ms[k - 1].0);
    }
}

/// What was spliced after `k` markers starts what is spliced after `j >= k`.
proof fn lemma_spliced_prefix(s: Seq<u8>, ms: Seq<(int, int)>, refs: Seq<Seq<u8>>, k: int, j: int)
    requires
        0 <= k <= j <= ms.len(),
    ensures
        spliced(s, ms, refs, k).len() <= spliced(s, ms, refs, j).len(),
        spliced(s, ms, refs, j).subrange(0, spliced(s, ms, refs, k).len() as int)
            == spliced(s, ms, refs, k),
    decreases j - k,
{
    if k < j {
        lemma_spliced_prefix(s, ms, refs, k, j - 1);
        let a = spliced(s, ms, refs, k);
        let b = spliced(s, ms, refs, j - 1);
        let c = spliced(s, ms, refs, j);
        assert(c.subrange(0, b.len() as int) =~= b);
        assert(c.subrange(0, a.len() as int) =~= b.subrange(0, a.len() as int));
    } else {
        assert(spliced(s, ms, refs, k).subrange(0, spliced(s, ms, refs, k).len() as int)
            =~= spliced(s, ms, refs, k));
    }
}

/// Splicing the first `k` markers reads only the first `k` references.
pub proof fn lemma_spliced_reads_prefix(
    s: Seq<u8>,
    ms: Seq<(int, int)>,
    a: Seq<Seq<u8>>,
    b: Seq<Seq<u8>>,
    k: int,
)
    requires
        0 <= k <= a.len(),
        k <= b.len(),
        forall|i: int| 0 <= i < k ==> a[i] == b[i],
    ensures
        spliced(s, ms, a, k) == spliced(s, ms, b, k),
    decreases k,
{
    if k > 0 {
        lemma_spliced_reads_prefix(s, ms, a, b, k - 1);
    }
}

/// A document in which the scan finds no marker comes out unchanged.
pub proof fn law_identity_without_markers(s: Seq<u8>, refs: Seq<Seq<u8>>)
    requires
        markers(s).len() == 0,
    ensures
        rewritten(s, markers(s), refs) == s,
{
    assert(rewritten(s, markers(s), refs) =~= s);
}

/// The output is as long as the source, less the bytes of all markers, plus
/// the bytes of all references.
pub proof fn law_output_length(s: Seq<u8>, ms: Seq<(int, int)>, refs: Seq<Seq<u8>>)
    requires
        spans_wf(s, ms),
        refs.len() == ms.len(),
    ensures
        rewritten(s, ms, refs).len() == s.len() - covered(ms, ms.len() as int) + inserted(
            refs,
            ms.len() as int,
        ),
{
    lemma_spliced_len(s, ms, refs, ms.len() as int);
    if ms.len() > 0 {
        assert(ms[ms.len() - 1].1 <= s.len());
        assert(ms[ms.len() - 1].0 <= ms[ms.len() - 1].1);
    }
}

/// Where the untouched text before marker `k` starts in the output.
pub open spec fn gap_position(s: Seq<u8>, ms: Seq<(int, int)>, refs: Seq<Seq<u8>>, k: int) -> int {
    spliced(s, ms, refs, k).len() as int
}

/// Where the reference of marker `k` starts in the output.
pub open spec fn reference_position(s: Seq<u8>, ms: Seq<(int, int)>, refs: Seq<Seq<u8>>, k: int) -> int {
    gap_position(s, ms, refs, k) + (ms[k].0 - cursor(ms, k))
}

/// The output holds, for each marker in scan order, first the untouched text
/// before it and then its reference, and each reference ends before the next
/// one starts: one reference per marker, in the order the markers were found.
pub proof fn law_references_in_order(s: Seq<u8>, ms: Seq<(int, int)>, refs: Seq<Seq<u8>>, k: int)
    requires
        spans_wf(s, ms),
        refs.len() == ms.len(),
        0 <= k < ms.len(),
    ensures
        ({
            let out = rewritten(s, ms, refs);
            let g = gap_position(s, ms, refs, k);
            let r = reference_position(s, ms, refs, k);
            &&& out.subrange(g, r) == s.subrange(cursor(ms, k), ms[k].0)
            &&& r + refs[k].len() <= out.len()
            &&& out.subrange(r, r + refs[k].len()) == refs[k]
            &&& k + 1 < ms.len() ==> r + refs[k].len() <= reference_position(s, ms, refs, k + 1)
        }),
{
    let out = rewritten(s, ms, refs);
    let next = spliced(s, ms, refs, k + 1);
    lemma_spliced_prefix(s, ms, refs, k + 1, ms.len() as int);
    assert(out.subrange(0, next.len() as int) =~= next);
    let g = gap_position(s, ms, refs, k);
    let r = reference_position(s, ms, refs, k);
    if k > 0 {
        assert(ms[k - 1].1 <= ms[k].0);
    }
    assert(0 <= cursor(ms, k) <= ms[k].0);
    lemma_spliced_len(s, ms, refs, k);
    assert(next =~= spliced(s, ms, refs, k) + s.subrange(cursor(ms, k), ms[k].0) + refs[k]);
    assert(next.subrange(g, r) =~= s.subrange(cursor(ms, k), ms[k].0));
    assert(next.subrange(r, r + refs[k].len()) =~= refs[k]);
    assert(out.subrange(g, r) =~= next.subrange(g, r));
    assert(out.subrange(r, r + refs[k].len()) =~= next.subrange(r, r + refs[k].len()));
    if k + 1 < ms.len() {
        assert(ms[k].1 <= ms[k + 1].0);
        assert(cursor(ms, k + 1) <= ms[k + 1].0);
    }
}

} // verus!
