//! Finding equation markers: `[[[`, content without a line break, then the
//! first `]]]` after it. Matches are taken leftmost first, each as short as
//! possible, and never overlap.
use vstd::prelude::*;

verus! {

/// `[`
pub const OPEN: u8 = 91;

/// `]`
pub const CLOSE: u8 = 93;

/// A line break, `\n`.
pub const NEWLINE: u8 = 10;

/// `[[[` starts at byte `i` of `s`.
pub open spec fn opens_at(s: Seq<u8>, i: int) -> bool {
    0 <= i && i + 3 <= s.len() && s[i] == OPEN && s[i + 1] == OPEN && s[i + 2] == OPEN
}

/// `]]]` starts at byte `i` of `s`.
pub open spec fn closes_at(s: Seq<u8>, i: int) -> bool {
    0 <= i && i + 3 <= s.len() && s[i] == CLOSE && s[i + 1] == CLOSE && s[i + 2] == CLOSE
}

/// Length of the equation content that starts at byte `j`: the number of bytes
/// before the first `]]]`, or `None` where a line break or the end of `s`
/// comes first.
pub open spec fn content_len(s: Seq<u8>, j: int) -> Option<nat>
    decreases s.len() - j,
{
    if j < 0 || j >= s.len() {
        None
    } else if closes_at(s, j) {
        Some(0)
    } else if s[j] == NEWLINE {
        None
    } else {
        match content_len(s, j + 1) {
            Some(n) => Some(n + 1),
            None => None,
        }
    }
}

/// A marker starts at byte `i`.
pub open spec fn marker_starts(s: Seq<u8>, i: int) -> bool {
    opens_at(s, i) && content_len(s, i + 3) is Some
}

/// Byte just past the marker that starts at `i`.
pub open spec fn marker_end(s: Seq<u8>, i: int) -> int {
    i + 6 + content_len(s, i + 3)->0
}

/// The markers of `s` at or after byte `p`, in order, each as the half-open
/// byte span `(start, end)` it covers.
pub open spec fn markers_from(s: Seq<u8>, p: int) -> Seq<(int, int)>
    decreases s.len() - p via markers_from_decreases
{
    if p < 0 || p >= s.len() {
        Seq::empty()
    } else if marker_starts(s, p) {
        seq![(p, marker_end(s, p))] + markers_from(s, marker_end(s, p))
    } else {
        markers_from(s, p + 1)
    }
}

/// Content found from `j` ends, with its `]]]`, inside `s`.
pub proof fn lemma_content_len_bound(s: Seq<u8>, j: int)
    ensures
        content_len(s, j) matches Some(n) ==> j + n + 3 <= s.len(),
    decreases s.len() - j,
{
    if 0 <= j < s.len() && !closes_at(s, j) && s[j] != NEWLINE {
        lemma_content_len_bound(s, j + 1);
    }
}

#[via_fn]
proof fn markers_from_decreases(s: Seq<u8>, p: int) {
    lemma_content_len_bound(s, p + 3);
}

/// Content found from `j` runs up to a `]]]`, with no line break and no
/// earlier `]]]` on the way.
pub proof fn lemma_content_len_shape(s: Seq<u8>, j: int)
    requires
        content_len(s, j) is Some,
    ensures
        closes_at(s, j + content_len(s, j)->0),
        forall|i: int|
            j <= i < j + content_len(s, j)->0 ==> #[trigger] s[i] != NEWLINE && !closes_at(s, i),
    decreases s.len() - j,
{
    assert(0 <= j < s.len());
    if !closes_at(s, j) {
        assert(s[j] != NEWLINE);
        assert(content_len(s, j + 1) is Some);
        assert(content_len(s, j)->0 == content_len(s, j + 1)->0 + 1);
        lemma_content_len_shape(s, j + 1);
        assert forall|i: int| j <= i < j + content_len(s, j)->0 implies #[trigger] s[i]
            != NEWLINE && !closes_at(s, i) by {
            if i > j {
                assert(j + 1 <= i < j + 1 + content_len(s, j + 1)->0);
                assert(s[i] != NEWLINE && !closes_at(s, i));
            }
        }
    }
}

/// Where a marker may start in the gap before the `k`-th marker found from
/// `p`: the end of the marker before it, or `p`.
pub open spec fn gap_start(ms: Seq<(int, int)>, p: int, k: int) -> int {
    if k <= 0 {
        p
    } else {
        ms[k - 1].1
    }
}

proof fn lemma_markers_from_shape(s: Seq<u8>, p: int)
    requires
        0 <= p,
    ensures
        ({
            let ms = markers_from(s, p);
            &&& forall|k: int|
                #![trigger ms[k]]
                0 <= k < ms.len() ==> marker_starts(s, ms[k].0) && ms[k].1 == marker_end(
                    s,
                    ms[k].0,
                ) && forall|i: int| gap_start(ms, p, k) <= i < ms[k].0 ==> !marker_starts(s, i)
            &&& forall|i: int| gap_start(ms, p, ms.len() as int) <= i < s.len() ==> !marker_starts(s, i)
        }),
    decreases s.len() - p,
{
    let ms = markers_from(s, p);
    if p < s.len() {
        if marker_starts(s, p) {
            let e = marker_end(s, p);
            lemma_content_len_bound(s, p + 3);
            lemma_markers_from_shape(s, e);
            let tail = markers_from(s, e);
            assert(ms =~= seq![(p, e)] + tail);
            assert forall|k: int| #![trigger ms[k]] 0 <= k < ms.len() implies marker_starts(s, ms[k].0)
                && ms[k].1 == marker_end(s, ms[k].0) && forall|i: int|
                gap_start(ms, p, k) <= i < ms[k].0 ==> !marker_starts(s, i) by {
                if k > 0 {
                    assert(ms[k] == tail[k - 1]);
                    assert(gap_start(ms, p, k) == gap_start(tail, e, k - 1));
                }
            }
            assert(gap_start(ms, p, ms.len() as int) == gap_start(tail, e, tail.len() as int));
        } else {
            lemma_markers_from_shape(s, p + 1);
            let ms1 = markers_from(s, p + 1);
            assert(ms == ms1);
            assert forall|k: int| #![trigger ms[k]] 0 <= k < ms.len() implies marker_starts(s, ms[k].0)
                && ms[k].1 == marker_end(s, ms[k].0) && forall|i: int|
                gap_start(ms, p, k) <= i < ms[k].0 ==> !marker_starts(s, i) by {
                assert(ms[k] == ms1[k]);
                assert forall|i: int| gap_start(ms, p, k) <= i < ms[k].0 implies !marker_starts(s, i) by {
                    if i > p || k > 0 {
                        assert(gap_start(ms1, p + 1, k) <= i);
                    }
                }
            }
            assert forall|i: int| gap_start(ms, p, ms.len() as int) <= i < s.len() implies !marker_starts(s, i) by {
                if i > p || ms.len() > 0 {
                    assert(gap_start(ms1, p + 1, ms.len() as int) <= i);
                }
            }
        }
    }
}

/// Each marker found is `[[[`, content that holds no line break and no `]]]`,
/// then `]]]`: the shortest match from its start. And no marker starts in the
/// text that the scan passed over: before the first marker, between two
/// markers, or after the last one.
pub proof fn law_markers_shortest_leftmost(s: Seq<u8>)
    ensures
        forall|k: int|
            #![trigger markers(s)[k]]
            0 <= k < markers(s).len() ==> {
                let a = markers(s)[k].0;
                let e = markers(s)[k].1;
                &&& opens_at(s, a)
                &&& closes_at(s, e - 3)
                &&& a + 6 <= e
                &&& forall|i: int| a + 3 <= i < e - 3 ==> #[trigger] s[i] != NEWLINE && !closes_at(s, i)
                &&& forall|i: int| gap_start(markers(s), 0, k) <= i < a ==> !#[trigger] marker_starts(s, i)
            },
        forall|i: int|
            gap_start(markers(s), 0, markers(s).len() as int) <= i < s.len() ==> !#[trigger] marker_starts(s, i),
{
    let ms = markers(s);
    lemma_markers_from_shape(s, 0);
    assert forall|k: int| #![trigger ms[k]] 0 <= k < ms.len() implies {
        let a = ms[k].0;
        let e = ms[k].1;
        &&& opens_at(s, a)
        &&& closes_at(s, e - 3)
        &&& a + 6 <= e
        &&& forall|i: int| a + 3 <= i < e - 3 ==> #[trigger] s[i] != NEWLINE && !closes_at(s, i)
    } by {
        let a = ms[k].0;
        assert(marker_starts(s, a));
        lemma_content_len_shape(s, a + 3);
        assert(ms[k].1 - 3 == a + 3 + content_len(s, a + 3)->0);
    }
}

/// All markers of `s`, left to right.
pub open spec fn markers(s: Seq<u8>) -> Seq<(int, int)> {
    markers_from(s, 0)
}

/// A located marker: the byte span `start..end` of the whole `[[[...]]]`.
#[derive(Clone, Copy, Debug, PartialEq, Eq, Structural)]
pub struct Marker {
    pub start: usize,
    pub end: usize,
}

impl Marker {
    pub open spec fn span(self) -> (int, int) {
        (self.start as int, self.end as int)
    }

    /// Bytes between the brackets.
    pub open spec fn content_span(self) -> (int, int) {
        (self.start + 3, self.end - 3)
    }
}

/// The spans of a list of markers.
pub open spec fn spans(ms: Seq<Marker>) -> Seq<(int, int)> {
    ms.map_values(|m: Marker| m.span())
}

/// Looks for the end of the content that starts at byte `j`.
fn find_content_len(s: &[u8], j: usize) -> (r: Option<usize>)
    requires
        j <= s@.len(),
    ensures
        r matches Some(n) ==> content_len(s@, j as int) == Some(n as nat) && j + n + 3 <= s@.len(),
        r is None ==> content_len(s@, j as int) is None,
{
    let mut k: usize = j;
    while k < s.len()
        invariant
            j <= k <= s@.len(),
            content_len(s@, j as int) == match content_len(s@, k as int) {
                Some(n) => Some(n + (k - j) as nat),
                None => None,
            },
        decreases s@.len() - k,
    {
        if s.len() - k >= 3 && s[k] == CLOSE && s[k + 1] == CLOSE && s[k + 2] == CLOSE {
            return Some(k - j);
        }
        if s[k] == NEWLINE {
            return None;
        }
        k = k + 1;
    }
    None
}

/// Finds every marker of `s`, left to right.
pub fn find_markers(s: &[u8]) -> (r: Vec<Marker>)
    ensures
        spans(r@) == markers(s@),
{
    let mut r: Vec<Marker> = Vec::new();
    let mut p: usize = 0;
    while p < s.len()
        invariant
            p <= s@.len(),
            markers(s@) == spans(r@) + markers_from(s@, p as int),
        decreases s@.len() - p,
    {
        let mut is_marker = false;
        if s.len() - p >= 3 && s[p] == OPEN && s[p + 1] == OPEN && s[p + 2] == OPEN {
            match find_content_len(s, p + 3) {
                Some(n) => {
                    let m = Marker { start: p, end: p + 3 + n + 3 };
                    proof {
                        assert(spans(r@.push(m)) =~= spans(r@).push(m.span()));
                        assert(seq![m.span()] + markers_from(s@, m.end as int)
                            == markers_from(s@, p as int));
                        assert(spans(r@) + markers_from(s@, p as int) =~= spans(r@.push(m))
                            + markers_from(s@, m.end as int));
                    }
                    r.push(m);
                    p = p + 6 + n;
                    is_marker = true;
                },
                None => {},
            }
        }
        if !is_marker {
            p = p + 1;
        }
    }
    assert(markers_from(s@, p as int) =~= Seq::empty());
    assert(spans(r@) + Seq::<(int, int)>::empty() =~= spans(r@));
    r
}

} // verus!
