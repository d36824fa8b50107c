//! The rewrite of one document as a state machine: it hands out one rendering
//! job per marker, in scan order, takes back the vertical offset that the
//! engine measured, and in the end yields the rebuilt document. Running the
//! engine and writing the SVG files is the caller's part.
use vstd::prelude::*;
use vstd::string::StringSliceAdditionalSpecFns;
use crate::bytes::push_all;
use crate::equation::{
    equation_text, file_name, image_tag, image_tag_spec, is_display, split_equation,
    svg_file_name, Equation,
};
use crate::rebuild::{cursor, lemma_markers_wf, lemma_spliced_reads_prefix, rewritten, spans_wf, spliced};
use crate::scan::{find_markers, markers, spans, Marker};

verus! {

/// The bytes between the brackets of the marker with span `m`.
pub open spec fn content_of(s: Seq<u8>, m: (int, int)) -> Seq<u8> {
    s.subrange(m.0 + 3, m.1 - 3)
}

/// What a rewrite has seen so far.
pub struct RewriterView {
    pub source: Seq<u8>,
    pub base: Seq<u8>,
    pub path: Seq<u8>,
    pub markers: Seq<(int, int)>,
    /// The offsets handed back so far, one per finished marker.
    pub offsets: Seq<Seq<u8>>,
}

impl RewriterView {
    /// Number of markers already replaced.
    pub open spec fn done(self) -> nat {
        self.offsets.len()
    }

    /// The reference that replaces marker `k` when the engine measured
    /// `offset` for it.
    pub open spec fn reference_for(self, k: int, offset: Seq<u8>) -> Seq<u8> {
        let content = content_of(self.source, self.markers[k]);
        image_tag_spec(
            equation_text(content),
            is_display(content),
            self.path,
            file_name(self.base, k as nat),
            offset,
        )
    }

    /// The references of the markers replaced so far, in scan order.
    pub open spec fn references(self) -> Seq<Seq<u8>> {
        Seq::new(self.offsets.len(), |k: int| self.reference_for(k, self.offsets[k]))
    }
}

/// The rendering that one marker asks for.
#[derive(Clone, Debug, PartialEq, Eq)]
pub struct Job {
    /// Position of the marker in scan order, from 0.
    pub index: usize,
    pub equation: Equation,
    /// Name of the SVG file to write.
    pub file_name: Vec<u8>,
}

/// The rewrite of one document.
pub struct Rewriter<'a> {
    source: &'a str,
    base: &'a str,
    path: &'a str,
    markers: Vec<Marker>,
    output: Vec<u8>,
    done: usize,
    offsets: Ghost<Seq<Seq<u8>>>,
}

impl<'a> View for Rewriter<'a> {
    type V = RewriterView;

    closed spec fn view(&self) -> RewriterView {
        RewriterView {
            source: self.source.spec_bytes(),
            base: self.base.spec_bytes(),
            path: self.path.spec_bytes(),
            markers: spans(self.markers@),
            offsets: self.offsets@,
        }
    }
}

/// Handing back one more offset adds one reference and keeps the others.
proof fn lemma_extend_references(v: RewriterView, offset: Seq<u8>)
    requires
        v.done() < v.markers.len(),
    ensures
        ({
            let w = RewriterView { offsets: v.offsets.push(offset), ..v };
            &&& w.references() == v.references().push(v.reference_for(v.done() as int, offset))
            &&& spliced(v.source, v.markers, w.references(), v.done() as int) == spliced(
                v.source,
                v.markers,
                v.references(),
                v.done() as int,
            )
        }),
{
    let w = RewriterView { offsets: v.offsets.push(offset), ..v };
    assert(w.references() =~= v.references().push(v.reference_for(v.done() as int, offset)));
    lemma_spliced_reads_prefix(v.source, v.markers, w.references(), v.references(), v.done() as int);
}

impl<'a> Rewriter<'a> {
    /// The output so far is the source up to the last finished marker, with
    /// each finished marker replaced by its reference.
    pub closed spec fn inv(&self) -> bool {
        let v = self@;
        &&& v.markers == markers(v.source)
        &&& spans_wf(v.source, v.markers)
        &&& v.offsets.len() <= v.markers.len()
        &&& self.done == v.offsets.len()
        &&& self.output@ == spliced(v.source, v.markers, v.references(), v.offsets.len() as int)
    }

    /// Starts the rewrite of `source`, whose base name is `base`; image
    /// references point to `path` followed by the file name.
    pub fn new(source: &'a str, base: &'a str, path: &'a str) -> (r: Self)
        ensures
            r.inv(),
            r@.source == source.spec_bytes(),
            r@.base == base.spec_bytes(),
            r@.path == path.spec_bytes(),
            r@.markers == markers(source.spec_bytes()),
            r@.offsets == Seq::<Seq<u8>>::empty(),
    {
        let found = find_markers(source.as_bytes());
        proof {
            lemma_markers_wf(source.spec_bytes());
        }
        Rewriter {
            source,
            base,
            path,
            markers: found,
            output: Vec::new(),
            done: 0,
            offsets: Ghost(Seq::empty()),
        }
    }

    /// The equation of marker `k`.
    fn equation_at(&self, k: usize) -> (r: Equation)
        requires
            self.inv(),
            k < self@.markers.len(),
        ensures
            r.display == is_display(content_of(self@.source, self@.markers[k as int])),
            r.text@ == equation_text(content_of(self@.source, self@.markers[k as int])),
    {
        let m = self.markers[k];
        assert(self@.markers[k as int] == m.span());
        let content = vstd::slice::slice_subrange(self.source.as_bytes(), m.start + 3, m.end - 3);
        split_equation(content)
    }

    /// The rendering that the next marker asks for, or `None` when every
    /// marker has been replaced.
    pub fn next_job(&self) -> (r: Option<Job>)
        requires
            self.inv(),
        ensures
            r is None <==> self@.done() == self@.markers.len(),
            r matches Some(j) ==> {
                let content = content_of(self@.source, self@.markers[self@.done() as int]);
                &&& j.index == self@.done()
                &&& j.equation.display == is_display(content)
                &&& j.equation.text@ == equation_text(content)
                &&& j.file_name@ == file_name(self@.base, j.index as nat)
            },
    {
        let k = self.done;
        if k == self.markers.len() {
            None
        } else {
            let equation = self.equation_at(k);
            let file_name = svg_file_name(self.base, k);
            Some(Job { index: k, equation, file_name })
        }
    }

    /// Replaces the next marker with its reference, given the offset in
    /// millimetres, as a signed decimal number, by which the engine says the
    /// equation must move down.
    pub fn complete(&mut self, offset: &str)
        requires
            old(self).inv(),
            old(self)@.done() < old(self)@.markers.len(),
        ensures
            final(self).inv(),
            final(self)@ == (RewriterView {
                offsets: old(self)@.offsets.push(offset.spec_bytes()),
                ..old(self)@
            }),
    {
        let ghost v0 = self@;
        let k = self.done;
        let n = self.markers.len();
        assert(k < n);
        let m = self.markers[k];
        assert(v0.markers[k as int] == m.span());
        let from: usize = if k == 0 {
            0
        } else {
            self.markers[k - 1].end
        };
        assert(k > 0 ==> v0.markers[k - 1] == self.markers@[k - 1].span());
        assert(from == cursor(v0.markers, k as int));
        let equation = self.equation_at(k);
        let file = svg_file_name(self.base, k);
        let tag = image_tag(&equation, self.path, file.as_slice(), offset);
        let src = self.source.as_bytes();
        let ghost out0 = self.output@;
        push_all(&mut self.output, vstd::slice::slice_subrange(src, from, m.start));
        push_all(&mut self.output, tag.as_slice());
        self.offsets = Ghost(self.offsets@.push(offset.spec_bytes()));
        self.done = k + 1;
        proof {
            let v1 = self@;
            lemma_extend_references(v0, offset.spec_bytes());
            assert(v1.references() == v0.references().push(tag@));
            assert(self.output@ =~= out0 + v0.source.subrange(from as int, m.start as int) + tag@);
        }
    }

    /// The rebuilt document, once every marker has been replaced.
    pub fn finish(self) -> (r: Vec<u8>)
        requires
            self.inv(),
            self@.done() == self@.markers.len(),
        ensures
            r@ == rewritten(self@.source, self@.markers, self@.references()),
    {
        let n = self.markers.len();
        let from: usize = if n == 0 {
            0
        } else {
            self.markers[n - 1].end
        };
        assert(n > 0 ==> self@.markers[n - 1] == self.markers@[n - 1].span());
        let src = self.source.as_bytes();
        let mut out = self.output;
        push_all(&mut out, vstd::slice::slice_subrange(src, from, src.len()));
        out
    }
}

} // verus!
