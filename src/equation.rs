//! One equation: what it is, what the typesetting engine is asked, what is done
//! with the SVG it returns, and the image reference that replaces its marker.
use vstd::prelude::*;
use vstd::string::StringSliceAdditionalSpecFns;
use crate::bytes::{decimal, push_all, push_decimal};

verus! {

/// `!`, which opens a display equation.
pub const DISPLAY_SENTINEL: u8 = 33;

/// `"`
pub const QUOTE: u8 = 34;

/// `\`
pub const BACKSLASH: u8 = 92;

/// `>`
pub const TAG_END: u8 = 62;

/// What goes into an SVG right after its first `>`: a style block that lets the
/// glyphs follow the reader's light or dark color scheme.
pub const STYLE: &'static str = "
<style>
    :root {
        color-scheme: light dark;
    }
    .typst-text use {
        fill: light-dark(oklch(0.35 0.035 215), oklch(0.98 0.015 215)) !important;
    }
</style>";

/// An equation taken from a marker.
#[derive(Clone, Debug, PartialEq, Eq)]
pub struct Equation {
    /// The equation's source text, without the display sentinel.
    pub text: Vec<u8>,
    /// Set for a display (block) equation.
    pub display: bool,
}

/// The content starts with the display sentinel.
pub open spec fn is_display(content: Seq<u8>) -> bool {
    content.len() > 0 && content[0] == DISPLAY_SENTINEL
}

/// The equation text of a marker's content.
pub open spec fn equation_text(content: Seq<u8>) -> Seq<u8> {
    if is_display(content) {
        content.drop_first()
    } else {
        content
    }
}

/// Tells a display equation from an inline one and strips the sentinel.
pub fn split_equation(content: &[u8]) -> (r: Equation)
    ensures
        r.display == is_display(content@),
        r.text@ == equation_text(content@),
{
    let display = content.len() > 0 && content[0] == DISPLAY_SENTINEL;
    let mut text: Vec<u8> = Vec::new();
    let mut i: usize = if display { 1 } else { 0 };
    let first = i;
    while i < content.len()
        invariant
            first <= i <= content@.len(),
            text@ == content@.subrange(first as int, i as int),
        decreases content@.len() - i,
    {
        text.push(content[i]);
        i = i + 1;
        assert(text@ =~= content@.subrange(first as int, i as int));
    }
    assert(equation_text(content@) =~= content@.subrange(first as int, content@.len() as int));
    Equation { text, display }
}

/// One byte of an attribute value, with a quote escaped.
pub open spec fn escape_byte(b: u8) -> Seq<u8> {
    if b == QUOTE {
        seq![BACKSLASH, QUOTE]
    } else {
        seq![b]
    }
}

/// `t` with a backslash put before each quote.
pub open spec fn escaped(t: Seq<u8>) -> Seq<u8>
    decreases t.len(),
{
    if t.len() == 0 {
        Seq::empty()
    } else {
        escaped(t.drop_last()) + escape_byte(t.last())
    }
}

/// Puts a backslash before each quote of `t`.
pub fn escape_quotes(t: &[u8]) -> (r: Vec<u8>)
    ensures
        r@ == escaped(t@),
{
    let mut r: Vec<u8> = Vec::new();
    let mut i: usize = 0;
    while i < t.len()
        invariant
            i <= t@.len(),
            r@ == escaped(t@.subrange(0, i as int)),
        decreases t@.len() - i,
    {
        let b = t[i];
        if b == QUOTE {
            r.push(BACKSLASH);
        }
        r.push(b);
        proof {
            let next = t@.subrange(0, i + 1);
            assert(next.drop_last() =~= t@.subrange(0, i as int));
            assert(r@ =~= escaped(next));
        }
        i = i + 1;
    }
    assert(t@.subrange(0, i as int) =~= t@);
    r
}

/// In an escaped text every quote comes right after a backslash.
pub proof fn law_every_quote_escaped(t: Seq<u8>)
    ensures
        forall|i: int|
            0 <= i < escaped(t).len() && #[trigger] escaped(t)[i] == QUOTE ==> i > 0
                && escaped(t)[i - 1] == BACKSLASH,
    decreases t.len(),
{
    if t.len() > 0 {
        let p = escaped(t.drop_last());
        let e = escape_byte(t.last());
        law_every_quote_escaped(t.drop_last());
        assert forall|i: int|
            0 <= i < escaped(t).len() && #[trigger] escaped(t)[i] == QUOTE implies i > 0
                && escaped(t)[i - 1] == BACKSLASH by {
            if i < p.len() {
                assert(escaped(t)[i] == p[i]);
                assert(escaped(t)[i - 1] == p[i - 1]);
            } else {
                assert(escaped(t)[i] == e[i - p.len()]);
                assert(i == p.len() + 1);
                assert(escaped(t)[i - 1] == e[0]);
            }
        }
    }
}

/// Name of the SVG file of the equation with index `index` of the document
/// whose base name is `base`: `{base}-{index}.svg`.
pub open spec fn file_name(base: Seq<u8>, index: nat) -> Seq<u8> {
    base + "-".spec_bytes() + decimal(index) + ".svg".spec_bytes()
}

/// Builds `{base}-{index}.svg`.
pub fn svg_file_name(base: &str, index: usize) -> (r: Vec<u8>)
    ensures
        r@ == file_name(base.spec_bytes(), index as nat),
{
    let mut r: Vec<u8> = Vec::new();
    push_all(&mut r, base.as_bytes());
    push_all(&mut r, "-".as_bytes());
    push_decimal(&mut r, index);
    push_all(&mut r, ".svg".as_bytes());
    r
}

/// Two equations of one document never share a file.
pub proof fn law_file_names_distinct(base: Seq<u8>, i: nat, j: nat)
    requires
        i != j,
    ensures
        file_name(base, i) != file_name(base, j),
{
    if file_name(base, i) == file_name(base, j) {
        let dash = "-".spec_bytes();
        let ext = ".svg".spec_bytes();
        let fi = file_name(base, i);
        let fj = file_name(base, j);
        let lo = (base.len() + dash.len()) as int;
        assert(fi.len() == fj.len());
        assert(decimal(i) =~= fi.subrange(lo, fi.len() - ext.len()));
        assert(decimal(j) =~= fj.subrange(lo, fj.len() - ext.len()));
        crate::bytes::lemma_decimal_injective(i, j);
    }
}

/// Position of the first `>` at or after `j`.
pub open spec fn tag_end_from(s: Seq<u8>, j: int) -> Option<int>
    decreases s.len() - j,
{
    if j < 0 || j >= s.len() {
        None
    } else if s[j] == TAG_END {
        Some(j)
    } else {
        tag_end_from(s, j + 1)
    }
}

/// `svg` with the style block put right after its first `>`; unchanged where
/// it has none.
pub open spec fn styled(svg: Seq<u8>) -> Seq<u8> {
    match tag_end_from(svg, 0) {
        Some(i) => svg.subrange(0, i + 1) + STYLE.spec_bytes() + svg.subrange(i + 1, svg.len() as int),
        None => svg,
    }
}

/// Puts the style block right after the first `>` of `svg`.
pub fn inject_style(svg: &[u8]) -> (r: Vec<u8>)
    ensures
        r@ == styled(svg@),
{
    let mut i: usize = 0;
    while i < svg.len()
        invariant
            i <= svg@.len(),
            tag_end_from(svg@, 0) == tag_end_from(svg@, i as int),
        decreases svg@.len() - i,
    {
        if svg[i] == TAG_END {
            let mut r: Vec<u8> = Vec::new();
            push_all(&mut r, vstd::slice::slice_subrange(svg, 0, i + 1));
            push_all(&mut r, STYLE.as_bytes());
            push_all(&mut r, vstd::slice::slice_subrange(svg, i + 1, svg.len()));
            return r;
        }
        i = i + 1;
    }
    vstd::slice::slice_to_vec(svg)
}

/// The engine input that says whether the equation is a display one:
/// `d=true` or `d=false`.
pub open spec fn display_input_spec(display: bool) -> Seq<u8> {
    if display {
        "d=true".spec_bytes()
    } else {
        "d=false".spec_bytes()
    }
}

/// The engine input that carries the equation: `eq={text}`.
pub open spec fn equation_input_spec(text: Seq<u8>) -> Seq<u8> {
    "eq=".spec_bytes() + text
}

impl Equation {
    /// The engine input `d=true` or `d=false`.
    pub fn display_input(&self) -> (r: Vec<u8>)
        ensures
            r@ == display_input_spec(self.display),
    {
        let mut r: Vec<u8> = Vec::new();
        if self.display {
            push_all(&mut r, "d=true".as_bytes());
        } else {
            push_all(&mut r, "d=false".as_bytes());
        }
        r
    }

    /// The engine input `eq={text}`.
    pub fn equation_input(&self) -> (r: Vec<u8>)
        ensures
            r@ == equation_input_spec(self.text@),
    {
        let mut r: Vec<u8> = Vec::new();
        push_all(&mut r, "eq=".as_bytes());
        push_all(&mut r, self.text.as_slice());
        r
    }
}

/// The class of the image of an equation.
pub open spec fn class_name(display: bool) -> Seq<u8> {
    if display {
        "equation block".spec_bytes()
    } else {
        "equation".spec_bytes()
    }
}

/// The image reference that replaces a marker: alt text, source path, vertical
/// offset in millimetres and class.
pub open spec fn image_tag_spec(
    text: Seq<u8>,
    display: bool,
    path: Seq<u8>,
    file: Seq<u8>,
    offset: Seq<u8>,
) -> Seq<u8> {
    "<img alt=\"".spec_bytes() + escaped(text) + "\" src=\"".spec_bytes() + path + file
        + "\" style=\"vertical-align: ".spec_bytes() + offset + "mm;\" class=\"".spec_bytes()
        + class_name(display) + "\">".spec_bytes()
}

/// Builds the image reference of `eq`, whose SVG is `file` under `path`, moved
/// down by `offset` millimetres (a signed decimal number).
pub fn image_tag(eq: &Equation, path: &str, file: &[u8], offset: &str) -> (r: Vec<u8>)
    ensures
        r@ == image_tag_spec(eq.text@, eq.display, path.spec_bytes(), file@, offset.spec_bytes()),
{
    let mut r: Vec<u8> = Vec::new();
    push_all(&mut r, "<img alt=\"".as_bytes());
    let alt = escape_quotes(eq.text.as_slice());
    push_all(&mut r, alt.as_slice());
    push_all(&mut r, "\" src=\"".as_bytes());
    push_all(&mut r, path.as_bytes());
    push_all(&mut r, file);
    push_all(&mut r, "\" style=\"vertical-align: ".as_bytes());
    push_all(&mut r, offset.as_bytes());
    push_all(&mut r, "mm;\" class=\"".as_bytes());
    if eq.display {
        push_all(&mut r, "equation block".as_bytes());
    } else {
        push_all(&mut r, "equation".as_bytes());
    }
    push_all(&mut r, "\">".as_bytes());
    r
}

} // verus!
