use equations::equation::{
    escape_quotes, image_tag, inject_style, split_equation, svg_file_name, Equation, STYLE,
};
use equations::rewriter::{Job, Rewriter};
use equations::scan::{find_markers, Marker};

fn text(b: &[u8]) -> String {
    String::from_utf8(b.to_vec()).unwrap()
}

fn spans(s: &str) -> Vec<(usize, usize)> {
    find_markers(s.as_bytes()).iter().map(|m| (m.start, m.end)).collect()
}

struct Run {
    output: Result<String, String>,
    files: Vec<(String, String)>,
}

/// Drives a rewrite with a stand-in engine that returns, for each job, the SVG
/// and the raw baseline, or fails.
fn run(
    source: &str,
    base: &str,
    path: &str,
    mut engine: impl FnMut(&Job) -> Result<(String, f64), String>,
) -> Run {
    let mut rw = Rewriter::new(source, base, path);
    let mut files = Vec::new();
    while let Some(job) = rw.next_job() {
        let (svg, baseline) = match engine(&job) {
            Ok(r) => r,
            Err(e) => return Run { output: Err(e), files },
        };
        files.push((text(&job.file_name), text(&inject_style(svg.as_bytes()))));
        let offset = format!("{}", -baseline);
        rw.complete(&offset);
    }
    Run { output: Ok(text(&rw.finish())), files }
}

fn stub(_: &Job) -> Result<(String, f64), String> {
    Ok(("<svg></svg>".to_string(), 1.0))
}

#[test]
fn scan_finds_markers_in_order() {
    assert_eq!(spans("A [[[1+1]]] B [[[!2+2]]] C"), vec![(2, 11), (14, 24)]);
}

#[test]
fn scan_leaves_unterminated_marker() {
    assert_eq!(spans("x [[[a+b"), vec![]);
    assert_eq!(spans("x [[[a]] ]"), vec![]);
}

#[test]
fn scan_stops_at_line_break() {
    assert_eq!(spans("[[[a\nb]]]"), vec![]);
    assert_eq!(spans("[[[a\n[[[b]]]"), vec![(5, 12)]);
}

#[test]
fn scan_takes_shortest_match() {
    assert_eq!(spans("[[[a]]] and [[[b]]]"), vec![(0, 7), (12, 19)]);
    assert_eq!(spans("[[[a]]]]"), vec![(0, 7)]);
    assert_eq!(spans("[[[[x]]]"), vec![(0, 8)]);
    assert_eq!(spans("[[[]]]"), vec![(0, 6)]);
}

#[test]
fn scan_handles_unicode_content() {
    let s = "é [[[α+β]]] ü";
    let found = find_markers(s.as_bytes());
    assert_eq!(found, vec![Marker { start: 3, end: 14 }]);
    assert_eq!(&s[found[0].start + 3..found[0].end - 3], "α+β");
}

#[test]
fn display_equation_detected() {
    let e = split_equation("!x+y".as_bytes());
    assert!(e.display);
    assert_eq!(text(&e.text), "x+y");
}

#[test]
fn inline_equation_detected() {
    let e = split_equation("x+y".as_bytes());
    assert!(!e.display);
    assert_eq!(text(&e.text), "x+y");
    let empty = split_equation("".as_bytes());
    assert!(!empty.display);
    assert!(empty.text.is_empty());
}

#[test]
fn display_detection_through_markers() {
    let r = run("[[[!x+y]]]", "d", "", |job| {
        assert!(job.equation.display);
        assert_eq!(text(&job.equation.text), "x+y");
        stub(job)
    });
    assert!(r.output.unwrap().contains("class=\"equation block\""));
    let r = run("[[[x+y]]]", "d", "", |job| {
        assert!(!job.equation.display);
        assert_eq!(text(&job.equation.text), "x+y");
        stub(job)
    });
    assert!(r.output.unwrap().contains("class=\"equation\""));
}

#[test]
fn quotes_are_escaped() {
    assert_eq!(text(&escape_quotes("a\"b\"".as_bytes())), "a\\\"b\\\"");
    assert_eq!(text(&escape_quotes("plain".as_bytes())), "plain");
    let eq = Equation { text: "\"q\"".as_bytes().to_vec(), display: false };
    let tag = text(&image_tag(&eq, "/p/", "f-0.svg".as_bytes(), "-1"));
    assert!(tag.starts_with("<img alt=\"\\\"q\\\"\" src="));
}

#[test]
fn file_names_follow_index() {
    assert_eq!(text(&svg_file_name("doc", 0)), "doc-0.svg");
    assert_eq!(text(&svg_file_name("N", 12)), "N-12.svg");
    assert_eq!(text(&svg_file_name("a.b", 105)), "a.b-105.svg");
}

#[test]
fn file_names_have_no_gaps() {
    let r = run("[[[a]]] [[[b]]] x [[[c]]]", "N", "", stub);
    let names: Vec<&str> = r.files.iter().map(|f| f.0.as_str()).collect();
    assert_eq!(names, vec!["N-0.svg", "N-1.svg", "N-2.svg"]);
}

#[test]
fn style_goes_after_first_tag_end() {
    let out = text(&inject_style("<svg a=\"1\"><g></g></svg>".as_bytes()));
    assert_eq!(out, format!("<svg a=\"1\">{}<g></g></svg>", STYLE));
    assert_eq!(text(&inject_style("no tag".as_bytes())), "no tag");
    assert!(STYLE.starts_with("\n<style>"));
}

#[test]
fn engine_inputs() {
    let e = split_equation("!a \"b\"".as_bytes());
    assert_eq!(text(&e.display_input()), "d=true");
    assert_eq!(text(&e.equation_input()), "eq=a \"b\"");
    let i = split_equation("x".as_bytes());
    assert_eq!(text(&i.display_input()), "d=false");
}

#[test]
fn image_tag_layout() {
    let eq = Equation { text: "x^2".as_bytes().to_vec(), display: true };
    assert_eq!(
        text(&image_tag(&eq, "/img/", "doc-3.svg".as_bytes(), "-0.25")),
        "<img alt=\"x^2\" src=\"/img/doc-3.svg\" style=\"vertical-align: -0.25mm;\" class=\"equation block\">"
    );
}

#[test]
fn baseline_sign_flipped() {
    let raw: f64 = " 2.5\n".trim().parse().unwrap();
    let offset = format!("{}", -raw);
    let eq = Equation { text: "x".as_bytes().to_vec(), display: false };
    let tag = text(&image_tag(&eq, "", "f.svg".as_bytes(), &offset));
    assert!(tag.contains("style=\"vertical-align: -2.5mm;\""));
    let r = run("[[[x]]]", "f", "", |_| Ok(("<svg/>".to_string(), 2.5)));
    assert!(r.output.unwrap().contains("vertical-align: -2.5mm;"));
}

#[test]
fn document_without_markers_unchanged() {
    for s in ["", "plain <b>text</b>", "[[ not ]] [[[ open", "[[[a\nb]]] é"] {
        let r = run(s, "doc", "/img/", |_| panic!("no job expected"));
        assert_eq!(r.output.unwrap(), s);
        assert!(r.files.is_empty());
    }
}

#[test]
fn one_reference_per_marker_in_order() {
    let r = run("[[[a]]]-[[[b]]]-[[[c]]]", "d", "", stub);
    let out = r.output.unwrap();
    assert_eq!(out.matches("<img ").count(), 3);
    let a = out.find("alt=\"a\"").unwrap();
    let b = out.find("alt=\"b\"").unwrap();
    let c = out.find("alt=\"c\"").unwrap();
    assert!(a < b && b < c);
    assert!(out.contains("alt=\"a\" src=\"d-0.svg\""));
    assert!(out.contains("alt=\"c\" src=\"d-2.svg\""));
}

#[test]
fn output_length_accounts_for_replacements() {
    let s = "x [[[a]]] yy [[[!bb]]] z";
    let r = run(s, "d", "/i/", stub);
    let out = r.output.unwrap();
    let matched: usize = spans(s).iter().map(|(a, b)| b - a).sum();
    let t0 = "<img alt=\"a\" src=\"/i/d-0.svg\" style=\"vertical-align: -1mm;\" class=\"equation\">";
    let t1 = "<img alt=\"bb\" src=\"/i/d-1.svg\" style=\"vertical-align: -1mm;\" class=\"equation block\">";
    assert_eq!(out.len(), s.len() - matched + t0.len() + t1.len());
    assert_eq!(out, format!("x {} yy {} z", t0, t1));
}

#[test]
fn end_to_end_with_stub_engine() {
    let r = run("A [[[1+1]]] B [[[!2+2]]] C", "doc", "/img/", stub);
    assert_eq!(
        r.output.unwrap(),
        "A <img alt=\"1+1\" src=\"/img/doc-0.svg\" style=\"vertical-align: -1mm;\" class=\"equation\"> B <img alt=\"2+2\" src=\"/img/doc-1.svg\" style=\"vertical-align: -1mm;\" class=\"equation block\"> C"
    );
    let styled = format!("<svg>{}</svg>", STYLE);
    assert_eq!(
        r.files,
        vec![("doc-0.svg".to_string(), styled.clone()), ("doc-1.svg".to_string(), styled)]
    );
}

#[test]
fn failure_on_second_match_aborts() {
    let source = String::from("A [[[1+1]]] B [[[!2+2]]] C");
    let before = source.clone();
    let r = run(&source, "doc", "/img/", |job| {
        if job.index == 1 {
            Err("typst failed to create svg".to_string())
        } else {
            stub(job)
        }
    });
    assert_eq!(r.output, Err("typst failed to create svg".to_string()));
    let names: Vec<&str> = r.files.iter().map(|f| f.0.as_str()).collect();
    assert_eq!(names, vec!["doc-0.svg"]);
    assert_eq!(source, before);
}
