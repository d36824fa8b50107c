//! Rewrites `[[[...]]]` equation markers of an HTML document into references
//! to rendered SVG images.
//!
//! The library holds every decision of the rewrite: where the markers are, what
//! each equation is, what the typesetting engine is asked, how its SVG is
//! adjusted, what the files are called and what the rebuilt document holds.
//! Running the engine and touching the file system is left to the caller.
pub mod bytes;
pub mod equation;
pub mod rebuild;
pub mod rewriter;
pub mod scan;
