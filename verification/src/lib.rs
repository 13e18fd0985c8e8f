//! Diagram render cache and link rewriter for an mdBook-style pipeline.
//!
//! The library locates diagram-embed references inside a body of text,
//! resolves each reference to a diagram source file and a named page inside
//! it, consults a cache keyed by (diagram identity, page name), and splices
//! the rendered content back into the text, preserving everything outside
//! the matched spans. All path arithmetic, scanning, cache bookkeeping and
//! splicing is verified; the filesystem and the external renderer are driven
//! by an unverified shell through a small request/event protocol.

pub mod cache;
pub mod engine;
pub mod paths;
pub mod render;
pub mod rewrite;
pub mod scanner;

use vstd::prelude::*;

use crate::cache::{DrawIoCache, OpModel};
use crate::paths::{BookPath, PathModel, join_spec, parent_spec};

verus! {

/// The preprocessor: the render cache together with the component identity
/// the host pipeline queries.
pub struct DrawIo {
    /// The render cache, rooted where `new` was told.
    pub cache: DrawIoCache,
}

impl DrawIo {
    /// A preprocessor whose cache lives under `path`.
    pub fn new(path: BookPath) -> (s: DrawIo)
        ensures
            s.cache.wf(),
            s.cache@ == Map::<PathModel, (u64, Seq<char>)>::empty(),
            s.cache.spec_root() == path@,
            s.cache.spec_journal() == Seq::<OpModel>::empty(),
    {
        DrawIo { cache: DrawIoCache::new(path) }
    }

    /// The preprocessor's name in the host pipeline.
    pub fn name(&self) -> (r: &'static str)
        ensures
            r@ == "drawio"@,
    {
        "drawio"
    }

    /// Whether this preprocessor supports producing output for the named
    /// renderer: only the one target format is supported.
    pub fn supports_renderer(&self, renderer: &str) -> (r: bool)
        ensures
            r == (renderer@ == "html"@),
    {
        let html: String = String::from_str("html");
        let other: String = String::from_str(renderer);
        html == other
    }
}

/// The directory a text unit's diagram references resolve in: the unit's own
/// directory, mirrored under the content root.
pub fn chapter_dir_of(content_root: &BookPath, source_path: &BookPath) -> (r: BookPath)
    ensures
        r@ == join_spec(content_root@, parent_spec(source_path@)),
{
    content_root.join(&source_path.parent())
}

} // verus!
