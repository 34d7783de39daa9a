//! A build-time source generator: given the listing of a directory tree,
//! it filters and prunes the tree, sanitizes each surviving name into a
//! valid identifier, and produces a nested tree of namespace declarations
//! that mirrors the directory structure, rendered as text.
//!
//! The pipeline is `scan` (filter, prune, order), then `build` (attach
//! sanitized identifiers and original-name bindings), then `render`.

pub mod decl;
pub mod entry;
pub mod laws;
pub mod render;
pub mod sanitize;
pub mod scan;

use vstd::prelude::*;

use crate::decl::spec_build_seq;
use crate::entry::{RawEntry, RawEntryV, view_raw_seq};
use crate::render::spec_render_seq;
use crate::scan::{ScanError, first_special, scan_children, seq_has_special};

verus! {

/// The complete generated text for the listing of a scanned root: the
/// rendered declarations of its filtered children.
pub open spec fn spec_generate(s: Seq<RawEntryV>) -> Seq<char> {
    spec_render_seq(spec_build_seq(scan_children(s)))
}

/// The whole generation pass over the listing of the scanned root:
/// filtering and pruning, declaration building, and rendering. It
/// succeeds exactly when no entry at any depth is special, and then
/// returns the full generated text; otherwise it fails with the name of
/// the first special entry in depth-first listing order, and produces no
/// partial output.
pub fn generate(entries: &Vec<RawEntry>) -> (r: Result<String, ScanError>)
    ensures
        r is Ok <==> !seq_has_special(view_raw_seq(entries@)),
        r matches Ok(text) ==> text@ == spec_generate(view_raw_seq(entries@)),
        r matches Err(err) ==> err->name@ == first_special(view_raw_seq(entries@)),
{
    let scanned = match crate::scan::scan_entries(entries) {
        Ok(v) => v,
        Err(e) => {
            return Err(e);
        },
    };
    let decls = crate::decl::build_entries(&scanned);
    Ok(crate::render::render_decls(&decls))
}

} // verus!
