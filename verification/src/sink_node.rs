//! The newline-delimited JSON sink node: the variant-specific face of the
//! sink framework. It names itself for diagnostics, accepts parallel
//! input, and carries the path of the file the commit task writes to; the
//! pipeline it spawns is the one modelled in `pipeline`.

use vstd::prelude::*;

verus! {

/// A sink node that writes newline-delimited JSON to a file.
pub struct NDJsonSinkNode {
    pub path: String,
}

impl NDJsonSinkNode {
    /// A sink node writing to the given path.
    pub fn new(path: String) -> (r: Self)
        ensures
            r.path == path,
    {
        NDJsonSinkNode { path }
    }

    /// The node's human-readable name, for diagnostics.
    pub fn name(&self) -> (r: &'static str)
        ensures
            r@ == "ndjson_sink"@,
    {
        "ndjson_sink"
    }

    /// This sink consumes its input in parallel: units are fanned out to
    /// several encode workers.
    pub fn is_sink_input_parallel(&self) -> (r: bool)
        ensures
            r,
    {
        true
    }
}

} // verus!
