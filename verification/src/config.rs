//! The configuration that every pass works under.

use vstd::prelude::*;

verus! {

/// What a run is asked to do: where to look, and how names are to be fitted.
#[derive(Clone, Debug)]
pub struct CliArgs {
    /// The roots to rename under, as path bytes.
    pub path: Vec<Vec<u8>>,
    /// The most bytes that a name may have.
    pub max_len: usize,
    /// Plan and report only; rename nothing.
    pub dry_run: bool,
    /// The most bytes that a secondary extension may have; 0 recognizes none.
    pub secondary_ext_len: usize,
    /// Cut at a word boundary where the loss is small.
    pub word_boundaries: bool,
}

/// The limit that names are fitted to unless another is asked for.
pub const DEFAULT_MAX_LEN: usize = 140;

/// The longest secondary extension that is kept unless another length is asked
/// for.
pub const DEFAULT_SECONDARY_EXT_LEN: usize = 6;

impl CliArgs {
    /// The configuration for the given roots with every setting at its
    /// default.
    pub fn new(path: Vec<Vec<u8>>) -> (args: CliArgs)
        ensures
            args.path == path,
            args.max_len == DEFAULT_MAX_LEN,
            args.secondary_ext_len == DEFAULT_SECONDARY_EXT_LEN,
            !args.dry_run,
            !args.word_boundaries,
    {
        CliArgs {
            path,
            max_len: DEFAULT_MAX_LEN,
            dry_run: false,
            secondary_ext_len: DEFAULT_SECONDARY_EXT_LEN,
            word_boundaries: false,
        }
    }
}

} // verus!
