//! The arguments of a run and the rules they must meet.

use crate::error::ConfigError;
use vstd::prelude::*;

verus! {

/// The size of a regular read when none is given.
pub const DEFAULT_CHUNKS: usize = 4096;

/// The arguments of a run.
#[derive(Debug)]
pub struct Args {
    /// The path of the file to dump.
    pub file_path: String,
    /// Whether bytes are shown as binary numerals, and not as hexadecimal
    /// ones.
    pub binary: bool,
    /// How many bytes of the file are held in memory at once. A pattern is
    /// matched against one chunk at a time, so a match that lies across
    /// the end of a chunk and of what the chunk borrows is not found.
    pub chunks: usize,
    /// The pattern whose matches are highlighted, if any.
    pub pattern: Option<String>,
}

/// Checks the arguments of a run. `file_exists` says whether a file exists
/// at the path. A missing file is reported first, then a chunk size of
/// zero; arguments that pass both checks come back unchanged.
pub fn parse_args(args: Args, file_exists: bool) -> (checked: Result<Args, ConfigError>)
    ensures
        !file_exists ==> (checked matches Err(ConfigError::MissingFile(path)) && path@
            == args.file_path@),
        file_exists && args.chunks == 0 ==> (checked matches Err(error) && error
            is NonPositiveChunkSize),
        file_exists && args.chunks > 0 ==> checked == Ok::<Args, ConfigError>(args),
{
    if !file_exists {
        return Err(ConfigError::MissingFile(args.file_path));
    }
    if args.chunks == 0 {
        return Err(ConfigError::NonPositiveChunkSize);
    }
    Ok(args)
}

} // verus!
