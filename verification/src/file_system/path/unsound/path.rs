//! Creation of [`Path`]s from text known to parse.
use vstd::prelude::*;

use crate::file_system::path::{parses_as_path, path_segments, Path};

verus! {

/// The path named by `path`, which must parse (see [`Path::try_from`]).
pub fn new(path: &str) -> (r: Path)
    requires
        parses_as_path(path@),
    ensures
        r@ == path_segments(path@),
{
    match Path::try_from(path) {
        Ok(p) => p,
        Err(_) => {
            assert(false);
            Path::root()
        },
    }
}

} // verus!
