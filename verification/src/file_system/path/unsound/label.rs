//! Creation of [`Label`]s from text known to be valid.
use vstd::prelude::*;

use crate::file_system::path::{is_valid_label, Label};

verus! {

/// The label with text `label`, which must be non-empty and hold no `/`.
pub fn new(label: &str) -> (r: Label)
    requires
        is_valid_label(label@),
    ensures
        r@ == label@,
{
    match Label::try_from(label) {
        Ok(l) => l,
        Err(_) => {
            assert(false);
            Label::root()
        },
    }
}

} // verus!
