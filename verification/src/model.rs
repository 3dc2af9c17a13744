//! Plain records of the playlist storage and the form data of the editor.
use vstd::prelude::*;

verus! {

/// A category of an Xtream playlist as it is stored.
#[derive(Debug, Clone, PartialEq, Eq)]
pub struct CategoryEntry {
    pub category_id: u32,
    pub category_name: String,
    pub parent_id: u32,
}

/// A form component that holds the data it edits.
pub trait HasFormData {
    type Data;

    /// The data the form edits.
    fn data(&self) -> &Self::Data;
}

} // verus!
