use vstd::prelude::*;

pub mod codec;
pub mod note;
pub mod store;

verus! {

/// The store keeps its notes in one text file; this is that file's name.
pub fn notes_file_name() -> (r: &'static str)
    ensures
        r@ == "notes.json"@,
{
    "notes.json"
}

} // verus!
