use vstd::prelude::*;

verus! {

/// A video file found on disk by the search: its file name, its full path
/// and its size in bytes.
#[derive(Debug, Clone)]
pub struct Video {
    pub name: String,
    pub path: String,
    pub size: usize,
}

} // verus!
