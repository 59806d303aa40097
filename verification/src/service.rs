use vstd::prelude::*;

verus! {

/// The video service: the part of the application that searches for
/// videos, builds thumbnails and dumps frames.
#[derive(Debug, Clone, Copy)]
pub struct VideoService;

/// The services that the application offers.
#[derive(Debug, Clone, Copy)]
pub enum Service {
    Video(VideoService),
}

} // verus!
