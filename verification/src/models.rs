use vstd::prelude::*;
use vstd::std_specs::convert::FromSpecImpl;

use crate::search;

verus! {

/// Step by which the user zooms the thumbnails in and out.
pub const ZOOM_SIZE: i32 = 32;

/// Edge of a thumbnail when a video is first listed.
pub const THUMBNAIL_SIZE: i32 = 160;

/// A video as the user interface lists it.
#[derive(Debug, Clone)]
pub struct Video {
    pub name: String,
    pub path: String,
    pub size: usize,
    pub is_selected: bool,
    pub thumbnail_size: i32,
}

impl Default for Video {
    /// A video with empty name and path, size zero, not selected, with a
    /// thumbnail size of zero.
    fn default() -> (video: Video)
        ensures
            video.name@ == Seq::<char>::empty(),
            video.path@ == Seq::<char>::empty(),
            video.size == 0,
            !video.is_selected,
            video.thumbnail_size == 0,
    {
        Video { name: String::new(), path: String::new(), size: 0, is_selected: false, thumbnail_size: 0 }
    }
}

/// The listed video for a search result: same name, path and size, not
/// selected, with the initial thumbnail size.
pub open spec fn listed_video(value: search::Video) -> Video {
    Video {
        name: value.name,
        path: value.path,
        size: value.size,
        is_selected: false,
        thumbnail_size: THUMBNAIL_SIZE,
    }
}

/// The listing law: a listed video keeps the search result's name, path
/// and size, starts unselected, and starts with thumbnails 160 pixels wide.
pub proof fn lemma_listed_video(value: search::Video)
    ensures
        listed_video(value).name@ == value.name@,
        listed_video(value).path@ == value.path@,
        listed_video(value).size == value.size,
        listed_video(value).is_selected == false,
        listed_video(value).thumbnail_size == 160,
{
}

impl<'a> From<&'a search::Video> for Video {
    fn from(value: &'a search::Video) -> (listed: Self) {
        Video {
            name: value.name.clone(),
            path: value.path.clone(),
            size: value.size,
            is_selected: false,
            thumbnail_size: THUMBNAIL_SIZE,
        }
    }
}

impl<'a> FromSpecImpl<&'a search::Video> for Video {
    open spec fn obeys_from_spec() -> bool {
        true
    }

    open spec fn from_spec(value: &'a search::Video) -> Video {
        listed_video(*value)
    }
}

} // verus!
