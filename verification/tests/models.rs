use dompeg::models::{Video, THUMBNAIL_SIZE, ZOOM_SIZE};
use dompeg::search;
use dompeg::service::{Service, VideoService};

#[test]
fn listed_video_copies_the_search_result() {
    let found = search::Video {
        name: "vid00.mp4".to_string(),
        path: "/videos/vid00.mp4".to_string(),
        size: 1_048_576,
    };
    let listed = Video::from(&found);
    assert_eq!(listed.name, "vid00.mp4");
    assert_eq!(listed.path, "/videos/vid00.mp4");
    assert_eq!(listed.size, 1_048_576);
    assert!(!listed.is_selected);
    assert_eq!(listed.thumbnail_size, 160);
    assert_eq!(listed.thumbnail_size, THUMBNAIL_SIZE);
}

#[test]
fn default_video_is_empty() {
    let video = Video::default();
    assert_eq!(video.name, "");
    assert_eq!(video.size, 0);
    assert!(!video.is_selected);
    assert_eq!(video.thumbnail_size, 0);
}

#[test]
fn zoom_step_is_thirty_two() {
    assert_eq!(ZOOM_SIZE, 32);
}

#[test]
fn video_service_is_a_service() {
    let service = Service::Video(VideoService);
    let copy = service;
    assert!(matches!(copy, Service::Video(_)));
}
