use dompeg::grid::{compose_grid, within_sheet_limits, GridError, Picture};
use image::{GenericImage, ImageBuffer, Rgba};

fn solid(width: u32, height: u32, shade: u8) -> Picture {
    Picture { width, height, pixels: vec![shade; (width * height * 4) as usize] }
}

fn pixel(p: &Picture, x: u32, y: u32) -> u8 {
    p.pixels[((y * p.width + x) * 4) as usize]
}

#[test]
fn frames_go_row_after_row() {
    let frames: Vec<Picture> = (1..=6).map(|i| solid(2, 1, i * 10)).collect();
    let sheet = compose_grid(&frames, 3, 2).unwrap();
    assert_eq!((sheet.width, sheet.height), (6, 2));
    assert_eq!(sheet.pixels.len(), 6 * 2 * 4);
    for k in 0..6u32 {
        let (x, y) = ((k % 3) * 2, k / 3);
        assert_eq!(pixel(&sheet, x, y), ((k + 1) * 10) as u8);
        assert_eq!(pixel(&sheet, x + 1, y), ((k + 1) * 10) as u8);
    }
}

#[test]
fn a_short_dump_leaves_the_rest_blank() {
    let frames: Vec<Picture> = (1..=4).map(|i| solid(1, 1, i)).collect();
    let sheet = compose_grid(&frames, 3, 3).unwrap();
    assert_eq!((sheet.width, sheet.height), (3, 3));
    assert_eq!(pixel(&sheet, 0, 1), 4);
    assert_eq!(pixel(&sheet, 1, 1), 0);
    assert_eq!(pixel(&sheet, 2, 2), 0);
}

#[test]
fn a_frame_off_the_sheet_is_an_error() {
    let frames = vec![solid(1, 1, 1), solid(2, 1, 2), solid(2, 1, 3)];
    assert_eq!(compose_grid(&frames, 2, 1).unwrap_err(), GridError::DimensionMismatch);
}

#[test]
fn no_frames_no_sheet_pixels() {
    let sheet = compose_grid(&Vec::new(), 4, 4).unwrap();
    assert_eq!((sheet.width, sheet.height), (0, 0));
    assert!(sheet.pixels.is_empty());
}

#[test]
fn sheet_matches_the_image_crate_copy() {
    let frames: Vec<Picture> = (0..4u32)
        .map(|i| Picture {
            width: 2,
            height: 2,
            pixels: (0..16u32).map(|b| (i * 16 + b) as u8).collect(),
        })
        .collect();
    let sheet = compose_grid(&frames, 2, 2).unwrap();
    let mut reference: ImageBuffer<Rgba<u8>, Vec<u8>> = ImageBuffer::new(4, 4);
    for (k, f) in frames.iter().enumerate() {
        let tile = ImageBuffer::<Rgba<u8>, Vec<u8>>::from_raw(2, 2, f.pixels.clone()).unwrap();
        reference.copy_from(&tile, (k as u32 % 2) * 2, (k as u32 / 2) * 2).unwrap();
    }
    assert_eq!(sheet.pixels, reference.into_raw());
}

#[test]
fn limits_hold_for_ordinary_frames() {
    let frames: Vec<Picture> = (1..=6).map(|i| solid(250, 140, i)).collect();
    assert!(within_sheet_limits(&frames, 3, 2));
}

#[test]
fn limits_refuse_a_short_buffer() {
    let frames = vec![solid(2, 2, 1), Picture { width: 2, height: 2, pixels: vec![0; 15] }];
    assert!(!within_sheet_limits(&frames, 2, 1));
}

#[test]
fn limits_refuse_a_sheet_wider_than_32_bits() {
    let frames = vec![
        Picture { width: u32::MAX, height: 0, pixels: vec![] },
        Picture { width: 1, height: 0, pixels: vec![] },
    ];
    assert!(!within_sheet_limits(&frames, 2, 1));
    assert!(within_sheet_limits(&frames, 1, 1));
}

#[test]
fn a_short_dump_follows_the_uniform_layout() {
    let frames: Vec<Picture> = (1..=5).map(|i| solid(3, 2, i)).collect();
    let sheet = compose_grid(&frames, 3, 3).unwrap();
    assert_eq!((sheet.width, sheet.height), (9, 6));
    for k in 0..5u32 {
        assert_eq!(pixel(&sheet, (k % 3) * 3, (k / 3) * 2), (k + 1) as u8);
    }
    let narrow: Vec<Picture> = (1..=2).map(|i| solid(3, 2, i)).collect();
    let sheet = compose_grid(&narrow, 4, 4).unwrap();
    assert_eq!((sheet.width, sheet.height), (6, 4));
    assert_eq!(pixel(&sheet, 3, 0), 2);
}
