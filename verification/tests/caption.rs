use dompeg::caption::{caption_origin, timestamp_label};

#[test]
fn label_of_a_plain_timestamp() {
    assert_eq!(timestamp_label(1, 2, false, 3456), "01:02:03.456");
    assert_eq!(timestamp_label(0, 0, false, 0), "00:00:00.000");
    assert_eq!(timestamp_label(123, 5, false, 59999), "123:05:59.999");
    assert_eq!(timestamp_label(0, 59, false, 60000), "00:59:60.000");
    assert_eq!(timestamp_label(0, 0, true, 1500), "00:00:-1.500");
    assert_eq!(timestamp_label(0, 0, false, 123_456_789), "00:00:123456.789");
}

#[test]
fn label_matches_the_float_format() {
    for &(hours, minutes, seconds) in &[(0u32, 0u32, 5.25f64), (2, 13, 59.5), (10, 0, 0.001), (0, 7, 12.345)] {
        let millis = (seconds * 1000.0).round() as u64;
        let expected = format!("{:0>2}:{:0>2}:{:0>6.3}", hours, minutes, seconds);
        assert_eq!(timestamp_label(hours, minutes, false, millis), expected);
    }
    assert_eq!(timestamp_label(0, 0, true, 500), format!("{:0>2}:{:0>2}:{:0>6.3}", 0, 0, -0.5f64));
}

#[test]
fn caption_sits_in_the_bottom_right_corner() {
    assert_eq!(caption_origin(640, 360, 100, 20), (530, 330));
    assert_eq!(caption_origin(50, 10, 100, 20), (-60, -20));
    assert_eq!(caption_origin(u32::MAX, 0, 0, 0), (-11, -10));
}
