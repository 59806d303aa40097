use std::collections::HashMap;

use dompeg::decoder::{frame_interval, frames_in_order, DumpError, DumpRecorder, VideoDump, VideoFrame, VideoThumb};

#[test]
fn thumb_getters_give_back_what_was_stored() {
    let thumb = VideoThumb::new(320, 240, vec![1, 2, 3, 4]);
    assert_eq!(thumb.width(), 320);
    assert_eq!(thumb.height(), 240);
    assert_eq!(thumb.data(), Some(&vec![1, 2, 3, 4]));
}

#[test]
fn default_thumb_has_no_data() {
    let thumb = VideoThumb::default();
    assert_eq!(thumb.width(), 0);
    assert_eq!(thumb.height(), 0);
    assert_eq!(thumb.data(), None);
}

#[test]
fn interval_divides_total_by_count() {
    assert_eq!(frame_interval(36, 360), Ok(10));
    assert_eq!(frame_interval(36, 371), Ok(10));
    assert_eq!(frame_interval(360, 360), Ok(1));
    assert_eq!(frame_interval(1, 7), Ok(7));
}

#[test]
fn interval_refuses_more_frames_than_the_stream_holds() {
    assert_eq!(frame_interval(376, 360), Err(DumpError::TooManyFrames { total_frames: 360 }));
    assert_eq!(frame_interval(1, 0), Err(DumpError::TooManyFrames { total_frames: 0 }));
    assert_eq!(frame_interval(0, -1), Err(DumpError::TooManyFrames { total_frames: -1 }));
}

#[test]
fn interval_reads_huge_counts_as_a_cast_does() {
    let all_ones = usize::MAX;
    if usize::BITS == 64 {
        assert_eq!(frame_interval(all_ones, 5), Ok(5 / (all_ones as i64)));
        assert_eq!(frame_interval(all_ones, 5), Ok(-5));
        let top = 1usize << (usize::BITS - 1);
        assert_eq!(frame_interval(top, i64::MIN), Ok(i64::MIN / (top as i64)));
        assert_eq!(frame_interval(top, 42), Ok(0));
        assert_eq!(frame_interval(all_ones - 2, -2), Ok(-2 / ((all_ones - 2) as i64)));
    }
}

fn run(nframes: usize, rate: i64, decoded: usize) -> (Vec<usize>, VideoDump) {
    let mut rec = DumpRecorder::new(8, 6, (1, 25), nframes, rate);
    let mut kept = Vec::new();
    for k in 0..decoded {
        if rec.wants_frame() {
            kept.push(k);
            rec.keep(VideoFrame { data: vec![k as u8; 4], pts: Some(k as i64) });
        } else {
            rec.skip();
        }
    }
    (kept, rec.finish())
}

#[test]
fn recorder_keeps_every_rate_th_frame() {
    let (kept, dump) = run(4, 3, 20);
    assert_eq!(kept, vec![0, 3, 6, 9]);
    assert_eq!(dump.nframes, 4);
    assert_eq!(dump.frames.len(), 4);
    for slot in 0..4 {
        assert_eq!(dump.frames[&slot].pts, Some((slot * 3) as i64));
    }
    assert_eq!((dump.width, dump.height, dump.time_base), (8, 6, (1, 25)));
}

#[test]
fn recorder_stops_early_when_the_stream_ends() {
    let (kept, dump) = run(4, 3, 7);
    assert_eq!(kept, vec![0, 3, 6]);
    assert_eq!(dump.nframes, 3);
}

#[test]
fn recorder_with_interval_one_keeps_the_first_frames() {
    let (kept, dump) = run(5, 1, 12);
    assert_eq!(kept, vec![0, 1, 2, 3, 4]);
    assert_eq!(dump.nframes, 5);
}

#[test]
fn recorder_with_interval_below_one_keeps_the_first_frame_only() {
    let (kept, dump) = run(5, 0, 12);
    assert_eq!(kept, vec![0]);
    assert_eq!(dump.nframes, 1);
    let (kept, _) = run(5, -4, 12);
    assert_eq!(kept, vec![0]);
}

#[test]
fn recorder_counts_frames_since_the_last_kept_one() {
    let mut rec = DumpRecorder::new(1, 1, (1, 1), 2, 4);
    assert_eq!(rec.processed_frames(), 0);
    rec.keep(VideoFrame { data: vec![], pts: None });
    assert_eq!(rec.processed_frames(), 1);
    rec.skip();
    rec.skip();
    assert_eq!(rec.processed_frames(), 3);
}

#[test]
fn sheet_order_follows_slots_and_skips_holes() {
    let mut frames = HashMap::new();
    frames.insert(2, VideoFrame { data: vec![2], pts: Some(20) });
    frames.insert(0, VideoFrame { data: vec![0], pts: Some(0) });
    frames.insert(3, VideoFrame { data: vec![3], pts: None });
    frames.insert(9, VideoFrame { data: vec![9], pts: Some(90) });
    let dump = VideoDump { width: 1, height: 1, time_base: (1, 10), nframes: 4, frames };
    let ordered = frames_in_order(&dump);
    let data: Vec<u8> = ordered.iter().map(|f| f.data[0]).collect();
    assert_eq!(data, vec![0, 2, 3]);
}

#[test]
fn finished_dump_in_sheet_order() {
    let (_, dump) = run(3, 2, 10);
    let ordered = frames_in_order(&dump);
    let pts: Vec<Option<i64>> = ordered.iter().map(|f| f.pts).collect();
    assert_eq!(pts, vec![Some(0), Some(2), Some(4)]);
}

#[test]
fn recorder_agrees_with_the_two_counters() {
    for nframes in 0..6usize {
        for rate in -2..6i64 {
            let mut rec = DumpRecorder::new(1, 1, (1, 1), nframes, rate);
            let mut frame_index = 0usize;
            let mut processed_frames = 0i64;
            for k in 0..40usize {
                let keep = frame_index < nframes && (processed_frames == 0 || processed_frames == rate);
                assert_eq!(rec.wants_frame(), keep, "n={} r={} k={}", nframes, rate, k);
                if keep {
                    rec.keep(VideoFrame { data: vec![], pts: Some(k as i64) });
                    frame_index += 1;
                    processed_frames = 0;
                } else {
                    rec.skip();
                }
                processed_frames += 1;
                assert_eq!(rec.processed_frames(), processed_frames);
            }
            let dump = rec.finish();
            assert_eq!(dump.nframes, frame_index);
        }
    }
}

#[test]
fn a_fully_decoded_stream_fills_the_dump() {
    for &(nframes, total) in &[(36usize, 360i64), (36, 371), (7, 7), (5, 13), (1, 1)] {
        let rate = frame_interval(nframes, total).unwrap();
        let (_, dump) = run(nframes, rate, total as usize);
        assert_eq!(dump.nframes, nframes);
        let (_, longer) = run(nframes, rate, total as usize + 25);
        assert_eq!(longer.nframes, nframes);
    }
}

#[test]
fn default_dump_is_empty() {
    let dump = VideoDump::default();
    assert_eq!((dump.width, dump.height, dump.time_base, dump.nframes), (0, 0, (0, 0), 0));
    assert!(dump.frames.is_empty());
}
