use tone_watch::accumulator::FrameAccumulator;
use tone_watch::analysis::{Analyzer, ConfigError};
use tone_watch::peaks::PeakCriteria;

#[test]
fn take_frame_waits_for_enough_samples() {
    let mut acc: FrameAccumulator<i32> = FrameAccumulator::new();
    acc.push(&vec![1, 2, 3]);
    assert!(acc.try_take_frame(4).is_none());
    assert_eq!(acc.len(), 3);
    acc.push(&vec![4, 5]);
    assert_eq!(acc.try_take_frame(4), Some(vec![1, 2, 3, 4]));
    assert_eq!(acc.len(), 1);
    assert!(acc.try_take_frame(4).is_none());
}

#[test]
fn drain_takes_every_whole_frame_from_one_large_chunk() {
    let mut acc: FrameAccumulator<i32> = FrameAccumulator::new();
    acc.push(&(0..11).collect::<Vec<i32>>());
    let frames = acc.drain_frames(3);
    assert_eq!(frames, vec![vec![0, 1, 2], vec![3, 4, 5], vec![6, 7, 8]]);
    assert_eq!(acc.len(), 2);
    assert_eq!(acc.try_take_frame(2), Some(vec![9, 10]));
}

#[test]
fn frame_count_does_not_depend_on_chunk_sizes() {
    // 3 + 5 + 7 = 15 = 3 * 4 + 3
    let mut acc: FrameAccumulator<u32> = FrameAccumulator::new();
    let mut all: Vec<Vec<u32>> = Vec::new();
    let mut next: u32 = 0;
    for size in [3u32, 5, 7] {
        let chunk: Vec<u32> = (next..next + size).collect();
        next += size;
        all.extend(acc.feed(&chunk, 4));
    }
    assert_eq!(all.len(), 3);
    assert_eq!(acc.len(), 3);
    assert_eq!(all[1], vec![4, 5, 6, 7]);

    let mut other: FrameAccumulator<u32> = FrameAccumulator::new();
    let mut count = 0;
    for v in 0..15u32 {
        count += other.feed(&vec![v], 4).len();
    }
    assert_eq!(count, 3);
    assert_eq!(other.len(), 3);
}

#[test]
fn analyzer_refuses_bad_settings() {
    let c = PeakCriteria::standard();
    assert_eq!(Analyzer::<f32>::new(1, 44100, c).err(), Some(ConfigError::FrameTooSmall));
    assert_eq!(Analyzer::<f32>::new(0, 0, c).err(), Some(ConfigError::FrameTooSmall));
    assert_eq!(Analyzer::<f32>::new(4096, 0, c).err(), Some(ConfigError::NoSampleRate));
    let a = Analyzer::<f32>::new(4096, 44100, c).ok().unwrap();
    assert_eq!(a.frame_size(), 4096);
    assert_eq!(a.sample_rate(), 44100);
    assert_eq!(a.criteria(), c);
    assert_eq!(a.pending_len(), 0);
}

#[test]
fn analyzer_feed_keeps_the_tail() {
    let mut a = Analyzer::<f32>::new(4, 8000, PeakCriteria::standard()).ok().unwrap();
    let frames = a.feed(&vec![0.5; 10]);
    assert_eq!(frames.len(), 2);
    assert_eq!(a.pending_len(), 2);
    let frames = a.feed(&vec![0.25; 2]);
    assert_eq!(frames, vec![vec![0.5, 0.5, 0.25, 0.25]]);
    assert_eq!(a.pending_len(), 0);
}
