use editorcito::decode::{FrameInfo, PixelFormat};
use editorcito::frame_buffer::FrameBuffer;

fn frame(pts: i64, width: u32, height: u32) -> FrameInfo {
    FrameInfo {
        pts,
        width,
        height,
        format: PixelFormat::RGB24,
        data: vec![0; (width * height * 3) as usize],
    }
}

#[test]
fn test_frame_buffer_insert_and_retrieve() {
    let mut buffer = FrameBuffer::new(60, false);
    let source = "test.mp4";

    buffer.insert_frame(source, frame(0, 1920, 1080));
    let (keys, frames) = buffer.cache_stats();
    assert_eq!(keys, 1);
    assert_eq!(frames, 1);
}

#[test]
fn test_frame_buffer_eviction() {
    let mut buffer = FrameBuffer::new(5, false);
    let source = "test.mp4";

    for i in 0..10 {
        buffer.insert_frame(source, frame(i, 1920, 1080));
    }

    let (_, frames) = buffer.cache_stats();
    assert!(frames <= 5);
}

#[test]
fn test_frame_buffer_limit_is_global() {
    let mut buffer = FrameBuffer::new(3, false);

    for i in 0..6 {
        buffer.insert_frame(if i % 2 == 0 { "source-a" } else { "source-b" }, frame(i, 1, 1));
    }

    assert_eq!(buffer.cache_stats(), (3, 3));
}

#[test]
fn test_frame_buffer_clear() {
    let mut buffer = FrameBuffer::new(60, false);
    let source = "test.mp4";

    for i in 0..5 {
        buffer.insert_frame(source, frame(i, 1920, 1080));
    }

    buffer.clear_all();
    let (keys, frames) = buffer.cache_stats();
    assert_eq!(keys, 0);
    assert_eq!(frames, 0);
}

#[test]
fn the_least_recently_used_frame_leaves_first() {
    let mut buffer = FrameBuffer::new(3, false);
    for i in 1..=3 {
        buffer.insert_frame("a.mov", frame(i, 1, 1));
    }
    // Using frame 1 makes frame 2 the oldest.
    assert!(buffer.lookup("a.mov", 1).is_some());
    buffer.insert_frame("a.mov", frame(4, 1, 1));
    assert!(buffer.lookup("a.mov", 2).is_none());
    assert!(buffer.lookup("a.mov", 1).is_some());
    assert!(buffer.lookup("a.mov", 3).is_some());
    assert!(buffer.lookup("a.mov", 4).is_some());
}

#[test]
fn a_cached_frame_is_served_without_decoding() {
    let mut buffer = FrameBuffer::new(4, false);
    let decoded = buffer.get_frame("b.mov", 7, || Ok(frame(7, 2, 2))).unwrap();
    assert_eq!(decoded.pts, 7);
    let cached = buffer
        .get_frame("b.mov", 7, || Err("the decoder must not run".to_owned()))
        .unwrap();
    assert_eq!(cached.width, 2);
    assert_eq!(buffer.cache_stats(), (1, 1));
    // A failing decode caches nothing.
    assert!(buffer.get_frame("b.mov", 8, || Err("broken".to_owned())).is_err());
    assert_eq!(buffer.cache_stats(), (1, 1));
}

#[test]
fn a_zero_limit_or_a_negative_timestamp_caches_nothing() {
    let mut none = FrameBuffer::new(0, false);
    none.insert_frame("a", frame(1, 1, 1));
    assert_eq!(none.cache_stats(), (0, 0));
    let mut buffer = FrameBuffer::new(2, false);
    buffer.insert_frame("a", frame(-1, 1, 1));
    assert_eq!(buffer.cache_stats(), (0, 0));
}

#[test]
fn reinserting_a_frame_replaces_it() {
    let mut buffer = FrameBuffer::new(2, false);
    buffer.insert_frame("a", frame(1, 1, 1));
    buffer.insert_frame("a", frame(1, 2, 2));
    assert_eq!(buffer.cache_stats(), (1, 1));
    assert_eq!(buffer.lookup("a", 1).unwrap().width, 2);
}

#[test]
fn clearing_a_source_keeps_the_others() {
    let mut buffer = FrameBuffer::new(10, false);
    buffer.insert_frame("a", frame(1, 1, 1));
    buffer.insert_frame("b", frame(1, 1, 1));
    buffer.insert_frame("a", frame(2, 1, 1));
    buffer.clear_source("a");
    assert_eq!(buffer.cache_stats(), (1, 1));
    assert!(buffer.lookup("b", 1).is_some());
}

#[test]
fn warmup_caches_what_decodes() {
    let mut buffer = FrameBuffer::new(10, false);
    buffer.warmup("w", 0..5, |i| if i % 2 == 0 { Ok(frame(i as i64, 1, 1)) } else { Err("x".into()) });
    assert_eq!(buffer.cache_stats(), (3, 3));
}

#[test]
fn warmup_keeps_the_last_frame_and_ignores_failures() {
    let mut buffer = FrameBuffer::new(2, false);
    buffer.warmup("w", 0..6, |i| Ok(frame(i as i64, 1, 1)));
    assert_eq!(buffer.cache_stats(), (2, 2));
    assert!(buffer.lookup("w", 5).is_some());
    assert!(buffer.lookup("w", 0).is_none());
    let mut untouched = FrameBuffer::new(4, false);
    untouched.insert_frame("v", frame(1, 1, 1));
    untouched.warmup("w", 0..6, |_| Err("no".into()));
    assert_eq!(untouched.cache_stats(), (1, 1));
    assert!(untouched.lookup("w", 0).is_none());
}

#[test]
fn a_frame_reads_back_as_stored_and_the_least_recently_used_leaves() {
    let mut buffer = FrameBuffer::new(2, false);
    let mut first = frame(1, 2, 2);
    first.data = vec![7; 12];
    buffer.insert_frame("a.mov", first.clone());
    buffer.insert_frame("a.mov", frame(2, 4, 4));
    // Reading frame 1 makes it the newest, so frame 2 leaves next.
    let read = buffer.lookup("a.mov", 1).unwrap();
    assert_eq!((read.pts, read.width, read.height, read.data.clone()), (1, 2, 2, vec![7; 12]));
    buffer.insert_frame("a.mov", frame(3, 2, 2));
    assert!(buffer.lookup("a.mov", 2).is_none());
    let again = buffer.lookup("a.mov", 1).unwrap();
    assert_eq!(again.data, vec![7; 12]);
    assert_eq!(buffer.lookup("a.mov", 3).unwrap().pts, 3);
    // A miss that decodes caches the decoded frame; a failure caches nothing.
    let got = buffer.get_frame("b.mov", 9, || Ok(frame(9, 1, 1))).unwrap();
    assert_eq!(got.pts, 9);
    assert_eq!(buffer.lookup("b.mov", 9).unwrap().width, 1);
    assert!(buffer.get_frame("b.mov", 10, || Err("roto".to_string())).is_err());
    assert!(buffer.lookup("b.mov", 10).is_none());
}
