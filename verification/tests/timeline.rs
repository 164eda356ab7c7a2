use editorcito::timeline::{Clip, Timeline, TimelineCommand, Transform};

fn clip(id: &str, source: &str, start: u64, end: u64) -> Clip {
    Clip {
        id: id.to_string(),
        source_path: source.to_string(),
        start_frame: start,
        end_frame: end,
        track_index: 0,
        enabled: true,
        opacity: 1.0f32.to_bits(),
        volume: 1.0f32.to_bits(),
        speed: 1.0f32.to_bits(),
        transform: Transform::default(),
    }
}

#[test]
fn test_timeline_creation() {
    let timeline = Timeline::new("seq1", "Main Sequence", 1920, 1080, 30.0f64.to_bits());
    assert_eq!(timeline.active_sequence, "seq1");
    assert_eq!(timeline.playhead_frame, 0);
    assert!(timeline.snap_enabled);
}

#[test]
fn test_add_tracks() {
    let mut timeline = Timeline::new("seq1", "Main", 1920, 1080, 24.0f64.to_bits());
    let vtrack = timeline.add_video_track();
    let atrack = timeline.add_audio_track();
    assert!(vtrack.starts_with("vtrack_"));
    assert!(atrack.starts_with("atrack_"));
    assert_eq!(vtrack, "vtrack_0");
    assert_eq!(atrack, "atrack_1");
}

#[test]
fn test_add_and_remove_clip() {
    let mut timeline = Timeline::new("seq1", "Main", 1920, 1080, 30.0f64.to_bits());
    timeline.add_video_track();

    timeline.add_clip(clip("clip1", "test.mp4", 0, 300)).unwrap();
    assert_eq!(timeline.undo_stack.len(), 1);

    timeline.remove_clip("clip1").unwrap();
    assert_eq!(timeline.undo_stack.len(), 2);
}

#[test]
fn test_split_clip() {
    let mut timeline = Timeline::new("seq1", "Main", 1920, 1080, 30.0f64.to_bits());
    timeline.add_video_track();

    timeline.add_clip(clip("clip1", "test.mp4", 0, 300)).unwrap();
    let new_clip = timeline.split_clip("clip1", 150).unwrap();
    assert_eq!(new_clip.start_frame, 150);
    assert_eq!(new_clip.end_frame, 300);
}

#[test]
fn test_ripple_delete() {
    let mut timeline = Timeline::new("seq1", "Main", 1920, 1080, 30.0f64.to_bits());
    timeline.add_video_track();

    timeline.add_clip(clip("clip1", "test.mp4", 0, 100)).unwrap();
    timeline.add_clip(clip("clip2", "test2.mp4", 100, 200)).unwrap();
    timeline.ripple_delete("clip1").unwrap();

    if let Some(seq) = timeline.active_sequence() {
        assert_eq!(seq.tracks[0].clips.len(), 1);
        assert_eq!(seq.tracks[0].clips[0].start_frame, 0);
        assert_eq!(seq.tracks[0].clips[0].end_frame, 100);
    }
}

#[test]
fn test_undo_redo() {
    let mut timeline = Timeline::new("seq1", "Main", 1920, 1080, 30.0f64.to_bits());
    timeline.add_video_track();

    timeline.add_clip(clip("clip1", "test.mp4", 0, 100)).unwrap();
    assert_eq!(timeline.undo_stack.len(), 1);
    assert_eq!(timeline.redo_stack.len(), 0);

    timeline.undo();
    assert_eq!(timeline.undo_stack.len(), 0);
    assert_eq!(timeline.redo_stack.len(), 1);

    timeline.redo();
    assert_eq!(timeline.undo_stack.len(), 1);
    assert_eq!(timeline.redo_stack.len(), 0);
}

#[test]
fn an_hour_of_frames_follows_the_rate() {
    for fps in [30.0f64, 24.0, 23.976, 29.97, 59.94, 0.0, 1e-300, 5e-324, 1e300, 12345.678, 0.5, 1.0 / 3600.0] {
        let timeline = Timeline::new("s", "n", 1, 1, fps.to_bits());
        let expected = (fps * 3600.0) as u64;
        assert_eq!(timeline.active_sequence().unwrap().duration_frames, expected, "{fps}");
    }
    for fps in [-24.0f64, f64::NAN, f64::INFINITY, f64::NEG_INFINITY, -0.0] {
        let timeline = Timeline::new("s", "n", 1, 1, fps.to_bits());
        assert_eq!(timeline.active_sequence().unwrap().duration_frames, (fps * 3600.0) as u64);
    }
    let timeline = Timeline::new("s", "n", 1, 1, 30.0f64.to_bits());
    assert_eq!(timeline.active_sequence().unwrap().duration_frames, 108_000);
    assert_eq!(timeline.zoom_level, 1.0f32.to_bits());
    assert_eq!(timeline.snap_threshold, 2);
    assert_eq!(timeline.max_undo_entries, 200);
}

#[test]
fn track_numbers_continue_from_the_highest() {
    let mut timeline = Timeline::new("seq1", "Main", 1920, 1080, 25.0f64.to_bits());
    timeline.add_video_track();
    timeline.active_sequence_mut().unwrap().tracks[0].id = "pista_41".to_string();
    assert_eq!(timeline.add_audio_track(), "atrack_42");
    timeline.active_sequence_mut().unwrap().tracks[1].id = "sin_numero".to_string();
    assert_eq!(timeline.add_video_track(), "vtrack_42");
    assert_eq!(timeline.active_sequence().unwrap().tracks.len(), 3);
}

#[test]
fn edits_report_what_is_missing() {
    let mut timeline = Timeline::new("seq1", "Main", 1920, 1080, 30.0f64.to_bits());
    let mut far = clip("c", "a.mov", 0, 10);
    far.track_index = 3;
    assert_eq!(timeline.add_clip(far), Err("Track index 3 out of range".to_string()));
    assert_eq!(timeline.remove_clip("nada"), Err("Clip 'nada' not found".to_string()));
    assert_eq!(timeline.ripple_delete("nada"), Err("Clip 'nada' not found".to_string()));
    assert_eq!(timeline.split_clip("nada", 5).unwrap_err(), "Clip 'nada' not found");
    assert!(timeline.undo_stack.is_empty());

    timeline.active_sequence = "otra".to_string();
    assert!(timeline.active_sequence().is_none());
    assert_eq!(timeline.add_clip(clip("c", "a.mov", 0, 10)), Err("Active sequence not found".to_string()));
    assert_eq!(timeline.remove_clip("c"), Err("Active sequence not found".to_string()));
    assert!(timeline.undo().is_none());
    assert!(timeline.redo().is_none());
}

#[test]
fn a_split_leaves_two_adjacent_pieces() {
    let mut timeline = Timeline::new("seq1", "Main", 1920, 1080, 30.0f64.to_bits());
    timeline.add_video_track();
    timeline.add_clip(clip("a", "a.mov", 10, 50)).unwrap();
    timeline.add_clip(clip("b", "b.mov", 50, 80)).unwrap();
    assert_eq!(timeline.split_clip("a", 10).unwrap_err(), "Split frame outside clip range");
    assert_eq!(timeline.split_clip("a", 50).unwrap_err(), "Split frame outside clip range");
    let piece = timeline.split_clip("a", 20).unwrap();
    assert_eq!(piece.id, "a_split_20");
    let clips = &timeline.active_sequence().unwrap().tracks[0].clips;
    let spans: Vec<(&str, u64, u64)> = clips.iter().map(|c| (c.id.as_str(), c.start_frame, c.end_frame)).collect();
    assert_eq!(spans, vec![("a", 10, 20), ("a_split_20", 20, 50), ("b", 50, 80)]);
    match timeline.undo_stack.last().unwrap() {
        TimelineCommand::SplitClip { clip_id, split_frame } => {
            assert_eq!(clip_id, "a");
            assert_eq!(*split_frame, 20);
        }
        other => panic!("{other:?}"),
    }
}

#[test]
fn a_ripple_delete_moves_only_what_follows() {
    let mut timeline = Timeline::new("seq1", "Main", 1920, 1080, 30.0f64.to_bits());
    timeline.add_video_track();
    timeline.add_clip(clip("a", "a.mov", 0, 40)).unwrap();
    timeline.add_clip(clip("b", "b.mov", 100, 160)).unwrap();
    timeline.add_clip(clip("c", "c.mov", 30, 45)).unwrap();
    timeline.add_clip(clip("d", "d.mov", 200, 210)).unwrap();
    timeline.ripple_delete("b").unwrap();
    let clips = &timeline.active_sequence().unwrap().tracks[0].clips;
    let spans: Vec<(&str, u64, u64)> = clips.iter().map(|c| (c.id.as_str(), c.start_frame, c.end_frame)).collect();
    assert_eq!(spans, vec![("a", 0, 40), ("c", 30, 45), ("d", 140, 150)]);
}

#[test]
fn the_history_keeps_its_last_entries_and_a_new_edit_clears_redo() {
    let mut timeline = Timeline::new("seq1", "Main", 1920, 1080, 30.0f64.to_bits());
    timeline.add_video_track();
    timeline.max_undo_entries = 2;
    for index in 0..4u64 {
        timeline.add_clip(clip(&format!("c{index}"), "a.mov", index * 10, index * 10 + 5)).unwrap();
    }
    assert_eq!(timeline.undo_stack.len(), 2);
    let undone = timeline.undo().unwrap();
    match &undone {
        TimelineCommand::AddClip { clip, sequence_id } => {
            assert_eq!(clip.id, "c3");
            assert_eq!(sequence_id, "seq1");
        }
        other => panic!("{other:?}"),
    }
    assert_eq!(timeline.redo_stack.len(), 1);
    timeline.remove_clip("c0").unwrap();
    assert!(timeline.redo_stack.is_empty());
    match timeline.undo_stack.last().unwrap() {
        TimelineCommand::RemoveClip { clip_id, sequence_id, track_index } => {
            assert_eq!(clip_id, "c0");
            assert_eq!(sequence_id, "seq1");
            assert_eq!(*track_index, 0);
        }
        other => panic!("{other:?}"),
    }
    timeline.set_playhead(77);
    assert_eq!(timeline.playhead(), 77);
}
