use rust_video_editor::editor::{ExportPoll, PollStep, Tick, VideoEditorApp};
use rust_video_editor::frame::{ClipBuilder, VideoClip};

fn clip(path: &str, frames: u8, rate: (i32, i32)) -> VideoClip {
    let mut builder = ClipBuilder::new();
    for i in 0..frames {
        builder.push_frame(&[i, i, i], 1, 1, 3);
    }
    builder.finish(path, rate, (5, 6))
}

fn editor(lengths: &[u8]) -> VideoEditorApp {
    let mut editor = VideoEditorApp::default();
    for (i, n) in lengths.iter().enumerate() {
        editor.add_clip(clip(&format!("{}.mp4", i), *n, (30, 1)));
    }
    editor
}

fn first_bytes(editor: &VideoEditorApp, i: usize) -> Vec<u8> {
    editor.playlist[i].frames.iter().map(|f| f[0]).collect()
}

#[test]
fn a_new_editor_is_empty() {
    let e = VideoEditorApp::default();
    assert_eq!(e.video_path_input, "C:\\test\\test.mp4");
    assert_eq!(e.output_path, "output.mp4");
    assert!(e.include_audio && !e.burn_subtitles && !e.playing && !e.export_open);
    assert!(e.export_status.is_none() && e.load_status.is_none());
    assert_eq!(e.subtitles_srt, "");
    assert!(e.map_global(0).is_none());
    assert!(e.current_clip().is_none());
    assert_eq!(e.display_size(), (640, 360));
    assert!(e.playhead(0).is_none());
}

#[test]
fn clips_are_added_at_the_end() {
    let e = editor(&[3, 2]);
    assert_eq!(e.clip_offsets, vec![0, 3]);
    assert_eq!(e.total_frames, 5);
    assert_eq!(e.global_frame, 4);
    assert_eq!(e.current_clip_idx, 1);
    assert!(e.timeline_dirty && !e.playing);
    assert_eq!(e.load_status.as_deref(), Some("読み込み完了"));
    assert_eq!(e.playlist[1].id, 1);
    assert_eq!(e.playlist[1].path, "1.mp4");
    assert_eq!(e.playlist[0].color, [50, 80, 100, 255]);
    assert_eq!(e.playlist[1].color, [120, 170, 160, 255]);
    assert_eq!(e.display_size(), (1, 1));
}

#[test]
fn colors_go_round() {
    let e = editor(&[1; 6]);
    assert_eq!(e.playlist[5].color, [50 + 150, 80, 100 + 145, 255]);
    assert_eq!(egui::Color32::from_rgb(200, 80, 245).to_array(), e.playlist[5].color);
}

#[test]
fn failing_to_load_is_reported() {
    let mut e = editor(&[1]);
    e.load_failed("no such file");
    assert_eq!(e.load_status.as_deref(), Some("エラー: no such file"));
    assert_eq!(e.playlist.len(), 1);
}

#[test]
fn frames_are_found_on_the_timeline() {
    let e = editor(&[3, 2, 4]);
    let mut g = 0;
    for (i, n) in [3, 2, 4].iter().enumerate() {
        for local in 0..*n {
            assert_eq!(e.map_global(g), Some((i, local)));
            g += 1;
        }
    }
    assert_eq!(e.map_global(9), Some((2, 4)));
    assert_eq!(e.map_global(100), Some((2, 95)));
}

#[test]
fn empty_clips_share_a_place() {
    let e = editor(&[2, 0, 3]);
    assert_eq!(e.map_global(1), Some((0, 1)));
    assert!(matches!(e.map_global(2), Some((1, 0)) | Some((2, 0))));
    assert_eq!(e.map_global(3), Some((2, 1)));
}

#[test]
fn rebuilding_keeps_the_position_on_the_timeline() {
    let mut e = editor(&[3, 2]);
    e.playlist[1].frames.clear();
    e.rebuild_offsets();
    assert_eq!(e.clip_offsets, vec![0, 3]);
    assert_eq!(e.total_frames, 3);
    assert_eq!(e.global_frame, 2);
}

#[test]
fn seeking() {
    let mut e = editor(&[3, 2]);
    e.seek_global(0);
    assert_eq!((e.global_frame, e.current_clip_idx), (0, 0));
    e.seek_global(3);
    assert_eq!((e.global_frame, e.current_clip_idx), (3, 1));
    e.seek_global(99);
    assert_eq!((e.global_frame, e.current_clip_idx), (4, 1));
    e.timeline_dirty = false;
    e.seek_clip_start(0);
    assert_eq!((e.global_frame, e.current_clip_idx, e.timeline_dirty), (0, 0, true));
    e.timeline_dirty = false;
    e.seek_clip_start(2);
    assert_eq!((e.global_frame, e.current_clip_idx, e.timeline_dirty), (0, 0, false));
    e.seek_in_clip(1, 1);
    assert_eq!((e.global_frame, e.current_clip_idx), (4, 1));
    e.seek_in_clip(1, 2);
    assert_eq!((e.global_frame, e.current_clip_idx), (4, 1));
    let mut empty = VideoEditorApp::default();
    empty.seek_global(7);
    assert_eq!(empty.global_frame, 0);
}

#[test]
fn starts_of_clips_need_offsets() {
    let mut e = editor(&[3, 2]);
    e.timeline_dirty = false;
    e.clip_offsets.pop();
    e.seek_clip_start(1);
    assert_eq!((e.global_frame, e.current_clip_idx, e.timeline_dirty), (4, 1, false));
    e.seek_clip_start(0);
    assert_eq!((e.global_frame, e.current_clip_idx, e.timeline_dirty), (0, 0, true));
}

#[test]
fn the_last_seek_decides() {
    for lengths in [[3, 2, 4], [2, 0, 3], [0, 0, 1]] {
        for a in 0..11 {
            for b in 0..11 {
                let mut once = editor(&lengths);
                let mut twice = editor(&lengths);
                once.seek_global(b);
                twice.seek_global(a);
                twice.seek_global(b);
                assert_eq!(once.global_frame, twice.global_frame);
                assert_eq!(once.current_clip_idx, twice.current_clip_idx);
            }
        }
    }
}

#[test]
fn the_playhead_stands_in_one_clip() {
    let mut e = editor(&[3, 2]);
    e.seek_global(4);
    assert_eq!(e.playhead(0), None);
    assert_eq!(e.playhead(1), Some(1));
}

#[test]
fn the_current_clip_can_be_changed() {
    let mut e = editor(&[3, 2]);
    e.seek_global(1);
    assert_eq!(e.current_clip().map(|c| c.path.as_str()), Some("0.mp4"));
    if let Some(c) = e.current_clip_mut() {
        c.path = "renamed".to_string();
    }
    assert_eq!(e.playlist[0].path, "renamed");
    assert_eq!(e.playlist[1].path, "1.mp4");
}

#[test]
fn cutting_takes_frames_out() {
    let mut e = editor(&[2, 6]);
    e.cut_range(1, 3);
    assert_eq!(first_bytes(&e, 1), vec![0, 3, 4, 5]);
    assert_eq!(first_bytes(&e, 0), vec![0, 1]);
    assert_eq!((e.total_frames, e.global_frame, e.current_clip_idx), (6, 2, 1));
    assert_eq!(e.clip_offsets, vec![0, 2]);
    assert!(e.timeline_dirty);
}

#[test]
fn cutting_clamps_and_swaps() {
    let mut e = editor(&[6]);
    e.cut_range(-5, 2);
    assert_eq!(first_bytes(&e, 0), vec![2, 3, 4, 5]);
    e.cut_range(99, 3);
    assert_eq!(first_bytes(&e, 0), vec![2, 3, 4]);
    e.cut_range(2, 0);
    assert_eq!(first_bytes(&e, 0), vec![2, 3]);
    e.cut_range(1, 1);
    assert_eq!(first_bytes(&e, 0), vec![2, 3]);
    e.cut_range(0, -1);
    assert!(first_bytes(&e, 0).is_empty());
    e.cut_range(0, 0);
    assert_eq!(e.total_frames, 0);
}

#[test]
fn cutting_a_whole_clip_goes_to_its_place() {
    let mut e = editor(&[2, 3]);
    e.cut_range(0, 0);
    assert_eq!((e.total_frames, e.global_frame, e.current_clip_idx), (2, 2, 1));
}

#[test]
fn extracting_leaves_the_selection() {
    let mut e = editor(&[2, 6]);
    e.extract_range(1, 3);
    assert_eq!(first_bytes(&e, 1), vec![1, 2]);
    assert_eq!((e.total_frames, e.global_frame, e.current_clip_idx), (4, 2, 1));
    e.extract_range(0, 0);
    assert_eq!(first_bytes(&e, 1), vec![1, 2]);
    e.extract_range(2, 1);
    assert_eq!(first_bytes(&e, 1), vec![2]);
}

#[test]
fn cut_and_extract_complement_each_other() {
    let mut a = editor(&[6]);
    let mut b = editor(&[6]);
    a.cut_range(4, 1);
    b.extract_range(4, 1);
    assert_eq!(first_bytes(&a, 0), vec![0, 4, 5]);
    assert_eq!(first_bytes(&b, 0), vec![1, 2, 3]);
}

#[test]
fn clips_without_a_frame_rate_are_not_cut() {
    let mut e = VideoEditorApp::default();
    e.add_clip(clip("a", 4, (0, 1)));
    e.cut_range(0, 2);
    e.extract_range(0, 2);
    assert_eq!(e.total_frames, 4);
    let mut none = VideoEditorApp::default();
    none.cut_range(0, 2);
    none.extract_range(0, 2);
    assert_eq!(none.total_frames, 0);
}

#[test]
fn ids_do_not_matter_to_cutting_and_playing() {
    let mut e = editor(&[4, 3]);
    e.playlist[0].id = 7;
    e.playlist[1].id = 7;
    e.current_clip_idx = 9;
    e.cut_range(0, 1);
    assert_eq!(first_bytes(&e, 1), vec![1, 2]);
    e.extract_range(1, 2);
    assert_eq!(first_bytes(&e, 1), vec![2]);
    assert_eq!((e.total_frames, e.global_frame, e.current_clip_idx), (5, 4, 1));
    e.toggle_playing();
    assert!(matches!(e.tick(1, 1), Tick::Due(Some((1, 0)))));
    assert!(!e.playing);
    e.add_clip(clip("b", 1, (30, 1)));
    assert_eq!((e.total_frames, e.playlist[2].id), (6, 2));
}

#[test]
fn later_clips_move() {
    let mut e = editor(&[4, 3, 2]);
    e.seek_global(0);
    e.cut_range(1, 3);
    assert_eq!(e.clip_offsets, vec![0, 2, 5]);
    assert_eq!(e.total_frames, 7);
}

#[test]
fn playing_shows_every_frame_and_stops() {
    let mut e = editor(&[2, 1]);
    assert!(matches!(e.tick(5, 1), Tick::Idle));
    e.seek_global(0);
    e.toggle_playing();
    assert!(matches!(e.tick(1, 2), Tick::Waiting));
    assert!(matches!(e.tick(2, 2), Tick::Due(Some((0, 0)))));
    assert!(matches!(e.tick(2, 2), Tick::Due(Some((0, 1)))));
    assert!(e.playing);
    assert!(matches!(e.tick(2, 2), Tick::Due(Some((1, 0)))));
    assert!(!e.playing);
    assert_eq!(e.global_frame, 2);
    assert!(matches!(e.tick(2, 2), Tick::Idle));
}

#[test]
fn an_empty_clip_shows_nothing() {
    let mut e = editor(&[2, 3]);
    e.cut_range(0, 0);
    e.toggle_playing();
    assert!(matches!(e.tick(1, 1), Tick::Due(None)));
    assert!(!e.playing);
}

#[test]
fn nothing_plays_without_frames() {
    let mut e = VideoEditorApp::default();
    e.toggle_playing();
    assert!(matches!(e.tick(1, 1), Tick::Idle));
    assert!(e.playing);
}

#[test]
fn news_of_an_export() {
    let mut e = VideoEditorApp::default();
    e.export_open = true;
    let step = e.export_news(ExportPoll::Message("working".to_string()));
    assert_eq!(step, PollStep { repaint: true, again: true });
    assert_eq!(e.export_status.as_deref(), Some("working"));
    assert!(e.export_open);
    let step = e.export_news(ExportPoll::Empty);
    assert_eq!(step, PollStep { repaint: false, again: false });
    assert!(e.export_open);
    let step = e.export_news(ExportPoll::Message("出力成功: /x/output.mp4".to_string()));
    assert_eq!(step, PollStep { repaint: true, again: false });
    assert!(!e.export_open);
    e.export_open = true;
    let step = e.export_news(ExportPoll::Message("プレイリストが空です".to_string()));
    assert_eq!(step, PollStep { repaint: true, again: false });
    assert!(!e.export_open);
    e.export_open = true;
    for message in ["Export succeeded: x", "No frames to export"] {
        e.export_open = true;
        let step = e.export_news(ExportPoll::Message(message.to_string()));
        assert_eq!(step, PollStep { repaint: true, again: false });
        assert_eq!(e.export_status.as_deref(), Some(message));
        assert!(!e.export_open);
    }
    e.export_open = true;
    let step = e.export_news(ExportPoll::Disconnected);
    assert_eq!(step, PollStep { repaint: false, again: false });
    assert!(!e.export_open);
    assert_eq!(e.export_status.as_deref(), Some("No frames to export"));
    e.export_open = true;
    for message in ["Export", "No frames", "出力失敗: status=1 stderr=", "出力成功"] {
        assert!(e.export_news(ExportPoll::Message(message.to_string())).again);
        assert!(e.export_open);
    }
}
