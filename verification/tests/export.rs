use rust_video_editor::editor::{ExportPoll, VideoEditorApp};
use rust_video_editor::export::{
    build_concat_graph, escape_ffmpeg_filter_path, escape_filter_text, ExportCommand, ExportEvent,
    ExportJob, ExportStage, ExportStep,
};
use rust_video_editor::frame::ClipBuilder;
use std::path::PathBuf;

fn job(inputs: &[&str], audio: bool, srt: Option<&str>) -> ExportJob {
    ExportJob {
        inputs: inputs.iter().map(|s| s.to_string()).collect(),
        frame_size: (1280, 720),
        include_audio: audio,
        burn_subtitles: srt.is_some(),
        subtitles_srt: srt.unwrap_or("").to_string(),
        output: "output.mp4".to_string(),
    }
}

fn encodes(step: &ExportStep, with: bool) -> bool {
    step.stage == ExportStage::Encoding { script: with }
        && matches!(step.command, ExportCommand::Encode { subtitles } if subtitles == with)
}

fn stops(step: &ExportStep, remove: bool) -> bool {
    step.stage == ExportStage::Finished
        && matches!(step.command, ExportCommand::Stop { remove_script } if remove_script == remove)
}

const ENCODING: &str = "ffmpeg concat で書き出し中...";

#[test]
fn paths_are_escaped_for_filters() {
    let path = PathBuf::from("C:\\Users\\it's \"me\"\\a.ass");
    assert_eq!(
        escape_ffmpeg_filter_path(&path),
        "C\\:/Users/it\\'s \\\"me\\\"/a.ass"
    );
    assert_eq!(escape_filter_text("/tmp/字幕.ass"), "/tmp/字幕.ass");
    assert_eq!(escape_filter_text(""), "");
}

#[test]
fn inputs_are_concatenated() {
    assert_eq!(
        build_concat_graph(2, true),
        "[0:v][0:a][1:v][1:a]concat=n=2:v=1:a=1[outv][outa]"
    );
    assert_eq!(
        build_concat_graph(2, false),
        "[0:v][1:v]concat=n=2:v=1:a=0[outv]"
    );
}

#[test]
fn command_lines() {
    let out = PathBuf::from("/out/o.mp4");
    assert_eq!(
        job(&["a.mp4", "b.mp4"], true, None).command(None, &out),
        vec![
            "-y", "-i", "a.mp4", "-i", "b.mp4", "-filter_complex",
            "[0:v][0:a][1:v][1:a]concat=n=2:v=1:a=1[outv][outa]", "-map", "[outv]", "-map",
            "[outa]", "-c:v", "libx264", "-c:a", "aac", "/out/o.mp4",
        ]
    );
    let script = PathBuf::from("C:\\s.ass");
    let fonts = PathBuf::from("/fonts");
    assert_eq!(
        job(&["a.mp4"], false, None).command(Some((&script, &fonts)), &out),
        vec![
            "-y", "-i", "a.mp4", "-filter_complex",
            "[0:v]concat=n=1:v=1:a=0[outv];[outv]subtitles='C\\:/s.ass':fontsdir='/fonts'[vsub]",
            "-map", "[vsub]", "-c:v", "libx264", "/out/o.mp4",
        ]
    );
}

#[test]
fn no_audio_unless_asked_for() {
    for n in 1..12 {
        let inputs: Vec<String> = (0..n).map(|i| format!("{}.mp4", i)).collect();
        let inputs: Vec<&str> = inputs.iter().map(|s| s.as_str()).collect();
        let args = job(&inputs, false, None).command(None, &PathBuf::from("o.mp4"));
        assert!(args.iter().all(|arg| !arg.contains(":a]") && arg != "[outa]" && arg != "-c:a"));
        assert!(args.contains(&build_concat_graph(n, false)));
    }
}

#[test]
fn the_completion_message_ends_the_news() {
    let mut e = VideoEditorApp::default();
    for (inputs, stage, event) in [
        (vec!["a"], ExportStage::Encoding { script: false }, ExportEvent::Encoded("/o".to_string())),
        (vec![], ExportStage::Starting, ExportEvent::Start),
    ] {
        e.begin_export();
        let step = job(&inputs, true, None).step(stage, event);
        for message in step.messages {
            assert!(e.export_open);
            assert!(!e.export_news(ExportPoll::Message(message)).again);
        }
        assert!(!e.export_open);
    }
}

#[test]
fn an_export_takes_the_playlist_as_it_is() {
    let mut e = VideoEditorApp::default();
    let mut builder = ClipBuilder::new();
    builder.push_frame(&[1, 2, 3], 1, 1, 3);
    e.add_clip(builder.finish("a.mp4", (30, 1), (9, 9)));
    e.add_clip(ClipBuilder::new().finish("b.mp4", (30, 1), (9, 9)));
    e.burn_subtitles = true;
    e.subtitles_srt = "srt".to_string();
    e.output_path = "o.mp4".to_string();
    let job = e.begin_export();
    assert_eq!(job.inputs, vec!["a.mp4", "b.mp4"]);
    assert_eq!(job.frame_size, (1, 1));
    assert!(job.include_audio && job.burn_subtitles);
    assert_eq!(job.subtitles_srt, "srt");
    assert_eq!(job.output, "o.mp4");
    assert_eq!(e.export_status.as_deref(), Some("エクスポート開始"));
    assert!(e.export_open);
    assert_eq!(VideoEditorApp::default().begin_export().frame_size, (1280, 720));
}

#[test]
fn an_empty_playlist_is_not_exported() {
    let step = job(&[], true, Some("x")).step(ExportStage::Starting, ExportEvent::Start);
    assert_eq!(step.messages, vec!["プレイリストが空です"]);
    assert!(stops(&step, false));
}

#[test]
fn an_export_without_subtitles() {
    let job = job(&["a"], true, None);
    let step = job.step(ExportStage::Starting, ExportEvent::Start);
    assert_eq!(step.messages, vec![ENCODING]);
    assert!(encodes(&step, false));
    let step = job.step(step.stage, ExportEvent::Encoded("/o.mp4".to_string()));
    assert_eq!(step.messages, vec!["出力成功: /o.mp4"]);
    assert!(stops(&step, false));
}

#[test]
fn an_export_with_subtitles() {
    let job = job(&["a"], true, Some("00:01 --> 00:02\nhi"));
    let step = job.step(ExportStage::Starting, ExportEvent::Start);
    assert!(step.messages.is_empty());
    assert_eq!(step.stage, ExportStage::WritingScript);
    match &step.command {
        ExportCommand::WriteScript(text) => {
            assert!(text.starts_with("[Script Info]\n"));
            assert!(text.contains("PlayResX: 1280\nPlayResY: 720\n"));
            assert!(text.ends_with("\nDialogue: 0,0:00:01.00,0:00:02.00,Default,,0,0,0,,hi\n"));
        }
        _ => panic!("no script"),
    }
    let step = job.step(step.stage, ExportEvent::ScriptWritten);
    assert_eq!(step.messages, vec![ENCODING]);
    assert!(encodes(&step, true));
    let failed = ExportEvent::EncoderFailed("exit status: 1".to_string(), "oops".to_string());
    let step = job.step(step.stage, failed);
    assert_eq!(step.messages, vec!["出力失敗: status=exit status: 1 stderr=oops"]);
    assert!(stops(&step, true));
}

#[test]
fn subtitles_that_cannot_be_used() {
    let step = job(&["a"], true, Some("nothing")).step(ExportStage::Starting, ExportEvent::Start);
    assert_eq!(
        step.messages,
        vec!["字幕が空 or 解析できません（字幕なしで書き出します）", ENCODING]
    );
    assert!(encodes(&step, false));
}

#[test]
fn a_script_that_cannot_be_written() {
    let job = job(&["a"], true, Some("00:01 --> 00:02\nhi"));
    let step = job.step(ExportStage::WritingScript, ExportEvent::ScriptFailed);
    assert_eq!(
        step.messages,
        vec!["字幕ファイル生成に失敗（字幕なしで書き出します）", ENCODING]
    );
    assert!(encodes(&step, false));
    let step = job.step(step.stage, ExportEvent::EncoderMissing("not found".to_string()));
    assert_eq!(step.messages, vec!["ffmpeg起動失敗: not found"]);
    assert!(stops(&step, false));
}
