//! Exporting the playlist: the encoder's command line, and the course of an export.

use crate::ass::build_ass_script;
use crate::editor::VideoEditorApp;
use crate::subtitle::parse_srt_to_items;
use crate::text::push_decimal;
use std::path::PathBuf;
use vstd::prelude::*;

verus! {

// ---------------------------------------------------------------------------
// Paths
// ---------------------------------------------------------------------------
/// A path in the file system.
#[verifier::external_type_specification]
#[verifier::external_body]
pub struct ExPathBuf(std::path::PathBuf);

/// The characters of a path, with the replacement character in place of what is no Unicode.
pub uninterp spec fn path_text(path: std::path::PathBuf) -> Seq<char>;

/// `std::path::Path::to_string_lossy` gives the characters of a path, with the replacement
/// character in place of what is no Unicode.
#[verifier::external_body]
fn lossy_text(path: &PathBuf) -> (text: String)
    ensures
        text@ == path_text(*path),
{
    path.to_string_lossy().into_owned()
}

/// How a character of a path stands in a quoted value of a filter graph: with slashes for
/// backslashes, and a backslash before colons and quotes.
pub open spec fn filter_char(c: char) -> Seq<char> {
    if c == '\\' {
        seq!['/']
    } else if c == ':' || c == '"' || c == '\'' {
        seq!['\\', c]
    } else {
        seq![c]
    }
}

/// How a path stands in a quoted value of a filter graph, character by character.
pub open spec fn filter_text(path: Seq<char>) -> Seq<char>
    decreases path.len(),
{
    if path.len() == 0 {
        path
    } else {
        filter_text(path.drop_last()) + filter_char(path.last())
    }
}

/// Escapes the text of a path for a filter graph.
pub fn escape_filter_text(path: &str) -> (out: String)
    ensures
        out@ == filter_text(path@),
{
    let mut out = String::new();
    for c in it: path.chars()
        invariant
            it.seq() == path@,
            out@ == filter_text(path@.take(it.index())),
    {
        let ghost before = out@;
        if c == '\\' {
            out.push('/');
        } else {
            if c == ':' || c == '"' || c == '\'' {
                out.push('\\');
            }
            out.push(c);
        }
        proof {
            assert(out@ =~= before + filter_char(c));
            assert(path@.take(it.index() + 1).drop_last() =~= path@.take(it.index()));
        }
    }
    assert(path@.take(path@.len() as int) =~= path@);
    out
}

/// Escapes a path for a filter graph.
pub fn escape_ffmpeg_filter_path(path: &PathBuf) -> (out: String)
    ensures
        out@ == filter_text(path_text(*path)),
{
    let text = lossy_text(path);
    escape_filter_text(text.as_str())
}

// ---------------------------------------------------------------------------
// The command line
// ---------------------------------------------------------------------------
/// What is to be exported, and how.
pub struct ExportJob {
    /// The videos, one after the other.
    pub inputs: Vec<String>,
    /// The size of the first video.
    pub frame_size: (u32, u32),
    pub include_audio: bool,
    pub burn_subtitles: bool,
    pub subtitles_srt: String,
    pub output: String,
}

/// The texts of a list of strings.
pub open spec fn texts(strings: Seq<String>) -> Seq<Seq<char>> {
    Seq::new(strings.len(), |i: int| strings[i]@)
}

/// The video and the audio of the first `n` inputs.
pub open spec fn video_and_audio_pads(n: nat) -> Seq<char>
    decreases n,
{
    if n == 0 {
        Seq::empty()
    } else {
        let i = (n - 1) as nat;
        video_and_audio_pads(i) + "["@ + crate::text::decimal(i) + ":v]["@ + crate::text::decimal(i)
            + ":a]"@
    }
}

/// The video of the first `n` inputs.
pub open spec fn video_pads(n: nat) -> Seq<char>
    decreases n,
{
    if n == 0 {
        Seq::empty()
    } else {
        let i = (n - 1) as nat;
        video_pads(i) + "["@ + crate::text::decimal(i) + ":v]"@
    }
}

/// The filter graph that puts `n` inputs one after the other, with their audio or without.
pub open spec fn concat_graph(n: nat, audio: bool) -> Seq<char> {
    if audio {
        video_and_audio_pads(n) + "concat=n="@ + crate::text::decimal(n)
            + ":v=1:a=1[outv][outa]"@
    } else {
        video_pads(n) + "concat=n="@ + crate::text::decimal(n)
            + ":v=1:a=0[outv]"@
    }
}

/// The filter that burns in the subtitles of a script, with the fonts of a directory.
pub open spec fn subtitles_filter(script: Seq<char>, fonts: Seq<char>) -> Seq<char> {
    ";[outv]subtitles='"@ + filter_text(script) + "':fontsdir='"@ + filter_text(fonts)
        + "'[vsub]"@
}

/// The arguments that name the inputs.
pub open spec fn input_args(inputs: Seq<Seq<char>>) -> Seq<Seq<char>>
    decreases inputs.len(),
{
    if inputs.len() == 0 {
        Seq::empty()
    } else {
        input_args(inputs.drop_last()) + seq!["-i"@, inputs.last()]
    }
}

/// The arguments of the encoder; `subtitles` are the paths of a script and of the fonts.
pub open spec fn encoder_args(
    inputs: Seq<Seq<char>>,
    audio: bool,
    subtitles: Option<(Seq<char>, Seq<char>)>,
    output: Seq<char>,
) -> Seq<Seq<char>> {
    let graph = match subtitles {
        Some((script, fonts)) => concat_graph(inputs.len(), audio) + subtitles_filter(
            script,
            fonts,
        ),
        None => concat_graph(inputs.len(), audio),
    };
    let video = if subtitles is Some {
        "[vsub]"@
    } else {
        "[outv]"@
    };
    if audio {
        seq!["-y"@] + input_args(inputs) + seq![
            "-filter_complex"@,
            graph,
            "-map"@,
            video,
            "-map"@,
            "[outa]"@,
            "-c:v"@,
            "libx264"@,
            "-c:a"@,
            "aac"@,
            output,
        ]
    } else {
        seq!["-y"@] + input_args(inputs) + seq![
            "-filter_complex"@,
            graph,
            "-map"@,
            video,
            "-c:v"@,
            "libx264"@,
            output,
        ]
    }
}

/// Writes the filter graph that puts `n` inputs one after the other, with their audio or
/// without.
pub fn build_concat_graph(n: usize, audio: bool) -> (filter: String)
    ensures
        filter@ == concat_graph(n as nat, audio),
{
    let mut filter = String::new();
    for i in 0..n
        invariant
            filter@ == (if audio {
                video_and_audio_pads(i as nat)
            } else {
                video_pads(i as nat)
            }),
    {
        filter.append("[");
        push_decimal(&mut filter, i as u64);
        if audio {
            filter.append(":v][");
            push_decimal(&mut filter, i as u64);
            filter.append(":a]");
            assert(filter@ =~= video_and_audio_pads((i + 1) as nat));
        } else {
            filter.append(":v]");
            assert(filter@ =~= video_pads((i + 1) as nat));
        }
    }
    filter.append("concat=n=");
    push_decimal(&mut filter, n as u64);
    if audio {
        filter.append(":v=1:a=1[outv][outa]");
    } else {
        filter.append(":v=1:a=0[outv]");
    }
    filter
}

/// Appends an argument.
fn push_arg(args: &mut Vec<String>, arg: &str)
    ensures
        texts(final(args)@) == texts(old(args)@).push(arg@),
{
    args.push(arg.to_string());
    assert(texts(args@) =~= texts(old(args)@).push(arg@));
}

impl ExportJob {
    /// The arguments that begin the command line: overwrite the output, and the inputs.
    fn first_args(&self) -> (args: Vec<String>)
        ensures
            texts(args@) == seq!["-y"@] + input_args(texts(self.inputs@)),
    {
        let mut args: Vec<String> = Vec::new();
        push_arg(&mut args, "-y");
        let ghost inputs = texts(self.inputs@);
        assert(texts(args@) =~= seq!["-y"@] + input_args(inputs.take(0)));
        for i in 0..self.inputs.len()
            invariant
                inputs == texts(self.inputs@),
                texts(args@) == seq!["-y"@] + input_args(inputs.take(i as int)),
        {
            push_arg(&mut args, "-i");
            push_arg(&mut args, self.inputs[i].as_str());
            proof {
                assert(inputs.take(i + 1).drop_last() =~= inputs.take(i as int));
                assert(texts(args@) =~= seq!["-y"@] + input_args(inputs.take(i + 1)));
            }
        }
        assert(inputs.take(inputs.len() as int) =~= inputs);
        args
    }

    /// The arguments of the encoder, for the texts of the paths.
    pub fn command_for(&self, subtitles: Option<(&str, &str)>, output: &str) -> (args: Vec<String>)
        ensures
            texts(args@) == encoder_args(
                texts(self.inputs@),
                self.include_audio,
                match subtitles {
                    Some((script, fonts)) => Some((script@, fonts@)),
                    None => None,
                },
                output@,
            ),
    {
        let mut args = self.first_args();
        let ghost first = texts(args@);
        let mut filter = build_concat_graph(self.inputs.len(), self.include_audio);
        let mut video = "[outv]";
        if let Some((script, fonts)) = subtitles {
            let ghost before = filter@;
            filter.append(";[outv]subtitles='");
            filter.append(escape_filter_text(script).as_str());
            filter.append("':fontsdir='");
            filter.append(escape_filter_text(fonts).as_str());
            filter.append("'[vsub]");
            assert(filter@ =~= before + subtitles_filter(script@, fonts@));
            video = "[vsub]";
        }
        push_arg(&mut args, "-filter_complex");
        push_arg(&mut args, filter.as_str());
        push_arg(&mut args, "-map");
        push_arg(&mut args, video);
        if self.include_audio {
            push_arg(&mut args, "-map");
            push_arg(&mut args, "[outa]");
        }
        push_arg(&mut args, "-c:v");
        push_arg(&mut args, "libx264");
        if self.include_audio {
            push_arg(&mut args, "-c:a");
            push_arg(&mut args, "aac");
        }
        push_arg(&mut args, output);
        proof {
            if self.include_audio {
                assert(texts(args@) =~= first + seq![
                    "-filter_complex"@,
                    filter@,
                    "-map"@,
                    video@,
                    "-map"@,
                    "[outa]"@,
                    "-c:v"@,
                    "libx264"@,
                    "-c:a"@,
                    "aac"@,
                    output@,
                ]);
            } else {
                assert(texts(args@) =~= first + seq![
                    "-filter_complex"@,
                    filter@,
                    "-map"@,
                    video@,
                    "-c:v"@,
                    "libx264"@,
                    output@,
                ]);
            }
        }
        args
    }

    /// The arguments of the encoder; `subtitles` are the paths of a script and of the fonts.
    pub fn command(&self, subtitles: Option<(&PathBuf, &PathBuf)>, output: &PathBuf) -> (args: Vec<String>)
        ensures
            texts(args@) == encoder_args(
                texts(self.inputs@),
                self.include_audio,
                match subtitles {
                    Some((script, fonts)) => Some((path_text(*script), path_text(*fonts))),
                    None => None,
                },
                path_text(*output),
            ),
    {
        let out = lossy_text(output);
        match subtitles {
            Some((script, fonts)) => {
                let script_text = lossy_text(script);
                let fonts_text = lossy_text(fonts);
                self.command_for(
                    Some((script_text.as_str(), fonts_text.as_str())),
                    out.as_str(),
                )
            },
            None => self.command_for(None, out.as_str()),
        }
    }
}

impl VideoEditorApp {
    /// The paths of the clips.
    pub open spec fn clip_paths(self) -> Seq<Seq<char>> {
        Seq::new(self.playlist@.len(), |i: int| self.playlist@[i].path@)
    }

    /// Begins an export of the playlist as it is now.
    pub fn begin_export(&mut self) -> (job: ExportJob)
        ensures
            *final(self) == (VideoEditorApp {
                export_status: final(self).export_status,
                export_open: true,
                ..*old(self)
            }),
            final(self).export_status matches Some(status) && status@ == "エクスポート開始"@,
            texts(job.inputs@) == old(self).clip_paths(),
            job.frame_size == (if old(self).playlist@.len() > 0 {
                old(self).playlist@[0].size
            } else {
                (1280u32, 720u32)
            }),
            job.include_audio == old(self).include_audio,
            job.burn_subtitles == old(self).burn_subtitles,
            job.subtitles_srt@ == old(self).subtitles_srt@,
            job.output@ == old(self).output_path@,
    {
        let mut inputs: Vec<String> = Vec::new();
        let count: usize = self.playlist.len();
        for i in 0..count
            invariant
                count == self.playlist@.len(),
                inputs@.len() == i,
                forall|j: int| 0 <= j < i ==> (#[trigger] inputs@[j])@ == self.playlist@[j].path@,
        {
            inputs.push(self.playlist[i].path.clone());
        }
        let frame_size: (u32, u32) = if count > 0 {
            self.playlist[0].size
        } else {
            (1280, 720)
        };
        let job = ExportJob {
            inputs,
            frame_size,
            include_audio: self.include_audio,
            burn_subtitles: self.burn_subtitles,
            subtitles_srt: self.subtitles_srt.clone(),
            output: self.output_path.clone(),
        };
        assert(texts(job.inputs@) =~= self.clip_paths());
        self.export_status = Some("エクスポート開始".to_string());
        self.export_open = true;
        job
    }
}

// ---------------------------------------------------------------------------
// The course of an export
// ---------------------------------------------------------------------------
/// How far an export has come.
#[derive(Clone, Copy, PartialEq, Eq, Structural, Debug)]
pub enum ExportStage {
    /// It has not begun.
    Starting,
    /// The script of the subtitles is being written.
    WritingScript,
    /// The encoder is running; `script` says whether there is a script.
    Encoding { script: bool },
    /// It is over.
    Finished,
}

/// What has happened in an export.
pub enum ExportEvent {
    /// It begins.
    Start,
    /// The script has been written.
    ScriptWritten,
    /// The script could not be written.
    ScriptFailed,
    /// The encoder has succeeded; the output is at this path.
    Encoded(String),
    /// The encoder has failed with this status and this output.
    EncoderFailed(String, String),
    /// The encoder could not be started, for this reason.
    EncoderMissing(String),
}

/// What is to be done next in an export.
pub enum ExportCommand {
    /// Write this script.
    WriteScript(String),
    /// Run the encoder, with the script or without.
    Encode { subtitles: bool },
    /// End the export, and remove the script if there is one.
    Stop { remove_script: bool },
}

/// What follows from an event: messages to report, in order, and what to do next.
pub struct ExportStep {
    pub stage: ExportStage,
    pub messages: Vec<String>,
    pub command: ExportCommand,
}

/// The value of a command.
pub enum CommandView {
    WriteScript(Seq<char>),
    Encode { subtitles: bool },
    Stop { remove_script: bool },
}

impl View for ExportCommand {
    type V = CommandView;

    open spec fn view(&self) -> CommandView {
        match *self {
            ExportCommand::WriteScript(script) => CommandView::WriteScript(script@),
            ExportCommand::Encode { subtitles } => CommandView::Encode { subtitles },
            ExportCommand::Stop { remove_script } => CommandView::Stop { remove_script },
        }
    }
}

/// The value of a step.
pub struct StepView {
    pub stage: ExportStage,
    pub messages: Seq<Seq<char>>,
    pub command: CommandView,
}

impl View for ExportStep {
    type V = StepView;

    open spec fn view(&self) -> StepView {
        StepView { stage: self.stage, messages: texts(self.messages@), command: self.command@ }
    }
}

/// An event that can happen at a stage.
pub open spec fn can_happen(stage: ExportStage, event: ExportEvent) -> bool {
    match event {
        ExportEvent::Start => stage is Starting,
        ExportEvent::ScriptWritten | ExportEvent::ScriptFailed => stage is WritingScript,
        _ => stage is Encoding,
    }
}

/// The step that ends an export.
pub open spec fn ended(message: Seq<char>, remove_script: bool) -> StepView {
    StepView {
        stage: ExportStage::Finished,
        messages: seq![message],
        command: CommandView::Stop { remove_script },
    }
}

/// The step that starts the encoder, after reporting `messages`.
pub open spec fn encoding(messages: Seq<Seq<char>>, subtitles: bool) -> StepView {
    StepView {
        stage: ExportStage::Encoding { script: subtitles },
        messages: messages.push("ffmpeg concat で書き出し中..."@),
        command: CommandView::Encode { subtitles },
    }
}

impl ExportJob {
    /// The cues of its subtitles.
    pub open spec fn cues(self) -> Seq<crate::subtitle::Cue> {
        crate::subtitle::srt_cues(self.subtitles_srt@)
    }

    /// The subtitles are needed and their times cannot be computed.
    pub open spec fn has_bad_times(self) -> bool {
        &&& self.inputs@.len() > 0
        &&& self.burn_subtitles
        &&& !crate::subtitle::times_fit(self.subtitles_srt@)
    }

    /// What follows from an event.
    pub open spec fn next(self, stage: ExportStage, event: ExportEvent) -> StepView {
        let script = stage == (ExportStage::Encoding { script: true });
        match event {
            ExportEvent::Start => if self.inputs@.len() == 0 {
                ended("プレイリストが空です"@, false)
            } else if !self.burn_subtitles {
                encoding(seq![], false)
            } else if self.cues().len() == 0 {
                encoding(
                    seq!["字幕が空 or 解析できません（字幕なしで書き出します）"@],
                    false,
                )
            } else {
                StepView {
                    stage: ExportStage::WritingScript,
                    messages: seq![],
                    command: CommandView::WriteScript(
                        crate::ass::ass_script(
                            self.frame_size.0 as nat,
                            self.frame_size.1 as nat,
                            self.cues(),
                        ),
                    ),
                }
            },
            ExportEvent::ScriptWritten => encoding(seq![], true),
            ExportEvent::ScriptFailed => encoding(
                seq!["字幕ファイル生成に失敗（字幕なしで書き出します）"@],
                false,
            ),
            ExportEvent::Encoded(path) => ended("出力成功: "@ + path@, script),
            ExportEvent::EncoderFailed(status, stderr) => ended(
                "出力失敗: status="@ + status@ + " stderr="@ + stderr@,
                script,
            ),
            ExportEvent::EncoderMissing(error) => ended("ffmpeg起動失敗: "@ + error@, script),
        }
    }

    /// Takes the next step after an event.
    pub fn step(&self, stage: ExportStage, event: ExportEvent) -> (r: ExportStep)
        requires
            can_happen(stage, event),
            event is Start ==> !self.has_bad_times(),
        ensures
            r@ == self.next(stage, event),
    {
        let script: bool = match stage {
            ExportStage::Encoding { script } => script,
            _ => false,
        };
        proof {
            reveal_strlit("");
        }
        match event {
            ExportEvent::Start => {
                if self.inputs.is_empty() {
                    return end_with("プレイリストが空です", "", false);
                }
                if !self.burn_subtitles {
                    return encode_after(None, false);
                }
                let items = parse_srt_to_items(self.subtitles_srt.as_str());
                assert(self.cues().len() == items@.len());
                if items.is_empty() {
                    return encode_after(
                        Some("字幕が空 or 解析できません（字幕なしで書き出します）"),
                        false,
                    );
                }
                let ass = build_ass_script(self.frame_size, &items);
                let r = ExportStep {
                    stage: ExportStage::WritingScript,
                    messages: Vec::new(),
                    command: ExportCommand::WriteScript(ass),
                };
                assert(texts(r.messages@) =~= seq![]);
                assert(r@ == self.next(stage, event));
                r
            },
            ExportEvent::ScriptWritten => encode_after(None, true),
            ExportEvent::ScriptFailed => encode_after(
                Some("字幕ファイル生成に失敗（字幕なしで書き出します）"),
                false,
            ),
            ExportEvent::Encoded(path) => end_with("出力成功: ", path.as_str(), script),
            ExportEvent::EncoderFailed(status, stderr) => {
                let mut message = "出力失敗: status=".to_string();
                message.append(status.as_str());
                message.append(" stderr=");
                message.append(stderr.as_str());
                end_with(message.as_str(), "", script)
            },
            ExportEvent::EncoderMissing(error) => end_with(
                "ffmpeg起動失敗: ",
                error.as_str(),
                script,
            ),
        }
    }
}

/// The step that ends an export with a message in two parts.
fn end_with(first: &str, second: &str, remove_script: bool) -> (r: ExportStep)
    ensures
        r@ == ended(first@ + second@, remove_script),
        second@.len() == 0 ==> r@ == ended(first@, remove_script),
{
    let mut message = first.to_string();
    message.append(second);
    let mut messages: Vec<String> = Vec::new();
    messages.push(message);
    proof {
        assert(texts(messages@) =~= seq![first@ + second@]);
        if second@.len() == 0 {
            assert(first@ + second@ =~= first@);
        }
    }
    ExportStep {
        stage: ExportStage::Finished,
        messages,
        command: ExportCommand::Stop { remove_script },
    }
}

/// The step that starts the encoder, after a message if there is one.
fn encode_after(notice: Option<&str>, subtitles: bool) -> (r: ExportStep)
    ensures
        r@ == encoding(
            match notice {
                Some(message) => seq![message@],
                None => seq![],
            },
            subtitles,
        ),
{
    let mut messages: Vec<String> = Vec::new();
    if let Some(message) = notice {
        messages.push(message.to_string());
    }
    messages.push("ffmpeg concat で書き出し中...".to_string());
    let r = ExportStep {
        stage: ExportStage::Encoding { script: subtitles },
        messages,
        command: ExportCommand::Encode { subtitles },
    };
    assert(texts(r.messages@) =~= (match notice {
        Some(message) => seq![message@],
        None => seq![],
    }).push("ffmpeg concat で書き出し中..."@));
    r
}

// ---------------------------------------------------------------------------
// Laws
// ---------------------------------------------------------------------------
/// What a quoted value of a filter graph stands for: a backslash stands for the character
/// behind it.
pub open spec fn unescaped(s: Seq<char>) -> Seq<char>
    decreases s.len(),
{
    if s.len() == 0 {
        s
    } else if s[0] == '\\' && s.len() >= 2 {
        seq![s[1]] + unescaped(s.skip(2))
    } else {
        seq![s[0]] + unescaped(s.skip(1))
    }
}

/// A path with slashes in place of backslashes.
pub open spec fn with_slashes(path: Seq<char>) -> Seq<char> {
    path.map_values(
        |c: char|
            if c == '\\' {
                '/'
            } else {
                c
            },
    )
}

/// An escaped path stands for the path itself, with slashes in place of backslashes.
pub proof fn law_escaped_path_reads_back(path: Seq<char>)
    ensures
        unescaped(filter_text(path)) == with_slashes(path),
    decreases path.len(),
{
    if path.len() > 0 {
        let rest = path.skip(1);
        let c = path[0];
        law_escaped_path_reads_back(rest);
        lemma_filter_text_front(path);
        let head = filter_char(c);
        let all = filter_text(path);
        assert(all.skip(head.len() as int) =~= filter_text(rest));
        assert(with_slashes(path) =~= seq![
            if c == '\\' {
                '/'
            } else {
                c
            },
        ] + with_slashes(rest));
        assert(all[0] == head[0]);
        if head.len() == 2 {
            assert(all[1] == head[1]);
        }
    }
}

proof fn lemma_filter_text_front(path: Seq<char>)
    requires
        path.len() > 0,
    ensures
        filter_text(path) == filter_char(path[0]) + filter_text(path.skip(1)),
    decreases path.len(),
{
    if path.len() == 1 {
        assert(path.drop_last() =~= Seq::empty());
        assert(path.skip(1) =~= Seq::empty());
        assert(filter_text(Seq::<char>::empty()) =~= Seq::empty());
        assert(filter_text(path) =~= filter_char(path[0]));
    } else {
        lemma_filter_text_front(path.drop_last());
        assert(path.drop_last().skip(1) =~= path.skip(1).drop_last());
        assert(filter_text(path) =~= filter_char(path[0]) + (filter_text(path.skip(1).drop_last())
            + filter_char(path.last())));
    }
}

/// Each input is named once, in order, behind a `-i`.
pub proof fn law_inputs_are_named_in_order(inputs: Seq<Seq<char>>, i: int)
    requires
        0 <= i < inputs.len(),
    ensures
        input_args(inputs).len() == 2 * inputs.len(),
        input_args(inputs)[2 * i] == "-i"@,
        input_args(inputs)[2 * i + 1] == inputs[i],
    decreases inputs.len(),
{
    let rest = inputs.drop_last();
    if rest.len() > 0 {
        law_inputs_are_named_in_order(rest, 0);
        if i < rest.len() {
            law_inputs_are_named_in_order(rest, i);
            assert(rest[i] == inputs[i]);
        }
    } else {
        assert(input_args(rest) =~= Seq::empty());
    }
}

/// The pad of an audio stream ends at position `i` of a graph.
pub open spec fn audio_pad_ends_at(graph: Seq<char>, i: int) -> bool {
    2 <= i < graph.len() && graph[i - 2] == ':' && graph[i - 1] == 'a' && graph[i] == ']'
}

/// Without audio, no pad of an audio stream stands in the graph.
pub proof fn law_no_audio_unless_asked_for(n: nat, i: int)
    ensures
        !audio_pad_ends_at(concat_graph(n, false), i),
{
    lemma_video_pads_plain(n);
    crate::text::lemma_decimal(n);
    reveal_strlit("concat=n=");
    reveal_strlit(":v=1:a=0[outv]");
    let pads = video_pads(n);
    let digits = crate::text::decimal(n);
    let graph = concat_graph(n, false);
    let (a, b) = (pads.len() as int, pads.len() + 9 + digits.len());
    if audio_pad_ends_at(graph, i) {
        let k = i - 1;
        if k < a {
            assert(graph[k] == pads[k]);
        } else if k < a + 9 {
            assert(graph[k] == "concat=n="@[k - a]);
            assert(graph[i - 2] == (if i - 2 < a {
                pads[i - 2]
            } else {
                "concat=n="@[i - 2 - a]
            }));
        } else if k < b {
            assert(graph[k] == digits[k - a - 9]);
            assert(crate::text::is_digit(digits[k - a - 9]));
        } else {
            assert(graph[k] == ":v=1:a=0[outv]"@[k - b]);
            assert(graph[i] == ":v=1:a=0[outv]"@[i - b]);
        }
    }
}

/// The pads of the videos hold no letter but `v`.
proof fn lemma_video_pads_plain(n: nat)
    ensures
        forall|i: int| 0 <= i < video_pads(n).len() ==> #[trigger] video_pads(n)[i] != 'a',
    decreases n,
{
    if n > 0 {
        let before = video_pads((n - 1) as nat);
        let digits = crate::text::decimal((n - 1) as nat);
        lemma_video_pads_plain((n - 1) as nat);
        crate::text::lemma_decimal((n - 1) as nat);
        reveal_strlit("[");
        reveal_strlit(":v]");
        assert forall|i: int| 0 <= i < video_pads(n).len() implies #[trigger] video_pads(n)[i]
            != 'a' by {
            let k = i - before.len();
            if k < 0 {
                assert(video_pads(n)[i] == before[i]);
            } else if 1 <= k < 1 + digits.len() {
                assert(video_pads(n)[i] == digits[k - 1]);
                assert(crate::text::is_digit(digits[k - 1]));
            }
        }
    }
}

/// How many steps an export can still take.
pub open spec fn steps_left(stage: ExportStage) -> nat {
    match stage {
        ExportStage::Starting => 3,
        ExportStage::WritingScript => 2,
        ExportStage::Encoding { .. } => 1,
        ExportStage::Finished => 0,
    }
}

/// Every step of an export brings it closer to its end, and nothing happens after that.
pub proof fn law_export_ends(job: ExportJob, stage: ExportStage, event: ExportEvent)
    requires
        can_happen(stage, event),
    ensures
        steps_left(job.next(stage, event).stage) < steps_left(stage),
{
}

/// The message of a successful export, and that of an empty playlist, are last messages.
pub proof fn law_completion_is_a_last_message(
    job: ExportJob,
    stage: ExportStage,
    event: ExportEvent,
)
    requires
        event is Encoded || (event is Start && job.inputs@.len() == 0),
    ensures
        job.next(stage, event).messages.len() == 1,
        crate::editor::is_last_message(job.next(stage, event).messages[0]),
{
    let message = job.next(stage, event).messages[0];
    if let ExportEvent::Encoded(path) = event {
        assert(message.take("出力成功: "@.len() as int) =~= "出力成功: "@);
    } else {
        assert(message.take(message.len() as int) =~= message);
    }
}

/// After a last message the export is over.
pub proof fn law_last_message_ends_the_export(
    job: ExportJob,
    stage: ExportStage,
    event: ExportEvent,
    i: int,
)
    requires
        0 <= i < job.next(stage, event).messages.len(),
        crate::editor::is_last_message(job.next(stage, event).messages[i]),
    ensures
        job.next(stage, event).stage == ExportStage::Finished,
        i == job.next(stage, event).messages.len() - 1,
{
    let message = job.next(stage, event).messages[i];
    reveal_strlit("Export succeeded");
    reveal_strlit("No frames to export");
    reveal_strlit("出力成功: ");
    reveal_strlit("プレイリストが空です");
    reveal_strlit("字幕が空 or 解析できません（字幕なしで書き出します）");
    reveal_strlit("字幕ファイル生成に失敗（字幕なしで書き出します）");
    reveal_strlit("ffmpeg concat で書き出し中...");
    crate::text::lemma_first_of_prefix(message, "Export succeeded"@);
    crate::text::lemma_first_of_prefix(message, "No frames to export"@);
    crate::text::lemma_first_of_prefix(message, "出力成功: "@);
    crate::text::lemma_first_of_prefix(message, "プレイリストが空です"@);
    assert(message[0] == 'E' || message[0] == 'N' || message[0] == '出' || message[0] == 'プ');
}

/// What is to be done is what the new stage waits for.
pub proof fn law_command_fits_stage(job: ExportJob, stage: ExportStage, event: ExportEvent)
    ensures
        job.next(stage, event).command is WriteScript <==> job.next(stage, event).stage
            == ExportStage::WritingScript,
        forall|subtitles: bool|
            job.next(stage, event).command == (CommandView::Encode { subtitles }) <==> #[trigger]
            is_encoding(job.next(stage, event).stage, subtitles),
        job.next(stage, event).command is Stop <==> job.next(stage, event).stage
            == ExportStage::Finished,
{
}

/// The encoder is running, with a script or without.
pub open spec fn is_encoding(stage: ExportStage, script: bool) -> bool {
    stage == (ExportStage::Encoding { script })
}

/// The encoder is given a script only if one has been written, and a script that was
/// written is removed at the end.
pub proof fn law_script_is_used_and_removed(
    job: ExportJob,
    stage: ExportStage,
    event: ExportEvent,
)
    requires
        can_happen(stage, event),
    ensures
        is_encoding(job.next(stage, event).stage, true) <==> event is ScriptWritten,
        job.next(stage, event).command == (CommandView::Stop { remove_script: true })
            <==> is_encoding(stage, true),
{
}

/// Each character of a path is escaped by itself: a backslash becomes a slash, a colon or a
/// quote gets a backslash before it, and any other character stays as it is.
pub proof fn law_path_characters_are_escaped_one_by_one(a: Seq<char>, c: char, b: Seq<char>)
    ensures
        filter_text(Seq::empty()) == Seq::<char>::empty(),
        filter_text(a + b) == filter_text(a) + filter_text(b),
        filter_text(seq!['\\']) == seq!['/'],
        filter_text(seq![':']) == seq!['\\', ':'],
        filter_text(seq!['"']) == seq!['\\', '"'],
        filter_text(seq!['\'']) == seq!['\\', '\''],
        c != '\\' && c != ':' && c != '"' && c != '\'' ==> filter_text(seq![c]) == seq![c],
    decreases b.len(),
{
    lemma_filter_single('\\');
    lemma_filter_single(':');
    lemma_filter_single('"');
    lemma_filter_single('\'');
    lemma_filter_single(c);
    if b.len() > 0 {
        law_path_characters_are_escaped_one_by_one(a, c, b.drop_last());
        assert((a + b).drop_last() =~= a + b.drop_last());
        assert(filter_text(a + b) =~= filter_text(a) + filter_text(b));
    } else {
        assert(a + b =~= a);
        assert(filter_text(a) + filter_text(b) =~= filter_text(a));
    }
}

proof fn lemma_filter_single(c: char)
    ensures
        filter_text(seq![c]) == filter_char(c),
{
    assert(seq![c].drop_last() =~= Seq::<char>::empty());
    assert(filter_text(Seq::<char>::empty()) =~= Seq::<char>::empty());
    assert(filter_text(seq![c]) =~= filter_char(c));
}

/// The graph names the streams of each input, in order and once: its video and its audio, or
/// its video alone; then how many inputs there are, and the labels of what comes out.
pub proof fn law_graph_names_each_input(n: nat)
    ensures
        concat_graph(n, true) == Seq::new(
            n,
            |i: int|
                "["@ + crate::text::decimal(i as nat) + ":v]["@ + crate::text::decimal(i as nat)
                    + ":a]"@,
        ).flatten() + "concat=n="@ + crate::text::decimal(n) + ":v=1:a=1[outv][outa]"@,
        concat_graph(n, false) == Seq::new(
            n,
            |i: int| "["@ + crate::text::decimal(i as nat) + ":v]"@,
        ).flatten() + "concat=n="@ + crate::text::decimal(n) + ":v=1:a=0[outv]"@,
{
    lemma_pads(n);
}

proof fn lemma_pads(n: nat)
    ensures
        video_and_audio_pads(n) == Seq::new(
            n,
            |i: int|
                "["@ + crate::text::decimal(i as nat) + ":v]["@ + crate::text::decimal(i as nat)
                    + ":a]"@,
        ).flatten(),
        video_pads(n) == Seq::new(
            n,
            |i: int| "["@ + crate::text::decimal(i as nat) + ":v]"@,
        ).flatten(),
    decreases n,
{
    let both = |i: int|
        "["@ + crate::text::decimal(i as nat) + ":v]["@ + crate::text::decimal(i as nat) + ":a]"@;
    let one = |i: int| "["@ + crate::text::decimal(i as nat) + ":v]"@;
    if n > 0 {
        let m = (n - 1) as nat;
        lemma_pads(m);
        assert(Seq::new(n, both) =~= Seq::new(m, both).push(both(m as int)));
        assert(Seq::new(n, one) =~= Seq::new(m, one).push(one(m as int)));
        Seq::new(m, both).lemma_flatten_push(both(m as int));
        Seq::new(m, one).lemma_flatten_push(one(m as int));
        assert(video_and_audio_pads(n) =~= video_and_audio_pads(m) + both(m as int));
        assert(video_pads(n) =~= video_pads(m) + one(m as int));
    } else {
        assert(Seq::new(n, both) =~= Seq::empty());
        assert(Seq::new(n, one) =~= Seq::empty());
    }
}

/// The command line, argument by argument: the inputs, the filter graph, with the subtitles
/// filter behind it if there are subtitles, what is written of it, the codecs, and the output.
pub proof fn law_command_line(
    inputs: Seq<Seq<char>>,
    audio: bool,
    subtitles: Option<(Seq<char>, Seq<char>)>,
    output: Seq<char>,
    i: int,
)
    ensures
        ({
            let args = encoder_args(inputs, audio, subtitles, output);
            let k = 1 + 2 * inputs.len() as int;
            let joined = concat_graph(inputs.len(), audio);
            &&& args.len() == k + (if audio {
                11int
            } else {
                7
            })
            &&& args[0] == "-y"@
            &&& 0 <= i < inputs.len() ==> args[2 * i + 1] == "-i"@ && args[2 * i + 2] == inputs[i]
            &&& args[k] == "-filter_complex"@
            &&& subtitles is None ==> args[k + 1] == joined
            &&& subtitles is Some ==> args[k + 1] == joined + (";[outv]subtitles='"@ + filter_text(
                (subtitles->0).0,
            ) + "':fontsdir='"@ + filter_text((subtitles->0).1) + "'[vsub]"@)
            &&& args[k + 2] == "-map"@
            &&& subtitles is None ==> args[k + 3] == "[outv]"@
            &&& subtitles is Some ==> args[k + 3] == "[vsub]"@
            &&& audio ==> args[k + 4] == "-map"@ && args[k + 5] == "[outa]"@
            &&& args[args.len() - (if audio {
                5int
            } else {
                3
            })] == "-c:v"@
            &&& args[args.len() - (if audio {
                4int
            } else {
                2
            })] == "libx264"@
            &&& audio ==> args[k + 8] == "-c:a"@ && args[k + 9] == "aac"@
            &&& args.last() == output
        }),
{
    let args = encoder_args(inputs, audio, subtitles, output);
    let front = input_args(inputs);
    assert(front.len() == 2 * inputs.len()) by {
        if inputs.len() > 0 {
            law_inputs_are_named_in_order(inputs, 0);
        }
    }
    if 0 <= i < inputs.len() {
        law_inputs_are_named_in_order(inputs, i);
        assert(args[2 * i + 1] == front[2 * i]);
        assert(args[2 * i + 2] == front[2 * i + 1]);
    }
}

/// An output of the filter graph is written to the file, by an argument from `from` on.
pub open spec fn is_mapped(args: Seq<Seq<char>>, from: int, label: Seq<char>) -> bool {
    exists|i: int| from <= i < args.len() - 1 && #[trigger] args[i] == "-map"@ && args[i + 1] == label
}

/// Every output of the graph that no filter takes is written, once, and no other: with
/// subtitles the video that the subtitles filter gives, with audio or without, and otherwise
/// the joined video; and the joined audio if it was asked for. The graph ends with the
/// label of the video, or with that and the label of the audio.
pub proof fn law_open_outputs_are_mapped(
    inputs: Seq<Seq<char>>,
    audio: bool,
    subtitles: Option<(Seq<char>, Seq<char>)>,
    output: Seq<char>,
)
    ensures
        ({
            let args = encoder_args(inputs, audio, subtitles, output);
            let k = 1 + 2 * inputs.len() as int;
            let graph = args[k + 1];
            let video = args[k + 3];
            &&& is_mapped(args, k + 2, "[vsub]"@) <==> subtitles is Some
            &&& is_mapped(args, k + 2, "[outv]"@) <==> subtitles is None
            &&& is_mapped(args, k + 2, "[outa]"@) <==> audio
            &&& forall|i: int, j: int|
                k + 2 <= i < args.len() - 1 && k + 2 <= j < args.len() - 1 && #[trigger] args[i]
                    == "-map"@ && #[trigger] args[j] == "-map"@ && args[i + 1] == args[j + 1]
                    ==> i == j
            &&& subtitles is Some || !audio ==> graph.skip(graph.len() - video.len()) == video
            &&& subtitles is None && audio ==> graph.skip(
                graph.len() - video.len() - args[k + 5].len(),
            ) == video + args[k + 5]
        }),
{
    law_command_line(inputs, audio, subtitles, output, 0);
    let args = encoder_args(inputs, audio, subtitles, output);
    let k = 1 + 2 * inputs.len() as int;
    let graph = args[k + 1];
    let video = args[k + 3];
    reveal_strlit("-map");
    reveal_strlit("-c:v");
    reveal_strlit("-c:a");
    reveal_strlit("libx264");
    reveal_strlit("aac");
    reveal_strlit("[vsub]");
    reveal_strlit("[outv]");
    reveal_strlit("[outa]");
    reveal_strlit("'[vsub]");
    reveal_strlit(":v=1:a=0[outv]");
    reveal_strlit(":v=1:a=1[outv][outa]");
    assert("[vsub]"@[1] == 'v' && "[outv]"@[1] == 'o' && "[outa]"@[4] == 'a' && "[outv]"@[4] == 'v');
    assert("-map"@[1] == 'm' && "-c:v"@[1] == 'c' && "-c:a"@[1] == 'c');
    assert("libx264"@.len() == 7 && "aac"@.len() == 3 && "-map"@.len() == 4);
    assert("[outv]"@ != "[outa]"@ && "[vsub]"@ != "[outa]"@ && "[vsub]"@ != "[outv]"@);
    assert(args[k + 2] == "-map"@ && args[k + 2 + 1] == video);
    if audio {
        assert(args[k + 4] == "-map"@ && args[k + 4 + 1] == "[outa]"@);
    }
    assert forall|i: int| k + 2 <= i < args.len() - 1 && #[trigger] args[i] == "-map"@ implies i == k
        + 2 || (audio && i == k + 4) by {
        if i == k + 3 {
            assert(video.len() == 6);
        }
        if audio && i == k + 5 {
            assert(args[k + 5].len() == 6);
        }
    }
    if subtitles is Some {
        assert(graph.skip(graph.len() - 6) =~= "[vsub]"@);
    } else if !audio {
        assert(graph.skip(graph.len() - 6) =~= "[outv]"@);
    } else {
        assert(graph.skip(graph.len() - 12) =~= "[outv]"@ + "[outa]"@);
    }
}

/// The course of an export. Without videos it ends at once. Without subtitles that are wanted
/// and can be read, the videos are encoded as they are; otherwise a script of the subtitles is
/// written first, and used if that succeeds. When the encoder is done, the export ends with a
/// message about it, and a script that was used is removed.
pub proof fn law_course_of_an_export(
    job: ExportJob,
    stage: ExportStage,
    script: bool,
    path: String,
    status: String,
)
    ensures
        ({
            let began = job.next(stage, ExportEvent::Start);
            let cues = crate::subtitle::srt_cues(job.subtitles_srt@);
            &&& job.inputs@.len() == 0 ==> {
                &&& began.stage == ExportStage::Finished
                &&& began.messages == seq!["プレイリストが空です"@]
                &&& began.command == (CommandView::Stop { remove_script: false })
            }
            &&& job.inputs@.len() > 0 && !(job.burn_subtitles && cues.len() > 0) ==> {
                &&& began.stage == (ExportStage::Encoding { script: false })
                &&& job.burn_subtitles ==> began.messages == seq![
                    "字幕が空 or 解析できません（字幕なしで書き出します）"@,
                    "ffmpeg concat で書き出し中..."@,
                ]
                &&& !job.burn_subtitles ==> began.messages == seq![
                    "ffmpeg concat で書き出し中..."@,
                ]
                &&& began.command == (CommandView::Encode { subtitles: false })
            }
            &&& job.inputs@.len() > 0 && job.burn_subtitles && cues.len() > 0 ==> {
                &&& began.stage == ExportStage::WritingScript
                &&& began.messages.len() == 0
                &&& began.command == CommandView::WriteScript(
                    crate::ass::ass_script(
                        job.frame_size.0 as nat,
                        job.frame_size.1 as nat,
                        cues,
                    ),
                )
            }
        }),
        ({
            let written = job.next(stage, ExportEvent::ScriptWritten);
            &&& written.stage == (ExportStage::Encoding { script: true })
            &&& written.messages == seq!["ffmpeg concat で書き出し中..."@]
            &&& written.command == (CommandView::Encode { subtitles: true })
        }),
        ({
            let failed = job.next(stage, ExportEvent::ScriptFailed);
            &&& failed.stage == (ExportStage::Encoding { script: false })
            &&& failed.messages == seq![
                "字幕ファイル生成に失敗（字幕なしで書き出します）"@,
                "ffmpeg concat で書き出し中..."@,
            ]
            &&& failed.command == (CommandView::Encode { subtitles: false })
        }),
        job.next(ExportStage::Encoding { script }, ExportEvent::Encoded(path)) == (StepView {
            stage: ExportStage::Finished,
            messages: seq!["出力成功: "@ + path@],
            command: CommandView::Stop { remove_script: script },
        }),
        job.next(ExportStage::Encoding { script }, ExportEvent::EncoderFailed(status, path)) == (
        StepView {
            stage: ExportStage::Finished,
            messages: seq!["出力失敗: status="@ + status@ + " stderr="@ + path@],
            command: CommandView::Stop { remove_script: script },
        }),
        job.next(ExportStage::Encoding { script }, ExportEvent::EncoderMissing(path)) == (StepView {
            stage: ExportStage::Finished,
            messages: seq!["ffmpeg起動失敗: "@ + path@],
            command: CommandView::Stop { remove_script: script },
        }),
{
    let last = "ffmpeg concat で書き出し中..."@;
    let none = "字幕が空 or 解析できません（字幕なしで書き出します）"@;
    let failed = "字幕ファイル生成に失敗（字幕なしで書き出します）"@;
    assert(Seq::<Seq<char>>::empty().push(last) =~= seq![last]);
    assert(seq![none].push(last) =~= seq![none, last]);
    assert(seq![failed].push(last) =~= seq![failed, last]);
}

/// An export can begin at the start; a script can be written, or not, while it is being
/// written; and the encoder can end while it is running.
pub proof fn law_what_can_happen(script: bool, text: String, other: String)
    ensures
        can_happen(ExportStage::Starting, ExportEvent::Start),
        can_happen(ExportStage::WritingScript, ExportEvent::ScriptWritten),
        can_happen(ExportStage::WritingScript, ExportEvent::ScriptFailed),
        can_happen(ExportStage::Encoding { script }, ExportEvent::Encoded(text)),
        can_happen(ExportStage::Encoding { script }, ExportEvent::EncoderFailed(text, other)),
        can_happen(ExportStage::Encoding { script }, ExportEvent::EncoderMissing(text)),
{
}

/// Times matter to an export only if there are videos and subtitles are wanted.
pub proof fn law_when_times_matter(job: ExportJob)
    ensures
        job.has_bad_times() <==> job.inputs@.len() > 0 && job.burn_subtitles
            && !crate::subtitle::times_fit(job.subtitles_srt@),
{
}

/// The texts of strings and the paths of clips are those of each, in order.
pub proof fn law_texts_and_paths(strings: Seq<String>, editor: VideoEditorApp, i: int)
    ensures
        texts(strings).len() == strings.len(),
        0 <= i < strings.len() ==> texts(strings)[i] == strings[i]@,
        editor.clip_paths().len() == editor.playlist@.len(),
        0 <= i < editor.playlist@.len() ==> editor.clip_paths()[i] == editor.playlist@[i].path@,
{
}

/// The value of a step is what it holds: its stage, its messages and its command.
pub proof fn law_value_of_a_step(step: ExportStep, i: int)
    ensures
        step@.stage == step.stage,
        step@.messages.len() == step.messages@.len(),
        0 <= i < step.messages@.len() ==> step@.messages[i] == step.messages@[i]@,
        match step.command {
            ExportCommand::WriteScript(script) => step@.command == CommandView::WriteScript(
                script@,
            ),
            ExportCommand::Encode { subtitles } => step@.command == (CommandView::Encode {
                subtitles,
            }),
            ExportCommand::Stop { remove_script } => step@.command == (CommandView::Stop {
                remove_script,
            }),
        },
{
}

} // verus!
