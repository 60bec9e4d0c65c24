//! The state of the editor: the playlist, its timeline, and the play position.

use crate::frame::FrameRate;
use crate::frame::VideoClip;
use crate::text::starts_with;
use vstd::prelude::*;

verus! {

/// A clip of the playlist.
pub struct ClipEntry {
    pub id: usize,
    pub path: String,
    pub size: (u32, u32),
    pub fps: FrameRate,
    pub frames: Vec<Vec<u8>>,
    /// Red, green, blue and alpha of the clip's bar on the timeline.
    pub color: [u8; 4],
}

/// The state of the editor.
///
/// The timeline shows the clips of the playlist one after the other; its frames are
/// numbered from zero.
pub struct VideoEditorApp {
    pub video_path_input: String,
    pub playing: bool,
    pub playlist: Vec<ClipEntry>,
    /// For each clip, the number of its first frame on the timeline.
    pub clip_offsets: Vec<usize>,
    pub total_frames: usize,
    /// The play position, as a frame of the timeline.
    pub global_frame: usize,
    /// The selected clip.
    pub current_clip_idx: usize,
    pub timeline_dirty: bool,
    pub output_path: String,
    pub export_status: Option<String>,
    /// An export may still report its progress.
    pub export_open: bool,
    pub load_status: Option<String>,
    pub include_audio: bool,
    pub audio_offset_frames: usize,
    pub burn_subtitles: bool,
    pub subtitles_srt: String,
}

// ---------------------------------------------------------------------------
// The timeline
// ---------------------------------------------------------------------------
/// The number of frames of the first `n` clips, which is where the next one starts.
pub open spec fn frames_before(playlist: Seq<ClipEntry>, n: int) -> nat
    decreases n,
{
    if n <= 0 {
        0
    } else {
        frames_before(playlist, n - 1) + playlist[n - 1].frames@.len()
    }
}

/// The number of frames of all clips.
pub open spec fn all_frames(playlist: Seq<ClipEntry>) -> nat {
    frames_before(playlist, playlist.len() as int)
}

/// The last frame of a timeline of `total` frames; zero if there is none.
pub open spec fn last_frame(total: nat) -> nat {
    if total == 0 {
        0
    } else {
        (total - 1) as nat
    }
}

/// The lesser of two numbers.
pub open spec fn lesser(a: nat, b: nat) -> nat {
    if a <= b {
        a
    } else {
        b
    }
}

/// Frame `g` of the timeline is frame `local` of clip `i`.
///
/// Past the last frame the count goes on in the last clip. A clip without frames stands at
/// the first frame of the next clip, and either of the two may be found there.
pub open spec fn locates(playlist: Seq<ClipEntry>, g: nat, i: int, local: nat) -> bool {
    &&& 0 <= i < playlist.len()
    &&& frames_before(playlist, i) + local == g
    &&& local > 0 ==> (i + 1 == playlist.len() || g < frames_before(playlist, i + 1))
}

impl VideoEditorApp {
    /// The offsets and the total are those of the playlist.
    pub open spec fn indexed(self) -> bool {
        &&& self.clip_offsets@.len() == self.playlist@.len()
        &&& forall|i: int|
            0 <= i < self.playlist@.len() ==> #[trigger] self.clip_offsets@[i] == frames_before(
                self.playlist@,
                i,
            )
        &&& self.total_frames == all_frames(self.playlist@)
    }

    /// The id of each clip is its place in the playlist.
    pub open spec fn numbered(self) -> bool {
        forall|i: int| 0 <= i < self.playlist@.len() ==> (#[trigger] self.playlist@[i]).id == i
    }

    /// What holds of the editor at all times.
    pub open spec fn wf(self) -> bool {
        &&& self.indexed()
        &&& self.numbered()
        &&& self.global_frame <= self.total_frames
        &&& self.current_clip_idx == 0 || self.current_clip_idx < self.playlist@.len()
    }

    /// `other` differs at most in the playlist, the timeline and the play position.
    pub open spec fn same_but_timeline(self, other: Self) -> bool {
        &&& self.video_path_input == other.video_path_input
        &&& self.playing == other.playing
        &&& self.output_path == other.output_path
        &&& self.export_status == other.export_status
        &&& self.export_open == other.export_open
        &&& self.load_status == other.load_status
        &&& self.include_audio == other.include_audio
        &&& self.audio_offset_frames == other.audio_offset_frames
        &&& self.burn_subtitles == other.burn_subtitles
        &&& self.subtitles_srt == other.subtitles_srt
    }

    /// Computes the offsets and the total anew, and keeps the play position on the timeline.
    pub fn rebuild_offsets(&mut self)
        requires
            all_frames(old(self).playlist@) <= usize::MAX,
        ensures
            final(self).indexed(),
            final(self).playlist == old(self).playlist,
            final(self).global_frame == lesser(
                old(self).global_frame as nat,
                last_frame(final(self).total_frames as nat),
            ),
            old(self).global_frame < final(self).total_frames ==> final(self).global_frame
                == old(self).global_frame,
            old(self).global_frame >= final(self).total_frames > 0 ==> final(self).global_frame
                == final(self).total_frames - 1,
            final(self).total_frames == 0 ==> final(self).global_frame == 0,
            *final(self) == (VideoEditorApp {
                clip_offsets: final(self).clip_offsets,
                total_frames: final(self).total_frames,
                global_frame: final(self).global_frame,
                ..*old(self)
            }),
            final(self).current_clip_idx == old(self).current_clip_idx,
            final(self).timeline_dirty == old(self).timeline_dirty,
            final(self).same_but_timeline(*old(self)),
    {
        self.clip_offsets.clear();
        let mut acc: usize = 0;
        let count: usize = self.playlist.len();
        for i in 0..count
            invariant
                count == self.playlist@.len(),
                all_frames(self.playlist@) <= usize::MAX,
                self.playlist == old(self).playlist,
                self.global_frame == old(self).global_frame,
                self.current_clip_idx == old(self).current_clip_idx,
                self.timeline_dirty == old(self).timeline_dirty,
                self.same_but_timeline(*old(self)),
                acc == frames_before(self.playlist@, i as int),
                self.clip_offsets@.len() == i,
                forall|j: int|
                    0 <= j < i ==> #[trigger] self.clip_offsets@[j] == frames_before(
                        self.playlist@,
                        j,
                    ),
        {
            proof {
                lemma_frames_before_monotonic(
                    self.playlist@,
                    i + 1,
                    self.playlist@.len() as int,
                );
            }
            self.clip_offsets.push(acc);
            acc = acc + self.playlist[i].frames.len();
        }
        self.total_frames = acc;
        let last: usize = self.total_frames.saturating_sub(1);
        if self.global_frame > last {
            self.global_frame = last;
        }
    }
}

/// Clips further back start later.
pub proof fn lemma_frames_before_monotonic(playlist: Seq<ClipEntry>, i: int, j: int)
    requires
        0 <= i <= j,
    ensures
        frames_before(playlist, i) <= frames_before(playlist, j),
    decreases j - i,
{
    if i < j {
        lemma_frames_before_monotonic(playlist, i, j - 1);
    }
}

/// The result of the slice method `binary_search` on a sorted list.
pub uninterp spec fn search_result(sorted: Seq<usize>, value: usize) -> Result<usize, usize>;

/// The slice method `binary_search`, on a sorted list: where it finds the value, it returns a
/// position that holds it, and otherwise the one position where it could be inserted with
/// the list still sorted. Which of several positions that hold it is returned depends on
/// nothing but the list and the value; which one it is, is not said.
#[verifier::external_body]
fn search_sorted(sorted: &Vec<usize>, value: usize) -> (r: Result<usize, usize>)
    requires
        forall|i: int, j: int| 0 <= i <= j < sorted@.len() ==> sorted@[i] <= sorted@[j],
    ensures
        r == search_result(sorted@, value),
        match r {
            Ok(at) => at < sorted@.len() && sorted@[at as int] == value,
            Err(at) => {
                &&& at <= sorted@.len()
                &&& forall|i: int| 0 <= i < at ==> sorted@[i] < value
                &&& forall|i: int| at <= i < sorted@.len() ==> sorted@[i] > value
            },
        },
{
    sorted.binary_search(&value)
}

impl VideoEditorApp {
    /// The place of frame `g` of the timeline: a clip, and the number of the frame in it. A
    /// search in the offsets either meets the start of a clip or ends behind the start of
    /// the clip that holds the frame.
    pub open spec fn place(self, g: usize) -> Option<(usize, usize)> {
        if self.playlist@.len() == 0 {
            None
        } else {
            match search_result(self.clip_offsets@, g) {
                Ok(at) => Some((at, 0usize)),
                Err(at) => Some(
                    ((at - 1) as usize, (g - self.clip_offsets@[at - 1]) as usize),
                ),
            }
        }
    }

    /// If there are clips, the place of frame `g` is one where that frame is.
    pub open spec fn well_placed(self, g: usize) -> bool {
        self.playlist@.len() > 0 ==> {
            &&& self.place(g) matches Some((i, local))
            &&& locates(self.playlist@, g as nat, i as int, local as nat)
        }
    }

    /// The clip of a frame of the timeline, and the frame's number in that clip.
    pub fn map_global(&self, g: usize) -> (r: Option<(usize, usize)>)
        requires
            self.indexed(),
        ensures
            r == self.place(g),
            r is None <==> self.playlist@.len() == 0,
            r matches Some((i, local)) ==> locates(self.playlist@, g as nat, i as int, local as nat),
            r matches Some((i, local)) ==> {
                &&& i < self.playlist@.len()
                &&& self.clip_offsets@[i as int] + local == g
                &&& g < self.total_frames && local > 0 ==> local
                    < self.playlist@[i as int].frames@.len()
            },
    {
        if self.playlist.is_empty() || self.clip_offsets.is_empty() {
            return None;
        }
        proof {
            assert forall|i: int, j: int| 0 <= i <= j < self.clip_offsets@.len() implies
                self.clip_offsets@[i] <= self.clip_offsets@[j] by {
                lemma_frames_before_monotonic(self.playlist@, i, j);
            }
            assert(self.clip_offsets@[0] == 0);
        }
        match search_sorted(&self.clip_offsets, g) {
            Ok(idx) => Some((idx, 0)),
            Err(pos) => {
                if pos == 0 {
                    return None;
                }
                let clip_idx: usize = pos - 1;
                let local: usize = g - self.clip_offsets[clip_idx];
                proof {
                    if clip_idx + 1 < self.playlist@.len() {
                        assert(self.clip_offsets@[clip_idx + 1] == frames_before(
                            self.playlist@,
                            clip_idx + 1,
                        ));
                    }
                }
                Some((clip_idx, local))
            },
        }
    }

    /// The clip at the play position.
    pub fn current_clip(&self) -> (r: Option<&ClipEntry>)
        requires
            self.indexed(),
        ensures
            self.well_placed(self.global_frame),
            match self.place(self.global_frame) {
                Some((i, local)) => r == Some(&self.playlist@[i as int]),
                None => r is None,
            },
    {
        match self.map_global(self.global_frame) {
            Some((ci, _local)) => Some(&self.playlist[ci]),
            None => None,
        }
    }

    /// The clip at the play position, to be changed.
    pub fn current_clip_mut(&mut self) -> (r: Option<&mut ClipEntry>)
        requires
            old(self).indexed(),
        ensures
            old(self).well_placed(old(self).global_frame),
            match old(self).place(old(self).global_frame) {
                Some((i, local)) => {
                    &&& r matches Some(clip)
                    &&& *clip == old(self).playlist@[i as int]
                    &&& final(self).playlist@ == old(self).playlist@.update(
                        i as int,
                        *final(clip),
                    )
                },
                None => r is None && final(self).playlist@ == old(self).playlist@,
            },
            *final(self) == (VideoEditorApp { playlist: final(self).playlist, ..*old(self) }),
            final(self).clip_offsets == old(self).clip_offsets,
            final(self).total_frames == old(self).total_frames,
            final(self).global_frame == old(self).global_frame,
            final(self).current_clip_idx == old(self).current_clip_idx,
            final(self).timeline_dirty == old(self).timeline_dirty,
            final(self).same_but_timeline(*old(self)),
    {
        match self.map_global(self.global_frame) {
            Some((ci, _local)) => Some(&mut self.playlist[ci]),
            None => None,
        }
    }

    /// Moves the play position to the first frame of a clip and selects the clip; does
    /// nothing if there is no such clip.
    pub fn seek_clip_start(&mut self, clip_idx: usize)
        ensures
            clip_idx < old(self).playlist@.len() && clip_idx < old(self).clip_offsets@.len()
                ==> *final(self) == (VideoEditorApp {
                global_frame: old(self).clip_offsets@[clip_idx as int],
                current_clip_idx: clip_idx,
                timeline_dirty: true,
                ..*old(self)
            }),
            !(clip_idx < old(self).playlist@.len() && clip_idx < old(self).clip_offsets@.len())
                ==> *final(self) == *old(self),
            old(self).wf() ==> final(self).wf(),
            old(self).indexed() && old(self).numbered() && clip_idx < old(self).playlist@.len()
                ==> final(self).wf(),
    {
        if clip_idx < self.playlist.len() && clip_idx < self.clip_offsets.len() {
            proof {
                lemma_frames_before_monotonic(
                    self.playlist@,
                    clip_idx as int,
                    self.playlist@.len() as int,
                );
            }
            self.global_frame = self.clip_offsets[clip_idx];
            self.current_clip_idx = clip_idx;
            self.timeline_dirty = true;
        }
    }

    /// The editor after a seek to frame `g` of the timeline: the play position is that frame,
    /// or the last frame if there are not that many, and the clip there is selected. Without
    /// frames nothing changes.
    pub open spec fn sought(self, g: int) -> Self {
        if self.total_frames == 0 {
            self
        } else {
            let to = lesser(g as nat, last_frame(self.total_frames as nat)) as usize;
            let found = self.place(to)->0;
            VideoEditorApp { global_frame: to, current_clip_idx: found.0, ..self }
        }
    }

    /// Moves the play position to a frame of the timeline, or to the last frame if there are
    /// not that many, and selects the clip there; does nothing if there are no frames.
    pub fn seek_global(&mut self, g: usize)
        requires
            old(self).indexed(),
        ensures
            *final(self) == old(self).sought(g as int),
            old(self).total_frames > 0 ==> final(self).well_placed(final(self).global_frame),
            old(self).wf() ==> final(self).wf(),
    {
        if self.total_frames == 0 {
            return ;
        }
        let last: usize = self.total_frames.saturating_sub(1);
        self.global_frame = if g < last {
            g
        } else {
            last
        };
        proof {
            if self.playlist@.len() == 0 {
                assert(all_frames(self.playlist@) == 0);
            }
            assert(self.place(self.global_frame) == old(self).place(self.global_frame));
        }
        if let Some((ci, _local)) = self.map_global(self.global_frame) {
            self.current_clip_idx = ci;
        }
    }
}

// ---------------------------------------------------------------------------
// Cutting
// ---------------------------------------------------------------------------
/// A frame number brought into a clip of `total` frames.
pub open spec fn clamped(frame: int, total: nat) -> nat {
    if frame < 0 {
        0
    } else if frame > total {
        total
    } else {
        frame as nat
    }
}

/// The frames between two marks: from the one that comes first up to the other.
pub open spec fn between(a: nat, b: nat) -> (nat, nat) {
    if a <= b {
        (a, b)
    } else {
        (b, a)
    }
}

/// The frames that a cut takes out of a clip of `total` frames. An end that is not positive
/// is the end of the clip.
pub open spec fn cut_selection(start: int, end: int, total: nat) -> (nat, nat) {
    between(
        clamped(start, total),
        if end <= 0 {
            total
        } else {
            clamped(end, total)
        },
    )
}

/// The frames that an extraction leaves of a clip of `total` frames.
pub open spec fn extract_selection(start: int, end: int, total: nat) -> (nat, nat) {
    between(clamped(start, total), clamped(end, total))
}

/// `frames` without those from `selection.0` up to `selection.1`.
pub open spec fn cut_frames(frames: Seq<Vec<u8>>, selection: (nat, nat)) -> Seq<Vec<u8>> {
    frames.take(selection.0 as int) + frames.skip(selection.1 as int)
}

/// The frames from `selection.0` up to `selection.1`.
pub open spec fn extracted_frames(frames: Seq<Vec<u8>>, selection: (nat, nat)) -> Seq<Vec<u8>> {
    frames.subrange(selection.0 as int, selection.1 as int)
}

/// `b` is the clip `a` with other frames.
pub open spec fn same_but_frames(a: ClipEntry, b: ClipEntry) -> bool {
    a == (ClipEntry { frames: a.frames, ..b })
}

impl VideoEditorApp {
    /// `self` is `before` with other frames in clip `ci`. The clip has been selected, the
    /// play position is its first frame, and the timeline was computed anew.
    pub open spec fn replaced(self, before: Self, ci: int, frames: Seq<Vec<u8>>) -> bool {
        &&& self.indexed()
        &&& self.playlist@.len() == before.playlist@.len()
        &&& forall|i: int|
            0 <= i < before.playlist@.len() && i != ci ==> self.playlist@[i] == before.playlist@[i]
        &&& same_but_frames(before.playlist@[ci], self.playlist@[ci])
        &&& self.playlist@[ci].frames@ == frames
        &&& self.global_frame == before.clip_offsets@[ci]
        &&& self.current_clip_idx == ci
        &&& self.timeline_dirty
        &&& self.same_but_timeline(before)
    }

    /// `self` is `before` after a cut in clip `ci`.
    pub open spec fn cut(self, before: Self, ci: int, start: int, end: int) -> bool {
        let clip = before.playlist@[ci];
        let selection = cut_selection(start, end, clip.frames@.len());
        if clip.fps.positive() && selection.0 < selection.1 {
            self.replaced(before, ci, cut_frames(clip.frames@, selection))
        } else {
            self == before
        }
    }

    /// `self` is `before` after an extraction in clip `ci`.
    pub open spec fn extracted(self, before: Self, ci: int, start: int, end: int) -> bool {
        let clip = before.playlist@[ci];
        let selection = extract_selection(start, end, clip.frames@.len());
        if clip.fps.positive() && selection.0 < selection.1 {
            self.replaced(before, ci, extracted_frames(clip.frames@, selection))
        } else {
            self == before
        }
    }
}

/// Brings a frame number into a clip of `total` frames.
fn clamp_frame(frame: isize, total: usize) -> (r: usize)
    ensures
        r == clamped(frame as int, total as nat),
{
    if frame < 0 {
        0
    } else if frame as usize > total {
        total
    } else {
        frame as usize
    }
}

/// A change of the frames of one clip moves the later clips by the difference.
pub proof fn lemma_frames_before_changed(
    before: Seq<ClipEntry>,
    after: Seq<ClipEntry>,
    ci: int,
    n: int,
)
    requires
        before.len() == after.len(),
        0 <= ci < before.len(),
        0 <= n <= before.len(),
        forall|i: int|
            0 <= i < before.len() && i != ci ==> (#[trigger] after[i]).frames@.len()
                == before[i].frames@.len(),
    ensures
        n <= ci ==> frames_before(after, n) == frames_before(before, n),
        n > ci ==> frames_before(after, n) == frames_before(before, n) + after[ci].frames@.len()
            - before[ci].frames@.len(),
    decreases n,
{
    if n > 0 {
        lemma_frames_before_changed(before, after, ci, n - 1);
        if n - 1 != ci {
            assert(after[n - 1].frames@.len() == before[n - 1].frames@.len());
        }
    }
}

impl VideoEditorApp {
    /// Computes the timeline anew after clip `ci` has lost frames, and goes to its start.
    fn settle(&mut self, ci: usize, Ghost(before): Ghost<VideoEditorApp>)
        requires
            before.indexed(),
            ci < before.playlist@.len(),
            old(self).playlist@.len() == before.playlist@.len(),
            forall|i: int|
                0 <= i < before.playlist@.len() && i != ci ==> old(self).playlist@[i]
                    == before.playlist@[i],
            same_but_frames(before.playlist@[ci as int], old(self).playlist@[ci as int]),
            old(self).playlist@[ci as int].frames@.len()
                <= before.playlist@[ci as int].frames@.len(),
            old(self).same_but_timeline(before),
        ensures
            final(self).replaced(before, ci as int, old(self).playlist@[ci as int].frames@),
            before.numbered() ==> final(self).wf(),
    {
        proof {
            let n = self.playlist@.len() as int;
            lemma_frames_before_changed(before.playlist@, self.playlist@, ci as int, n);
            lemma_frames_before_changed(before.playlist@, self.playlist@, ci as int, ci as int);
            if before.numbered() {
                assert forall|i: int| 0 <= i < n implies (#[trigger] self.playlist@[i]).id == i by {
                    assert(before.playlist@[i].id == i);
                }
            }
        }
        self.rebuild_offsets();
        self.seek_clip_start(ci);
        self.timeline_dirty = true;
    }

    /// Cuts the frames from `start_f` up to `end_f` out of clip `ci`.
    pub fn cut_clip(&mut self, ci: usize, start_f: isize, end_f: isize)
        requires
            old(self).indexed(),
            ci < old(self).playlist@.len(),
        ensures
            final(self).indexed(),
            old(self).wf() ==> final(self).wf(),
            final(self).cut(*old(self), ci as int, start_f as int, end_f as int),
    {
        let total: usize = self.playlist[ci].frames.len();
        if self.playlist[ci].fps.is_positive() && total > 0 {
            let a: usize = clamp_frame(start_f, total);
            let b: usize = if end_f <= 0 {
                total
            } else {
                clamp_frame(end_f, total)
            };
            let (s, e): (usize, usize) = if a > b {
                (b, a)
            } else {
                (a, b)
            };
            if s < e {
                let ghost before = *self;
                let clip = &mut self.playlist[ci];
                let mut tail = clip.frames.split_off(e);
                clip.frames.truncate(s);
                clip.frames.append(&mut tail);
                assert(self.playlist@[ci as int].frames@ =~= cut_frames(
                    before.playlist@[ci as int].frames@,
                    (s as nat, e as nat),
                ));
                self.settle(ci, Ghost(before));
            }
        }
    }

    /// Leaves of clip `ci` the frames from `start_f` up to `end_f`.
    pub fn extract_clip(&mut self, ci: usize, start_f: isize, end_f: isize)
        requires
            old(self).indexed(),
            ci < old(self).playlist@.len(),
        ensures
            final(self).indexed(),
            old(self).wf() ==> final(self).wf(),
            final(self).extracted(*old(self), ci as int, start_f as int, end_f as int),
    {
        let total: usize = self.playlist[ci].frames.len();
        if self.playlist[ci].fps.is_positive() && total > 0 {
            let a: usize = clamp_frame(start_f, total);
            let b: usize = clamp_frame(end_f, total);
            let (s, e): (usize, usize) = if a > b {
                (b, a)
            } else {
                (a, b)
            };
            if s < e {
                let ghost before = *self;
                let clip = &mut self.playlist[ci];
                let mut kept = clip.frames.split_off(s);
                kept.truncate(e - s);
                clip.frames = kept;
                assert(self.playlist@[ci as int].frames@ =~= extracted_frames(
                    before.playlist@[ci as int].frames@,
                    (s as nat, e as nat),
                ));
                self.settle(ci, Ghost(before));
            }
        }
    }

    /// Cuts the frames from `start_f` up to `end_f` out of the clip at the play position.
    pub fn cut_range(&mut self, start_f: isize, end_f: isize)
        requires
            old(self).indexed(),
        ensures
            final(self).indexed(),
            old(self).wf() ==> final(self).wf(),
            old(self).well_placed(old(self).global_frame),
            match old(self).place(old(self).global_frame) {
                Some((ci, local)) => final(self).cut(
                    *old(self),
                    ci as int,
                    start_f as int,
                    end_f as int,
                ),
                None => *final(self) == *old(self),
            },
    {
        if let Some((ci, _local)) = self.map_global(self.global_frame) {
            self.cut_clip(ci, start_f, end_f);
        }
    }

    /// Leaves of the clip at the play position the frames from `start_f` up to `end_f`.
    pub fn extract_range(&mut self, start_f: isize, end_f: isize)
        requires
            old(self).indexed(),
        ensures
            final(self).indexed(),
            old(self).wf() ==> final(self).wf(),
            old(self).well_placed(old(self).global_frame),
            match old(self).place(old(self).global_frame) {
                Some((ci, local)) => final(self).extracted(
                    *old(self),
                    ci as int,
                    start_f as int,
                    end_f as int,
                ),
                None => *final(self) == *old(self),
            },
    {
        if let Some((ci, _local)) = self.map_global(self.global_frame) {
            self.extract_clip(ci, start_f, end_f);
        }
    }
}

// ---------------------------------------------------------------------------
// Loading
// ---------------------------------------------------------------------------
/// `egui::Color32::from_rgb` makes the opaque color with the given red, green and blue; as an
/// array it is these three and an alpha of 255.
#[verifier::external_body]
fn opaque_color(red: u8, green: u8, blue: u8) -> (color: [u8; 4])
    ensures
        color@ == seq![red, green, blue, 255u8],
{
    egui::Color32::from_rgb(red, green, blue).to_array()
}

/// The color of the clip that is loaded when there are `n` clips already: each of its
/// channels goes through a range in steps of its own.
pub open spec fn clip_color(n: nat) -> Seq<u8> {
    seq![
        (50 + n * 70 % 200) as u8,
        (80 + n * 90 % 150) as u8,
        (100 + n * 60 % 155) as u8,
        255u8,
    ]
}

/// `base` plus the remainder of `n` times `step` by `range`.
fn channel(n: usize, base: u8, step: usize, range: usize) -> (r: u8)
    requires
        0 < range,
        step <= 255,
        base + range <= 256,
    ensures
        r == base + (n * step) % range as int,
{
    assert((n % range) * step <= 255 * 255) by (nonlinear_arith)
        requires
            0 <= n % range <= 255,
            0 <= step <= 255,
    ;
    let rest: usize = (n % range) * step % range;
    proof {
        vstd::arithmetic::div_mod::lemma_mul_mod_noop_left(n as int, step as int, range as int);
    }
    base + rest as u8
}

impl VideoEditorApp {
    /// Puts a loaded clip at the end of the playlist, goes to the last frame, selects the
    /// clip and stops playing.
    pub fn add_clip(&mut self, clip: VideoClip)
        requires
            all_frames(old(self).playlist@) + clip.frames@.len() <= usize::MAX,
        ensures
            final(self).indexed(),
            old(self).numbered() ==> final(self).wf(),
            final(self).playlist@.len() == old(self).playlist@.len() + 1,
            final(self).playlist@.drop_last() == old(self).playlist@,
            ({
                let entry = final(self).playlist@.last();
                &&& entry.id == old(self).playlist@.len()
                &&& entry.path == clip.video_path_input
                &&& entry.size == clip.size
                &&& entry.fps == clip.fps
                &&& entry.frames == clip.frames
                &&& entry.color@ == clip_color(old(self).playlist@.len())
            }),
            final(self).global_frame == last_frame(final(self).total_frames as nat),
            final(self).total_frames == all_frames(old(self).playlist@) + clip.frames@.len(),
            final(self).total_frames > 0 ==> final(self).global_frame == final(self).total_frames - 1,
            final(self).total_frames == 0 ==> final(self).global_frame == 0,
            final(self).current_clip_idx == old(self).playlist@.len(),
            final(self).timeline_dirty,
            !final(self).playing,
            final(self).load_status matches Some(status) && status@ == "読み込み完了"@,
            final(self).video_path_input == old(self).video_path_input,
            final(self).output_path == old(self).output_path,
            final(self).export_status == old(self).export_status,
            final(self).export_open == old(self).export_open,
            final(self).include_audio == old(self).include_audio,
            final(self).audio_offset_frames == old(self).audio_offset_frames,
            final(self).burn_subtitles == old(self).burn_subtitles,
            final(self).subtitles_srt == old(self).subtitles_srt,
    {
        let n: usize = self.playlist.len();
        let color = opaque_color(
            channel(n, 50, 70, 200),
            channel(n, 80, 90, 150),
            channel(n, 100, 60, 155),
        );
        let entry = ClipEntry {
            id: n,
            path: clip.video_path_input,
            size: clip.size,
            fps: clip.fps,
            frames: clip.frames,
            color,
        };
        let ghost before = self.playlist@;
        self.playlist.push(entry);
        proof {
            assert(self.playlist@.drop_last() =~= before);
            lemma_frames_before_prefix(before, self.playlist@, n as int);
        }
        self.rebuild_offsets();
        self.global_frame = self.total_frames.saturating_sub(1);
        self.current_clip_idx = self.playlist.len().saturating_sub(1);
        self.timeline_dirty = true;
        self.playing = false;
        self.load_status = Some("読み込み完了".to_string());
    }

    /// Reports that a clip could not be loaded.
    pub fn load_failed(&mut self, error: &str)
        ensures
            final(self).load_status matches Some(status) && status@ == "エラー: "@ + error@,
            *final(self) == (VideoEditorApp {
                load_status: final(self).load_status,
                ..*old(self)
            }),
    {
        let mut status = "エラー: ".to_string();
        status.append(error);
        self.load_status = Some(status);
    }
}

/// Clips that are added at the end do not move the others.
proof fn lemma_frames_before_prefix(a: Seq<ClipEntry>, b: Seq<ClipEntry>, n: int)
    requires
        0 <= n <= a.len() <= b.len(),
        a == b.take(a.len() as int),
    ensures
        frames_before(a, n) == frames_before(b, n),
    decreases n,
{
    if n > 0 {
        lemma_frames_before_prefix(a, b, n - 1);
        assert(a[n - 1] == b[n - 1]);
    }
}

// ---------------------------------------------------------------------------
// Playing
// ---------------------------------------------------------------------------
/// What a tick of the clock asks of the display.
pub enum Tick {
    /// Nothing is playing.
    Idle,
    /// The frame that is shown stays for now.
    Waiting,
    /// The next frame is due: frame `.1` of clip `.0`, if that clip has it.
    Due(Option<(usize, usize)>),
}

impl VideoEditorApp {
    /// The frame at the play position, as a clip and the number of a frame in it, if that
    /// clip has it.
    pub open spec fn shown(self) -> Option<(usize, usize)> {
        match self.place(self.global_frame) {
            Some((i, local)) => if local < self.playlist@[i as int].frames@.len() {
                Some((i, local))
            } else {
                None
            },
            None => None,
        }
    }

    /// The editor after the frame at the play position has been shown: one frame further,
    /// or, at the last frame, no longer playing.
    pub open spec fn played_on(self) -> Self {
        if self.global_frame + 1 < self.total_frames {
            VideoEditorApp { global_frame: (self.global_frame + 1) as usize, ..self }
        } else {
            VideoEditorApp { playing: false, ..self }
        }
    }

    /// Plays on: when the frame that is shown has had its time, the frame at the play
    /// position is due, and the play position moves to the next one. At the last frame
    /// playing stops.
    pub fn tick(&mut self, elapsed_ns: u128, frame_ns: u128) -> (r: Tick)
        requires
            old(self).indexed(),
        ensures
            final(self).indexed(),
            old(self).wf() ==> final(self).wf(),
            old(self).well_placed(old(self).global_frame),
            r == (if !old(self).playing || old(self).total_frames == 0 {
                Tick::Idle
            } else if elapsed_ns < frame_ns {
                Tick::Waiting
            } else {
                Tick::Due(old(self).shown())
            }),
            r matches Tick::Due(Some((i, local))) ==> {
                &&& i < old(self).playlist@.len()
                &&& local < old(self).playlist@[i as int].frames@.len()
                &&& old(self).clip_offsets@[i as int] + local == old(self).global_frame
            },
            r matches Tick::Due(None) ==> old(self).global_frame >= old(self).total_frames || exists|
                i: int,
            |
                0 <= i < old(self).playlist@.len() && (#[trigger] old(
                    self,
                ).playlist@[i]).frames@.len() == 0 && old(self).clip_offsets@[i]
                    == old(self).global_frame,
            *final(self) == (if r is Due {
                old(self).played_on()
            } else {
                *old(self)
            }),
    {
        let place = self.map_global(self.global_frame);
        if !self.playing || self.total_frames == 0 {
            return Tick::Idle;
        }
        proof {
            if self.playlist@.len() == 0 {
                assert(all_frames(self.playlist@) == 0);
            }
        }
        match place {
            Some((ci, local)) => {
                if elapsed_ns < frame_ns {
                    return Tick::Waiting;
                }
                let shown = if local < self.playlist[ci].frames.len() {
                    Some((ci, local))
                } else {
                    None
                };
                if self.global_frame < self.total_frames - 1 {
                    self.global_frame = self.global_frame + 1;
                } else {
                    self.playing = false;
                }
                Tick::Due(shown)
            },
            None => Tick::Waiting,
        }
    }

    /// Starts playing, or stops it.
    pub fn toggle_playing(&mut self)
        ensures
            *final(self) == (VideoEditorApp { playing: !old(self).playing, ..*old(self) }),
    {
        self.playing = !self.playing;
    }

    /// The size in which to show the clip at the play position, or an empty screen.
    pub fn display_size(&self) -> (r: (u32, u32))
        requires
            self.indexed(),
        ensures
            self.well_placed(self.global_frame),
            r == (match self.place(self.global_frame) {
                Some((i, local)) => self.playlist@[i as int].size,
                None => (640u32, 360u32),
            }),
    {
        match self.current_clip() {
            Some(clip) => clip.size,
            None => (640, 360),
        }
    }

    /// Where the playhead stands in the bar of clip `idx`, as a frame of that clip, if it
    /// stands there. In the bar of an empty clip it is not shown.
    pub fn playhead(&self, idx: usize) -> (r: Option<usize>)
        requires
            self.indexed(),
        ensures
            self.well_placed(self.global_frame),
            r == (match self.place(self.global_frame) {
                Some((i, local)) => if i == idx && self.playlist@[i as int].frames@.len() > 0 {
                    Some(local)
                } else {
                    None
                },
                None => None,
            }),
    {
        match self.map_global(self.global_frame) {
            Some((ci, local)) => {
                if ci == idx && !self.playlist[ci].frames.is_empty() {
                    Some(local)
                } else {
                    None
                }
            },
            None => None,
        }
    }

    /// Moves the play position to a frame of a clip, as a click on the clip's bar does; at
    /// most to the last frame of the timeline.
    pub fn seek_in_clip(&mut self, idx: usize, local_frame: usize)
        requires
            old(self).indexed(),
            idx < old(self).playlist@.len(),
            old(self).clip_offsets@[idx as int] + local_frame <= usize::MAX,
        ensures
            *final(self) == old(self).sought(old(self).clip_offsets@[idx as int] + local_frame),
            old(self).total_frames > 0 ==> final(self).well_placed(final(self).global_frame),
            old(self).wf() ==> final(self).wf(),
    {
        let g: usize = self.clip_offsets[idx] + local_frame;
        self.seek_global(g);
    }
}

// ---------------------------------------------------------------------------
// Progress of an export
// ---------------------------------------------------------------------------
/// What was found when the running export was asked for news.
pub enum ExportPoll {
    /// A message.
    Message(String),
    /// Nothing new.
    Empty,
    /// The export has ended.
    Disconnected,
}

/// What to do after news of an export.
#[derive(Clone, Copy, PartialEq, Eq, Structural, Debug)]
pub struct PollStep {
    /// Show the new status.
    pub repaint: bool,
    /// Ask again at once.
    pub again: bool,
}

/// A message after which no other comes: the output is there, or there was nothing to
/// export. It may be in English or in Japanese.
pub open spec fn is_last_message(message: Seq<char>) -> bool {
    ||| crate::text::begins_with(message, "Export succeeded"@)
    ||| crate::text::begins_with(message, "No frames to export"@)
    ||| crate::text::begins_with(message, "出力成功: "@)
    ||| crate::text::begins_with(message, "プレイリストが空です"@)
}

impl VideoEditorApp {
    /// Takes in news of the running export: a message becomes the status; after the last
    /// one, or when the export has ended, there is nothing more to ask for.
    pub fn export_news(&mut self, poll: ExportPoll) -> (r: PollStep)
        ensures
            match poll {
                ExportPoll::Message(message) => {
                    &&& *final(self) == (VideoEditorApp {
                        export_status: final(self).export_status,
                        export_open: old(self).export_open && !is_last_message(message@),
                        ..*old(self)
                    })
                    &&& final(self).export_status matches Some(status) && status@ == message@
                    &&& r == (PollStep { repaint: true, again: !is_last_message(message@) })
                },
                ExportPoll::Empty => {
                    &&& *final(self) == *old(self)
                    &&& r == (PollStep { repaint: false, again: false })
                },
                ExportPoll::Disconnected => {
                    &&& *final(self) == (VideoEditorApp { export_open: false, ..*old(self) })
                    &&& r == (PollStep { repaint: false, again: false })
                },
            },
    {
        match poll {
            ExportPoll::Message(message) => {
                let last: bool = starts_with(message.as_str(), "Export succeeded") || starts_with(
                    message.as_str(),
                    "No frames to export",
                ) || starts_with(message.as_str(), "出力成功: ") || starts_with(
                    message.as_str(),
                    "プレイリストが空です",
                );
                self.export_status = Some(message);
                if last {
                    self.export_open = false;
                }
                PollStep { repaint: true, again: !last }
            },
            ExportPoll::Empty => PollStep { repaint: false, again: false },
            ExportPoll::Disconnected => {
                self.export_open = false;
                PollStep { repaint: false, again: false }
            },
        }
    }
}

impl Default for VideoEditorApp {
    /// An editor without clips.
    fn default() -> (r: Self)
        ensures
            r.wf(),
            r.video_path_input@ == "C:\\test\\test.mp4"@,
            !r.playing,
            r.playlist@.len() == 0,
            r.total_frames == 0,
            r.global_frame == 0,
            r.current_clip_idx == 0,
            !r.timeline_dirty,
            r.output_path@ == "output.mp4"@,
            r.export_status is None,
            !r.export_open,
            r.load_status is None,
            r.include_audio,
            r.audio_offset_frames == 0,
            !r.burn_subtitles,
            r.subtitles_srt@ == Seq::<char>::empty(),
    {
        VideoEditorApp {
            video_path_input: "C:\\test\\test.mp4".to_string(),
            playing: false,
            playlist: Vec::new(),
            clip_offsets: Vec::new(),
            total_frames: 0,
            global_frame: 0,
            current_clip_idx: 0,
            timeline_dirty: false,
            output_path: "output.mp4".to_string(),
            export_status: None,
            export_open: false,
            load_status: None,
            include_audio: true,
            audio_offset_frames: 0,
            burn_subtitles: false,
            subtitles_srt: String::new(),
        }
    }
}

// ---------------------------------------------------------------------------
// Laws
// ---------------------------------------------------------------------------
/// Every frame of every clip has its place on the timeline.
pub proof fn law_every_frame_has_a_place(playlist: Seq<ClipEntry>, i: int, local: nat)
    requires
        0 <= i < playlist.len(),
        local < playlist[i].frames@.len(),
    ensures
        locates(playlist, frames_before(playlist, i) + local, i, local),
        frames_before(playlist, i) + local < all_frames(playlist),
{
    lemma_frames_before_monotonic(playlist, i + 1, playlist.len() as int);
}

/// A place on the timeline is a frame of the clip found there, unless that clip is empty.
pub proof fn law_place_is_a_frame(playlist: Seq<ClipEntry>, g: nat, i: int, local: nat)
    requires
        locates(playlist, g, i, local),
        g < all_frames(playlist),
    ensures
        local < playlist[i].frames@.len() || (playlist[i].frames@.len() == 0 && local == 0),
{
}

/// If no clip is empty, a place on the timeline is one frame of one clip only.
pub proof fn law_place_is_unique(
    playlist: Seq<ClipEntry>,
    g: nat,
    i: int,
    local: nat,
    j: int,
    other: nat,
)
    requires
        forall|k: int| 0 <= k < playlist.len() ==> (#[trigger] playlist[k]).frames@.len() > 0,
        locates(playlist, g, i, local),
        locates(playlist, g, j, other),
    ensures
        i == j,
        local == other,
{
    if i < j {
        lemma_frames_before_monotonic(playlist, i + 1, j);
        assert(playlist[i].frames@.len() > 0);
    } else if j < i {
        lemma_frames_before_monotonic(playlist, j + 1, i);
        assert(playlist[j].frames@.len() > 0);
    }
}

/// Past the last frame the count goes on in the last clip.
pub proof fn law_places_past_the_end(playlist: Seq<ClipEntry>, g: nat, i: int, local: nat)
    requires
        locates(playlist, g, i, local),
        g > all_frames(playlist),
    ensures
        i == playlist.len() - 1,
{
    lemma_frames_before_monotonic(playlist, i, playlist.len() as int);
    lemma_frames_before_monotonic(playlist, i + 1, playlist.len() as int);
}

/// Going to the start of a clip leads to the first frame of that clip.
pub proof fn law_start_of_clip(editor: VideoEditorApp, i: int)
    requires
        editor.indexed(),
        0 <= i < editor.playlist@.len(),
    ensures
        locates(editor.playlist@, editor.clip_offsets@[i] as nat, i, 0),
{
}

/// The last of two seeks alone decides.
pub proof fn law_last_seek_decides(editor: VideoEditorApp, a: int, b: int)
    ensures
        editor.sought(a).sought(b) == editor.sought(b),
{
    let first = editor.sought(a);
    assert(forall|g: usize| #[trigger] first.place(g) == editor.place(g));
}

/// What is selected lies in the clip.
pub proof fn law_selections_lie_in_the_clip(start: int, end: int, total: nat)
    ensures
        cut_selection(start, end, total).0 <= cut_selection(start, end, total).1 <= total,
        extract_selection(start, end, total).0 <= extract_selection(start, end, total).1 <= total,
{
}

/// Cutting and extracting select the same frames, if the end is positive.
pub proof fn law_cut_and_extract_select_alike(start: int, end: int, total: nat)
    requires
        end > 0,
    ensures
        cut_selection(start, end, total) == extract_selection(start, end, total),
{
}

/// The order of the two marks does not matter to an extraction.
pub proof fn law_marks_can_be_swapped(start: int, end: int, total: nat)
    ensures
        extract_selection(start, end, total) == extract_selection(end, start, total),
{
}

/// What a cut leaves and what an extraction of the same frames leaves make up the clip.
pub proof fn law_cut_and_extract_make_up_the_clip(frames: Seq<Vec<u8>>, selection: (nat, nat))
    requires
        selection.0 <= selection.1 <= frames.len(),
    ensures
        cut_frames(frames, selection).take(selection.0 as int) + extracted_frames(
            frames,
            selection,
        ) + cut_frames(frames, selection).skip(selection.0 as int) == frames,
{
    assert(cut_frames(frames, selection).take(selection.0 as int) + extracted_frames(
        frames,
        selection,
    ) + cut_frames(frames, selection).skip(selection.0 as int) =~= frames);
}

/// A change of a clip changes the length of the timeline by as many frames; clips before it
/// stay where they are, and those behind it move by as many.
pub proof fn law_change_moves_later_clips(
    before: VideoEditorApp,
    after: VideoEditorApp,
    ci: int,
    frames: Seq<Vec<u8>>,
    i: int,
)
    requires
        before.indexed(),
        0 <= ci < before.playlist@.len(),
        after.replaced(before, ci, frames),
        0 <= i < before.playlist@.len(),
    ensures
        after.total_frames - frames.len() == before.total_frames
            - before.playlist@[ci].frames@.len(),
        i <= ci ==> after.clip_offsets@[i] == before.clip_offsets@[i],
        i > ci ==> after.clip_offsets@[i] - frames.len() == before.clip_offsets@[i]
            - before.playlist@[ci].frames@.len(),
{
    let n = before.playlist@.len() as int;
    lemma_frames_before_changed(before.playlist@, after.playlist@, ci, n);
    lemma_frames_before_changed(before.playlist@, after.playlist@, ci, i);
}

/// The editor after `n` frames have been shown.
pub open spec fn played(editor: VideoEditorApp, n: nat) -> VideoEditorApp
    decreases n,
{
    if n == 0 {
        editor
    } else {
        played(editor, (n - 1) as nat).played_on()
    }
}

/// Playing shows every frame from the play position on, in order, and stops after the last;
/// nothing else changes.
pub proof fn law_plays_to_the_end(editor: VideoEditorApp, n: nat)
    requires
        editor.playing,
        editor.global_frame < editor.total_frames,
        n <= editor.total_frames - editor.global_frame,
    ensures
        n < editor.total_frames - editor.global_frame ==> played(editor, n) == (VideoEditorApp {
            global_frame: (editor.global_frame + n) as usize,
            ..editor
        }),
        n == editor.total_frames - editor.global_frame ==> played(editor, n) == (VideoEditorApp {
            playing: false,
            global_frame: (editor.total_frames - 1) as usize,
            ..editor
        }),
    decreases n,
{
    if n > 0 {
        law_plays_to_the_end(editor, (n - 1) as nat);
    }
}

/// Past the last frame playing stops at once, and nothing else changes.
pub proof fn law_stops_past_the_end(editor: VideoEditorApp)
    requires
        editor.global_frame >= editor.total_frames,
    ensures
        editor.played_on() == (VideoEditorApp { playing: false, ..editor }),
{
}

/// The frame that is shown is the one at the play position: frame `local` of clip `i`, which
/// stands as many frames behind the start of the clip.
pub proof fn law_shown_frame(editor: VideoEditorApp, i: int, local: int)
    requires
        editor.indexed(),
        editor.well_placed(editor.global_frame),
        forall|k: int|
            0 <= k < editor.playlist@.len() ==> (#[trigger] editor.playlist@[k]).frames@.len() > 0,
        0 <= i < editor.playlist@.len(),
        0 <= local < editor.playlist@[i].frames@.len(),
        editor.clip_offsets@[i] + local == editor.global_frame,
    ensures
        editor.shown() == Some((i as usize, local as usize)),
{
    law_every_frame_has_a_place(editor.playlist@, i, local as nat);
    let (k, at) = editor.place(editor.global_frame)->0;
    law_place_is_unique(
        editor.playlist@,
        editor.global_frame as nat,
        i,
        local as nat,
        k as int,
        at as nat,
    );
}

/// The frames of two playlists, one behind the other, are those of both.
pub proof fn law_frames_add_up(a: Seq<ClipEntry>, b: Seq<ClipEntry>, clip: ClipEntry)
    ensures
        all_frames(Seq::empty()) == 0,
        all_frames(seq![clip]) == clip.frames@.len(),
        all_frames(a + b) == all_frames(a) + all_frames(b),
    decreases b.len(),
{
    reveal_with_fuel(frames_before, 2);
    assert(frames_before(seq![clip], 0) == 0);
    if b.len() > 0 {
        let rest = b.drop_last();
        law_frames_add_up(a, rest, clip);
        lemma_frames_before_prefix(rest, b, rest.len() as int);
        assert(a + rest =~= (a + b).take((a + rest).len() as int));
        lemma_frames_before_prefix(a + rest, a + b, (a + rest).len() as int);
        assert((a + b)[a.len() as int + rest.len()] == b.last());
    } else {
        assert(a + b =~= a);
    }
}

/// The offsets start at zero, and each clip starts where the one before it ends; the total is
/// where the last one ends. An editor of which this holds is indexed, and no other.
pub proof fn law_offsets(editor: VideoEditorApp)
    ensures
        editor.indexed() <==> {
            let n = editor.playlist@.len() as int;
            &&& editor.clip_offsets@.len() == n
            &&& n == 0 ==> editor.total_frames == 0
            &&& n > 0 ==> editor.clip_offsets@[0] == 0
            &&& n > 0 ==> editor.total_frames == editor.clip_offsets@[n - 1]
                + editor.playlist@[n - 1].frames@.len()
            &&& forall|i: int|
                0 < i < n ==> #[trigger] editor.clip_offsets@[i] == editor.clip_offsets@[i - 1]
                    + editor.playlist@[i - 1].frames@.len()
        },
{
    let n = editor.playlist@.len() as int;
    let offsets = editor.clip_offsets@;
    if editor.indexed() {
        assert forall|i: int| 0 < i < n implies #[trigger] offsets[i] == offsets[i - 1]
            + editor.playlist@[i - 1].frames@.len() by {
            assert(offsets[i - 1] == frames_before(editor.playlist@, i - 1));
        }
        if n > 0 {
            assert(offsets[n - 1] == frames_before(editor.playlist@, n - 1));
            assert(offsets[0] == frames_before(editor.playlist@, 0));
        }
    }
    if offsets.len() == n && (n > 0 ==> offsets[0] == 0) && (forall|i: int|
        0 < i < n ==> #[trigger] offsets[i] == offsets[i - 1]
            + editor.playlist@[i - 1].frames@.len()) {
        assert forall|i: int| 0 <= i < n implies #[trigger] offsets[i] == frames_before(
            editor.playlist@,
            i,
        ) by {
            lemma_offsets_are_sums(editor, i);
        }
    }
}

proof fn lemma_offsets_are_sums(editor: VideoEditorApp, i: int)
    requires
        editor.clip_offsets@.len() == editor.playlist@.len(),
        editor.clip_offsets@[0] == 0,
        forall|i: int|
            0 < i < editor.playlist@.len() ==> #[trigger] editor.clip_offsets@[i]
                == editor.clip_offsets@[i - 1] + editor.playlist@[i - 1].frames@.len(),
        0 <= i < editor.playlist@.len(),
    ensures
        editor.clip_offsets@[i] == frames_before(editor.playlist@, i),
    decreases i,
{
    if i > 0 {
        lemma_offsets_are_sums(editor, i - 1);
    }
}

/// A seek goes to the frame asked for, or to the last one if there are not that many, and
/// changes nothing but the play position and the selected clip; without frames, nothing.
pub proof fn law_seek(editor: VideoEditorApp, g: int)
    requires
        g >= 0,
    ensures
        editor.total_frames == 0 ==> editor.sought(g) == editor,
        editor.total_frames > 0 ==> {
            &&& g < editor.total_frames ==> editor.sought(g).global_frame == g
            &&& g >= editor.total_frames ==> editor.sought(g).global_frame == editor.total_frames - 1
            &&& editor.place(editor.sought(g).global_frame) matches Some((i, local))
                ==> editor.sought(g).current_clip_idx == i
            &&& editor.sought(g) == (VideoEditorApp {
                global_frame: editor.sought(g).global_frame,
                current_clip_idx: editor.sought(g).current_clip_idx,
                ..editor
            })
        },
{
}

/// A frame rate is greater than zero if its two numbers are both positive or both negative,
/// whatever they are.
pub proof fn law_positive_rates(rate: FrameRate)
    ensures
        rate.positive() <==> rate.num * rate.den > 0,
{
    let (n, d) = (rate.num as int, rate.den as int);
    assert((n > 0 && d > 0) || (n < 0 && d < 0) <==> n * d > 0) by (nonlinear_arith);
}

/// `after` is `before` but for the frames of clip `ci`, and for the timeline that goes with
/// them: the clip is selected, with the play position at its start.
pub open spec fn only_frames_changed(
    before: VideoEditorApp,
    after: VideoEditorApp,
    ci: int,
) -> bool {
    let (old_clip, new_clip) = (before.playlist@[ci], after.playlist@[ci]);
    &&& after.indexed()
    &&& after.playlist@.len() == before.playlist@.len()
    &&& forall|i: int|
        0 <= i < before.playlist@.len() && i != ci ==> after.playlist@[i] == before.playlist@[i]
    &&& new_clip.id == old_clip.id
    &&& new_clip.path == old_clip.path
    &&& new_clip.size == old_clip.size
    &&& new_clip.fps == old_clip.fps
    &&& new_clip.color == old_clip.color
    &&& after.global_frame == before.clip_offsets@[ci]
    &&& after.current_clip_idx == ci
    &&& after.timeline_dirty
    &&& after.playing == before.playing
    &&& after.video_path_input == before.video_path_input
    &&& after.output_path == before.output_path
    &&& after.export_status == before.export_status
    &&& after.export_open == before.export_open
    &&& after.load_status == before.load_status
    &&& after.include_audio == before.include_audio
    &&& after.audio_offset_frames == before.audio_offset_frames
    &&& after.burn_subtitles == before.burn_subtitles
    &&& after.subtitles_srt == before.subtitles_srt
}

/// Whatever the frame rate of a clip, as long as it is greater than zero, a cut takes out the
/// frames from `start` up to `end` and closes the gap: the frames before stay, and those
/// behind move up.
pub proof fn law_cut_closes_the_gap(
    before: VideoEditorApp,
    after: VideoEditorApp,
    ci: int,
    start: int,
    end: int,
)
    requires
        before.indexed(),
        0 <= ci < before.playlist@.len(),
        before.playlist@[ci].fps.num * before.playlist@[ci].fps.den > 0,
        0 <= start < end <= before.playlist@[ci].frames@.len(),
        after.cut(before, ci, start, end),
    ensures
        only_frames_changed(before, after, ci),
        after.total_frames == before.total_frames - (end - start),
        after.playlist@[ci].frames@.len() == before.playlist@[ci].frames@.len() - (end - start),
        forall|i: int|
            0 <= i < after.playlist@[ci].frames@.len() ==> #[trigger] after.playlist@[ci].frames@[i]
                == before.playlist@[ci].frames@[if i < start {
                i
            } else {
                i + (end - start)
            }],
{
    law_positive_rates(before.playlist@[ci].fps);
    law_change_moves_later_clips(before, after, ci, after.playlist@[ci].frames@, ci);
}

/// Whatever the frame rate of a clip, as long as it is greater than zero, an extraction leaves
/// the frames from `start` up to `end`, in order.
pub proof fn law_extraction_leaves_the_range(
    before: VideoEditorApp,
    after: VideoEditorApp,
    ci: int,
    start: int,
    end: int,
)
    requires
        before.indexed(),
        0 <= ci < before.playlist@.len(),
        before.playlist@[ci].fps.num * before.playlist@[ci].fps.den > 0,
        0 <= start < end <= before.playlist@[ci].frames@.len(),
        after.extracted(before, ci, start, end),
    ensures
        only_frames_changed(before, after, ci),
        after.total_frames == before.total_frames - before.playlist@[ci].frames@.len() + (end
            - start),
        after.playlist@[ci].frames@.len() == end - start,
        forall|i: int|
            0 <= i < end - start ==> #[trigger] after.playlist@[ci].frames@[i]
                == before.playlist@[ci].frames@[start + i],
{
    law_positive_rates(before.playlist@[ci].fps);
    law_change_moves_later_clips(before, after, ci, after.playlist@[ci].frames@, ci);
}

/// Marks outside of a clip count as its nearest end; for a cut, an end that is not positive
/// counts as the end of the clip.
pub proof fn law_marks_outside_the_clip(
    before: VideoEditorApp,
    after: VideoEditorApp,
    ci: int,
    start: int,
    end: int,
)
    ensures
        ({
            let len = before.playlist@[ci].frames@.len() as int;
            &&& start < 0 ==> after.cut(before, ci, start, end) == after.cut(before, ci, 0, end)
            &&& start > len ==> after.cut(before, ci, start, end) == after.cut(before, ci, len, end)
            &&& end <= 0 ==> after.cut(before, ci, start, end) == after.cut(before, ci, start, len)
            &&& end > len ==> after.cut(before, ci, start, end) == after.cut(before, ci, start, len)
            &&& start < 0 ==> after.extracted(before, ci, start, end) == after.extracted(
                before,
                ci,
                0,
                end,
            )
            &&& start > len ==> after.extracted(before, ci, start, end) == after.extracted(
                before,
                ci,
                len,
                end,
            )
            &&& end < 0 ==> after.extracted(before, ci, start, end) == after.extracted(
                before,
                ci,
                start,
                0,
            )
            &&& end > len ==> after.extracted(before, ci, start, end) == after.extracted(
                before,
                ci,
                start,
                len,
            )
        }),
{
}

/// Marks in the wrong order count as if they were swapped.
pub proof fn law_marks_in_the_wrong_order(
    before: VideoEditorApp,
    after: VideoEditorApp,
    ci: int,
    start: int,
    end: int,
)
    ensures
        start > end > 0 ==> after.cut(before, ci, start, end) == after.cut(before, ci, end, start),
        after.extracted(before, ci, start, end) == after.extracted(before, ci, end, start),
{
}

/// Nothing happens to a clip whose frame rate is not greater than zero, to a clip without
/// frames, or between two equal marks.
pub proof fn law_nothing_to_cut(
    before: VideoEditorApp,
    after: VideoEditorApp,
    ci: int,
    start: int,
    end: int,
)
    ensures
        before.playlist@[ci].fps.num * before.playlist@[ci].fps.den <= 0
            || before.playlist@[ci].frames@.len() == 0 ==> {
            &&& after.cut(before, ci, start, end) <==> after == before
            &&& after.extracted(before, ci, start, end) <==> after == before
        },
        start > 0 ==> (after.cut(before, ci, start, start) <==> after == before),
        after.extracted(before, ci, start, start) <==> after == before,
{
    law_positive_rates(before.playlist@[ci].fps);
}

/// The colors of the clips are opaque, and each channel steps through its own range.
pub proof fn law_clip_colors(n: nat)
    ensures
        clip_color(n).len() == 4,
        50 <= clip_color(n)[0] < 250 && (clip_color(n)[0] - 50 - 70 * n) % 200 == 0,
        80 <= clip_color(n)[1] < 230 && (clip_color(n)[1] - 80 - 90 * n) % 150 == 0,
        100 <= clip_color(n)[2] < 255 && (clip_color(n)[2] - 100 - 60 * n) % 155 == 0,
        clip_color(n)[3] == 255,
{
}

/// The last messages are those that begin in one of four ways, whatever follows.
pub proof fn law_last_messages(message: Seq<char>, rest: Seq<char>)
    ensures
        is_last_message("Export succeeded"@ + rest),
        is_last_message("No frames to export"@ + rest),
        is_last_message("出力成功: "@ + rest),
        is_last_message("プレイリストが空です"@ + rest),
        is_last_message(message) ==> {
            ||| crate::text::begins_with(message, "Export succeeded"@)
            ||| crate::text::begins_with(message, "No frames to export"@)
            ||| crate::text::begins_with(message, "出力成功: "@)
            ||| crate::text::begins_with(message, "プレイリストが空です"@)
        },
{
    crate::text::law_begins_with("Export succeeded"@, rest);
    crate::text::law_begins_with("No frames to export"@, rest);
    crate::text::law_begins_with("出力成功: "@, rest);
    crate::text::law_begins_with("プレイリストが空です"@, rest);
}

/// What holds of the editor at all times: the timeline is that of the playlist, the clips are
/// numbered, the play position is at most behind the last frame, and the selected clip is
/// there.
pub proof fn law_well_formed_editors(editor: VideoEditorApp)
    ensures
        editor.wf() <==> {
            &&& editor.indexed()
            &&& forall|i: int|
                0 <= i < editor.playlist@.len() ==> (#[trigger] editor.playlist@[i]).id == i
            &&& editor.global_frame <= editor.total_frames
            &&& editor.current_clip_idx == 0 || editor.current_clip_idx < editor.playlist@.len()
        },
{
}

} // verus!
