//! Video frames: packing decoded frames, and the clips made of them.

use vstd::prelude::*;
use vstd::slice::slice_subrange;

verus! {

/// A frame rate as a fraction: frames per second, `num` over `den`.
#[derive(Clone, Copy, PartialEq, Eq, Structural, Debug)]
pub struct FrameRate {
    pub num: i32,
    pub den: i32,
}

impl FrameRate {
    /// The rate is greater than zero.
    pub open spec fn positive(self) -> bool {
        (self.num > 0 && self.den > 0) || (self.num < 0 && self.den < 0)
    }

    /// The rate of a stream that reports `num` over `den`: sixty frames per second if that
    /// is no number.
    pub fn of_stream(num: i32, den: i32) -> (r: FrameRate)
        ensures
            den != 0 ==> r == (FrameRate { num, den }),
            den == 0 ==> r == (FrameRate { num: 60, den: 1 }),
    {
        if den != 0 {
            FrameRate { num, den }
        } else {
            FrameRate { num: 60, den: 1 }
        }
    }

    /// Whether the rate is greater than zero.
    pub fn is_positive(self) -> (r: bool)
        ensures
            r == self.positive(),
    {
        (self.num > 0 && self.den > 0) || (self.num < 0 && self.den < 0)
    }
}

// ---------------------------------------------------------------------------
// Packing
// ---------------------------------------------------------------------------
/// The length of a row in memory, in bytes; a negative one counts as zero.
pub open spec fn row_pitch(stride: usize) -> nat {
    if stride <= isize::MAX {
        stride as nat
    } else {
        0
    }
}

/// The pixels of a decoded frame, three bytes each, row after row without gaps.
///
/// A frame without pixels has none. Rows that are shorter in memory than their pixels are
/// taken to lie there without gaps already. Nothing is packed where bytes are missing.
pub open spec fn packed_frame(data: Seq<u8>, width: nat, height: nat, pitch: nat) -> Option<
    Seq<u8>,
> {
    let row = 3 * width;
    if row == 0 || height == 0 {
        None
    } else if pitch < row {
        if data.len() >= row * height {
            Some(data.take((row * height) as int))
        } else {
            None
        }
    } else if data.len() >= pitch * height {
        Some(
            Seq::new(
                row * height,
                |i: int| data[(i / row as int) * pitch + i % (row as int)],
            ),
        )
    } else {
        None
    }
}

/// Packs the rows of a frame.
fn pack_rows(data: &[u8], row: usize, height: usize, pitch: usize) -> (packed: Vec<u8>)
    requires
        0 < row <= pitch,
        pitch * height <= data@.len(),
    ensures
        packed@ == Seq::new(
            (row * height) as nat,
            |i: int| data@[(i / row as int) * pitch + i % (row as int)],
        ),
{
    let mut packed: Vec<u8> = Vec::new();
    let ghost all = Seq::new(
        (row * height) as nat,
        |i: int| data@[(i / row as int) * pitch + i % (row as int)],
    );
    assert(0 * row == 0 && 0 * pitch == 0);
    let len: usize = data.len();
    let mut src: usize = 0;
    for y in 0..height
        invariant
            0 < row <= pitch,
            pitch * height <= len == data@.len(),
            all == Seq::new(
                (row * height) as nat,
                |i: int| data@[(i / row as int) * pitch + i % (row as int)],
            ),
            src == y * pitch,
            packed@.len() == y * row,
            y * row <= row * height,
            packed@ == all.take(y * row),
    {
        assert(src + pitch <= pitch * height) by (nonlinear_arith)
            requires
                src == y * pitch,
                y + 1 <= height,
                pitch >= 0,
        ;
        assert((y + 1) * row == y * row + row) by (nonlinear_arith);
        assert((y + 1) * pitch == y * pitch + pitch) by (nonlinear_arith);
        assert((y + 1) * row <= row * height) by (nonlinear_arith)
            requires
                y + 1 <= height,
                row >= 0,
        ;
        let ghost before = packed@;
        packed.extend_from_slice(slice_subrange(data, src, src + row));
        proof {
            assert forall|i: int| 0 <= i < (y + 1) * row implies packed@[i] == all[i] by {
                if i < y * row {
                    assert(packed@[i] == before[i]);
                    assert(before[i] == all.take(y * row)[i]);
                } else {
                    let x = i - y * row;
                    assert(packed@[i] == data@[src + x]);
                    vstd::arithmetic::div_mod::lemma_fundamental_div_mod_converse(
                        i,
                        row as int,
                        y as int,
                        x,
                    );
                }
            }
            assert(packed@ =~= all.take((y + 1) * row));
        }
        src = src + pitch;
    }
    proof {
        assert(height * row == row * height) by (nonlinear_arith);
        assert(packed@ =~= all);
    }
    packed
}

/// Packs a decoded frame, unless there is nothing to pack.
pub fn pack_frame(data: &[u8], width: u32, height: u32, stride: usize) -> (r: Option<Vec<u8>>)
    ensures
        match r {
            Some(packed) => packed_frame(data@, width as nat, height as nat, row_pitch(stride))
                == Some(packed@),
            None => packed_frame(data@, width as nat, height as nat, row_pitch(stride)) is None,
        },
{
    let pitch: usize = if stride <= isize::MAX as usize {
        stride
    } else {
        0
    };
    let row: u128 = 3 * width as u128;
    if row == 0 || height == 0 {
        return None;
    }
    let rows: u128 = height as u128;
    proof {
        assert(row * rows <= 0x3_ffff_ffff * 0xffff_ffff) by (nonlinear_arith)
            requires
                0 <= row <= 0x3_ffff_ffff,
                0 <= rows <= 0xffff_ffff,
        ;
        assert(pitch * rows <= 0xffff_ffff_ffff_ffff * 0xffff_ffff) by (nonlinear_arith)
            requires
                0 <= pitch <= 0xffff_ffff_ffff_ffff,
                0 <= rows <= 0xffff_ffff,
        ;
    }
    let expected: u128 = row * rows;
    if (pitch as u128) < row {
        if (data.len() as u128) < expected {
            return None;
        }
        let pixels = slice_subrange(data, 0, expected as usize);
        let mut packed: Vec<u8> = Vec::new();
        packed.extend_from_slice(pixels);
        assert(packed@ =~= data@.take(expected as int));
        Some(packed)
    } else {
        if (data.len() as u128) < pitch as u128 * rows {
            return None;
        }
        assert(height as usize == rows && pitch * (height as usize) == pitch * rows);
        Some(pack_rows(data, row as usize, height as usize, pitch))
    }
}

// ---------------------------------------------------------------------------
// Clips
// ---------------------------------------------------------------------------
/// A video in memory.
pub struct VideoClip {
    pub video_path_input: String,
    pub size: (u32, u32),
    pub fps: FrameRate,
    pub frames: Vec<Vec<u8>>,
}

/// The bytes of a list of frames.
pub open spec fn frames_of(frames: Seq<Vec<u8>>) -> Seq<Seq<u8>> {
    Seq::new(frames.len(), |i: int| frames[i]@)
}

/// A frame as a decoder hands it out.
pub struct Decoded {
    pub data: Seq<u8>,
    pub width: u32,
    pub height: u32,
    pub stride: usize,
}

impl Decoded {
    /// Its packed pixels, if there are any.
    pub open spec fn packed(self) -> Option<Seq<u8>> {
        packed_frame(self.data, self.width as nat, self.height as nat, row_pitch(self.stride))
    }
}

/// What has been taken in of a stream: the size of its first frame, and the packed frames.
pub struct Intake {
    pub first_size: Option<(u32, u32)>,
    pub frames: Seq<Seq<u8>>,
}

impl Intake {
    /// The intake after one more frame. A frame that cannot be packed is left out.
    pub open spec fn after(self, frame: Decoded) -> Intake {
        Intake {
            first_size: if self.first_size is Some {
                self.first_size
            } else {
                Some((frame.width, frame.height))
            },
            frames: match frame.packed() {
                Some(packed) => self.frames.push(packed),
                None => self.frames,
            },
        }
    }
}

/// Collects the frames of a stream, one after the other.
pub struct ClipBuilder {
    pub first_size: Option<(u32, u32)>,
    pub frames: Vec<Vec<u8>>,
}

impl View for ClipBuilder {
    type V = Intake;

    open spec fn view(&self) -> Intake {
        Intake { first_size: self.first_size, frames: frames_of(self.frames@) }
    }
}

impl ClipBuilder {
    /// Nothing taken in yet.
    pub fn new() -> (r: ClipBuilder)
        ensures
            r@ == (Intake { first_size: None, frames: Seq::empty() }),
    {
        let r = ClipBuilder { first_size: None, frames: Vec::new() };
        assert(frames_of(r.frames@) =~= Seq::empty());
        r
    }

    /// Takes in a decoded frame.
    pub fn push_frame(&mut self, data: &[u8], width: u32, height: u32, stride: usize)
        ensures
            final(self)@ == old(self)@.after(Decoded { data: data@, width, height, stride }),
    {
        if self.first_size.is_none() {
            self.first_size = Some((width, height));
        }
        let ghost before = self.frames@;
        if let Some(packed) = pack_frame(data, width, height, stride) {
            self.frames.push(packed);
            assert(frames_of(self.frames@) =~= frames_of(before).push(packed@));
        }
    }

    /// The clip of the frames that were taken in. It has the size of the first frame; if
    /// there was none, that of the decoder.
    pub fn finish(self, path: &str, rate: (i32, i32), decoder_size: (u32, u32)) -> (r: VideoClip)
        ensures
            r.video_path_input@ == path@,
            r.size == (match self.first_size {
                Some(size) => size,
                None => decoder_size,
            }),
            r.fps == (if rate.1 != 0 {
                FrameRate { num: rate.0, den: rate.1 }
            } else {
                FrameRate { num: 60, den: 1 }
            }),
            r.frames == self.frames,
    {
        let size = match self.first_size {
            Some(size) => size,
            None => decoder_size,
        };
        VideoClip {
            video_path_input: path.to_string(),
            size,
            fps: FrameRate::of_stream(rate.0, rate.1),
            frames: self.frames,
        }
    }
}

// ---------------------------------------------------------------------------
// Laws
// ---------------------------------------------------------------------------
/// A packed frame has three bytes for each of its pixels, and the bytes of pixel `x` in row
/// `y` are those at that place of the row in memory.
pub proof fn law_packed_pixels(
    data: Seq<u8>,
    width: nat,
    height: nat,
    pitch: nat,
    x: nat,
    y: nat,
    channel: nat,
)
    requires
        packed_frame(data, width, height, pitch) is Some,
        x < width,
        y < height,
        channel < 3,
    ensures
        packed_frame(data, width, height, pitch)->0.len() == 3 * width * height,
        packed_frame(data, width, height, pitch)->0[(3 * (y * width + x) + channel) as int] == data[(y
            * (if pitch < 3 * width {
            3 * width
        } else {
            pitch
        }) + 3 * x + channel) as int],
{
    let row = 3 * width;
    let i = 3 * (y * width + x) + channel;
    let within = 3 * x + channel;
    assert(i == y * row + within) by (nonlinear_arith)
        requires
            i == 3 * (y * width + x) + channel,
            within == 3 * x + channel,
            row == 3 * width,
    ;
    assert(i < row * height) by (nonlinear_arith)
        requires
            i == y * row + within,
            within < row,
            y + 1 <= height,
    ;
    assert(row * height == 3 * width * height) by (nonlinear_arith)
        requires
            row == 3 * width,
    ;
    vstd::arithmetic::div_mod::lemma_fundamental_div_mod_converse(
        i as int,
        row as int,
        y as int,
        within as int,
    );
}

/// The intake of a whole stream.
pub open spec fn intake_of(stream: Seq<Decoded>) -> Intake
    decreases stream.len(),
{
    if stream.len() == 0 {
        Intake { first_size: None, frames: Seq::empty() }
    } else {
        intake_of(stream.drop_last()).after(stream.last())
    }
}

/// If the frames of a stream are all of one size, the clip has that size, and each of its
/// frames has three bytes for each pixel of it.
pub proof fn law_uniform_stream(stream: Seq<Decoded>, width: u32, height: u32)
    requires
        stream.len() > 0,
        forall|i: int|
            0 <= i < stream.len() ==> (#[trigger] stream[i]).width == width && stream[i].height
                == height,
    ensures
        intake_of(stream).first_size == Some((width, height)),
        forall|i: int|
            0 <= i < intake_of(stream).frames.len() ==> (#[trigger] intake_of(
                stream,
            ).frames[i]).len() == 3 * width * height,
    decreases stream.len(),
{
    let rest = stream.drop_last();
    let frame = stream[stream.len() - 1];
    assert(frame.width == width && frame.height == height);
    if rest.len() > 0 {
        assert forall|i: int| 0 <= i < rest.len() implies (#[trigger] rest[i]).width == width
            && rest[i].height == height by {
            assert(rest[i] == stream[i]);
        }
        law_uniform_stream(rest, width, height);
    }
    if frame.packed() is Some {
        law_packed_pixels(
            frame.data,
            width as nat,
            height as nat,
            row_pitch(frame.stride),
            0,
            0,
            0,
        );
    }
}

/// A frame is packed if it has pixels and if the memory holds all of its rows, each as long
/// as its pixels at least.
pub proof fn law_when_frames_are_packed(data: Seq<u8>, width: nat, height: nat, pitch: nat)
    ensures
        packed_frame(data, width, height, pitch) is Some <==> width > 0 && height > 0 && data.len()
            >= (if pitch < 3 * width {
            3 * width
        } else {
            pitch
        }) * height,
{
}

/// A row is as long in memory as the decoder says, unless that is negative as a signed number.
pub proof fn law_row_pitch(stride: usize)
    ensures
        stride <= isize::MAX ==> row_pitch(stride) == stride,
        stride > isize::MAX ==> row_pitch(stride) == 0,
{
}

/// A stream is taken in frame by frame: the first frame of all gives the size, and those that
/// can be packed are kept, in order.
pub proof fn law_frames_are_taken_in_order(stream: Seq<Decoded>, frame: Decoded)
    ensures
        intake_of(Seq::empty()) == (Intake { first_size: None, frames: Seq::empty() }),
        stream.len() > 0 ==> intake_of(stream).first_size == Some(
            (stream[0].width, stream[0].height),
        ),
        ({
            let packed = packed_frame(
                frame.data,
                frame.width as nat,
                frame.height as nat,
                row_pitch(frame.stride),
            );
            &&& packed is Some ==> intake_of(stream.push(frame)).frames == intake_of(
                stream,
            ).frames.push(packed->0)
            &&& packed is None ==> intake_of(stream.push(frame)).frames == intake_of(stream).frames
        }),
    decreases stream.len(),
{
    assert(stream.push(frame).drop_last() =~= stream);
    if stream.len() > 0 {
        law_frames_are_taken_in_order(stream.drop_last(), frame);
        if stream.len() == 1 {
            assert(stream.drop_last() =~= Seq::<Decoded>::empty());
        }
    }
}

/// One more frame keeps the size once there is one.
pub proof fn law_first_frame_gives_the_size(intake: Intake, frame: Decoded)
    ensures
        intake.first_size is Some ==> intake.after(frame).first_size == intake.first_size,
        intake.first_size is None ==> intake.after(frame).first_size == Some(
            (frame.width, frame.height),
        ),
        intake.after(frame).frames == (match packed_frame(
            frame.data,
            frame.width as nat,
            frame.height as nat,
            row_pitch(frame.stride),
        ) {
            Some(packed) => intake.frames.push(packed),
            None => intake.frames,
        }),
{
}

/// What a builder has taken in is the size and the frames that it holds.
pub proof fn law_value_of_a_builder(builder: ClipBuilder, i: int)
    ensures
        builder@.first_size == builder.first_size,
        builder@.frames.len() == builder.frames@.len(),
        0 <= i < builder.frames@.len() ==> builder@.frames[i] == builder.frames@[i]@,
{
}

} // verus!
