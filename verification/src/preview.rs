//! The preview of a frame: scaling it down and turning it into an image for display.

use vstd::prelude::*;

verus! {

/// The largest width and height of a preview; larger frames are scaled down.
pub const MAX_UPLOAD_DIM: u32 = 960;

/// A frame of this size is too large for a preview.
pub open spec fn is_oversized(size: (u32, u32)) -> bool {
    size.0 > MAX_UPLOAD_DIM || size.1 > MAX_UPLOAD_DIM
}

/// Whether a frame of this size has to be scaled down for its preview.
pub fn needs_downscale(size: (u32, u32)) -> (r: bool)
    ensures
        r == is_oversized(size),
{
    size.0 > MAX_UPLOAD_DIM || size.1 > MAX_UPLOAD_DIM
}

// ---------------------------------------------------------------------------
// Images
// ---------------------------------------------------------------------------
/// egui's image in memory.
#[verifier::external_type_specification]
#[verifier::external_body]
pub struct ExColorImage(egui::ColorImage);

/// The pixels of an image, row by row from top to bottom: red, green, blue and alpha.
pub uninterp spec fn image_pixels(image: egui::ColorImage) -> Seq<(u8, u8, u8, u8)>;

/// The width and the height of an image.
pub uninterp spec fn image_size(image: egui::ColorImage) -> (usize, usize);

/// The pixels that flat RGB data stands for, all of them opaque.
pub open spec fn rgb_pixels(rgb: Seq<u8>) -> Seq<(u8, u8, u8, u8)> {
    Seq::new(rgb.len() / 3, |i: int| (rgb[3 * i], rgb[3 * i + 1], rgb[3 * i + 2], 255u8))
}

/// `egui::ColorImage::from_rgb` makes an image of the given width and height whose pixels
/// are the given RGB data, three bytes each, with an alpha of 255. It panics if the data is
/// not three bytes for each pixel.
pub assume_specification[ egui::ColorImage::from_rgb ](size: [usize; 2], rgb: &[u8]) -> (image:
    egui::ColorImage)
    requires
        size[0] * size[1] * 3 == rgb@.len(),
    ensures
        image_size(image) == (size[0], size[1]),
        image_pixels(image) == rgb_pixels(rgb@),
;

// ---------------------------------------------------------------------------
// Scaling
// ---------------------------------------------------------------------------
/// The pixel of the source that row `y` and column `x` of a preview show, as an index into
/// the source's pixels.
pub open spec fn source_pixel(
    src_width: u32,
    columns: Seq<u32>,
    rows: Seq<u32>,
    x: int,
    y: int,
) -> int {
    rows[y] * src_width + columns[x]
}

/// The RGB data of a preview that shows, in column `x` and row `y`, the pixel in column
/// `columns[x]` and row `rows[y]` of a frame.
pub open spec fn resampled(
    frame: Seq<u8>,
    src_width: u32,
    columns: Seq<u32>,
    rows: Seq<u32>,
) -> Seq<u8> {
    let width = columns.len() as int;
    Seq::new(
        3 * columns.len() * rows.len(),
        |i: int|
            frame[3 * source_pixel(src_width, columns, rows, (i / 3) % width, (i / 3) / width) + i
                % 3],
    )
}

/// All pixels that a preview shows lie in the frame, and can be counted in 32 bits; so can
/// those of the preview.
pub open spec fn can_resample(
    frame_len: nat,
    src_width: u32,
    columns: Seq<u32>,
    rows: Seq<u32>,
) -> bool {
    &&& columns.len() * rows.len() <= u32::MAX + 1
    &&& 3 * columns.len() * rows.len() <= usize::MAX
    &&& forall|x: int, y: int|
        0 <= x < columns.len() && 0 <= y < rows.len() ==> {
            &&& #[trigger] source_pixel(src_width, columns, rows, x, y) <= u32::MAX
            &&& 3 * source_pixel(src_width, columns, rows, x, y) + 3 <= frame_len
        }
}

/// Scales a frame: picks, for each pixel of the preview, the pixel of the frame that it shows.
pub fn resample(frame: &Vec<u8>, src_width: u32, columns: &Vec<u32>, rows: &Vec<u32>) -> (out: Vec<
    u8,
>)
    requires
        can_resample(frame@.len(), src_width, columns@, rows@),
    ensures
        out@ == resampled(frame@, src_width, columns@, rows@),
{
    let mut out: Vec<u8> = Vec::new();
    let ghost all = resampled(frame@, src_width, columns@, rows@);
    let ghost width = columns@.len() as int;
    let frame_len: usize = frame.len();
    assert(3 * (0 * width) == 0);
    for y in 0..rows.len()
        invariant
            can_resample(frame@.len(), src_width, columns@, rows@),
            all == resampled(frame@, src_width, columns@, rows@),
            width == columns@.len(),
            frame_len == frame@.len(),
            out@.len() == 3 * (y * width),
            out@.len() <= all.len(),
            out@ == all.take(out@.len() as int),
    {
        for x in 0..columns.len()
            invariant
                y < rows@.len(),
                can_resample(frame@.len(), src_width, columns@, rows@),
                all == resampled(frame@, src_width, columns@, rows@),
                width == columns@.len(),
                frame_len == frame@.len(),
                out@.len() == 3 * (y * width + x),
                out@.len() <= all.len(),
                out@ == all.take(out@.len() as int),
        {
            assert(source_pixel(src_width, columns@, rows@, x as int, y as int) <= u32::MAX);
            assert(rows@[y as int] * src_width >= 0) by (nonlinear_arith);
            let src: u32 = rows[y] * src_width + columns[x];
            let at: usize = src as usize;
            assert(3 * at + 3 <= frame_len);
            let ghost p = y * width + x;
            proof {
                assert(p + 1 <= columns@.len() * rows@.len()) by (nonlinear_arith)
                    requires
                        p == y * width + x,
                        x + 1 <= width,
                        y + 1 <= rows@.len(),
                        width == columns@.len(),
                ;
                assert(3 * (columns@.len() * rows@.len()) == all.len()) by (nonlinear_arith)
                    requires
                        all.len() == 3 * columns@.len() * rows@.len(),
                ;
                vstd::arithmetic::div_mod::lemma_fundamental_div_mod_converse(
                    p,
                    width,
                    y as int,
                    x as int,
                );
                assert(all[3 * p] == frame@[3 * at]);
                assert(all[3 * p + 1] == frame@[3 * at + 1]);
                assert(all[3 * p + 2] == frame@[3 * at + 2]);
            }
            let ghost before = out@;
            out.push(frame[3 * at]);
            out.push(frame[3 * at + 1]);
            out.push(frame[3 * at + 2]);
            proof {
                assert forall|i: int| 0 <= i < out@.len() implies out@[i] == all[i] by {
                    if i < before.len() {
                        assert(before[i] == all.take(before.len() as int)[i]);
                    }
                }
                assert(out@ =~= all.take(out@.len() as int));
            }
        }
        assert((y + 1) * width == y * width + width) by (nonlinear_arith);
    }
    proof {
        assert(all.len() == 3 * (rows@.len() * width)) by (nonlinear_arith)
            requires
                all.len() == 3 * columns@.len() * rows@.len(),
                width == columns@.len(),
        ;
        assert(out@ =~= all);
    }
    out
}

/// A preview of size `dst` can be made of a frame of size `src`: the frame is scaled if the
/// sizes differ, and otherwise shown as it is, which takes three bytes for each pixel.
pub open spec fn can_preview(
    frame_len: nat,
    src: (u32, u32),
    dst: (u32, u32),
    columns: Seq<u32>,
    rows: Seq<u32>,
) -> bool {
    if dst != src {
        &&& columns.len() == dst.0
        &&& rows.len() == dst.1
        &&& can_resample(frame_len, src.0, columns, rows)
    } else {
        frame_len == src.0 * src.1 * 3
    }
}

/// The RGB data of a preview.
pub open spec fn preview_rgb(
    frame: Seq<u8>,
    src: (u32, u32),
    dst: (u32, u32),
    columns: Seq<u32>,
    rows: Seq<u32>,
) -> Seq<u8> {
    if dst != src {
        resampled(frame, src.0, columns, rows)
    } else {
        frame
    }
}

/// The preview of a frame of size `src` as an image of size `dst`. If the two differ, column
/// `x` and row `y` of the image show column `columns[x]` and row `rows[y]` of the frame.
pub fn preview_image(
    frame: &Vec<u8>,
    src: (u32, u32),
    dst: (u32, u32),
    columns: &Vec<u32>,
    rows: &Vec<u32>,
) -> (image: egui::ColorImage)
    requires
        can_preview(frame@.len(), src, dst, columns@, rows@),
    ensures
        image_size(image) == (dst.0 as usize, dst.1 as usize),
        image_pixels(image) == rgb_pixels(preview_rgb(frame@, src, dst, columns@, rows@)),
{
    if dst.0 != src.0 || dst.1 != src.1 {
        let scaled = resample(frame, src.0, columns, rows);
        assert(scaled@.len() == (dst.0 as usize) * (dst.1 as usize) * 3) by (nonlinear_arith)
            requires
                scaled@.len() == 3 * columns@.len() * rows@.len(),
                columns@.len() == dst.0,
                rows@.len() == dst.1,
        ;
        egui::ColorImage::from_rgb([dst.0 as usize, dst.1 as usize], scaled.as_slice())
    } else {
        egui::ColorImage::from_rgb([dst.0 as usize, dst.1 as usize], frame.as_slice())
    }
}

/// The largest number in a list.
fn largest(list: &Vec<u32>) -> (r: Option<u32>)
    ensures
        match r {
            Some(m) => list@.contains(m) && forall|i: int| 0 <= i < list@.len() ==> list@[i] <= m,
            None => list@.len() == 0,
        },
{
    if list.len() == 0 {
        return None;
    }
    let mut m: u32 = list[0];
    assert(list@.contains(list@[0]));
    for i in 0..list.len()
        invariant
            list@.contains(m),
            forall|j: int| 0 <= j < i ==> list@[j] <= m,
    {
        if list[i] > m {
            m = list[i];
            assert(list@.contains(list@[i as int]));
        }
    }
    Some(m)
}

/// Whether a frame can be scaled with these columns and rows.
fn resample_fits(frame_len: usize, src_width: u32, columns: &Vec<u32>, rows: &Vec<u32>) -> (r: bool)
    ensures
        r == can_resample(frame_len as nat, src_width, columns@, rows@),
{
    let width: u128 = columns.len() as u128;
    let height: u128 = rows.len() as u128;
    assert(width * height <= 0xffff_ffff_ffff_ffff * 0xffff_ffff_ffff_ffff) by (nonlinear_arith)
        requires
            0 <= width <= 0xffff_ffff_ffff_ffff,
            0 <= height <= 0xffff_ffff_ffff_ffff,
    ;
    let pixels: u128 = width * height;
    assert(3 * columns@.len() * rows@.len() == 3 * (columns@.len() * rows@.len()))
        by (nonlinear_arith);
    assert(columns@.len() * rows@.len() == pixels);
    if pixels > 0x1_0000_0000 || 3 * pixels > usize::MAX as u128 {
        return false;
    }
    match (largest(columns), largest(rows)) {
        (Some(column), Some(row)) => {
            assert(row * src_width <= 0xffff_ffff * 0xffff_ffff) by (nonlinear_arith)
                requires
                    0 <= row <= 0xffff_ffff,
                    0 <= src_width <= 0xffff_ffff,
            ;
            let last: u128 = row as u128 * src_width as u128 + column as u128;
            let fits: bool = last <= 0xffff_ffff && 3 * last + 3 <= frame_len as u128;
            proof {
                let x = choose|x: int| 0 <= x < columns@.len() && columns@[x] == column;
                let y = choose|y: int| 0 <= y < rows@.len() && rows@[y] == row;
                assert(source_pixel(src_width, columns@, rows@, x, y) == last);
                assert forall|i: int, j: int|
                    0 <= i < columns@.len() && 0 <= j < rows@.len() implies #[trigger] source_pixel(
                    src_width,
                    columns@,
                    rows@,
                    i,
                    j,
                ) <= last by {
                    assert(rows@[j] * src_width <= row * src_width) by (nonlinear_arith)
                        requires
                            rows@[j] <= row,
                            src_width >= 0,
                    ;
                }
            }
            fits
        },
        _ => true,
    }
}

/// Whether a preview can be made.
pub fn preview_fits(
    frame: &Vec<u8>,
    src: (u32, u32),
    dst: (u32, u32),
    columns: &Vec<u32>,
    rows: &Vec<u32>,
) -> (r: bool)
    ensures
        r == can_preview(frame@.len(), src, dst, columns@, rows@),
{
    if dst.0 != src.0 || dst.1 != src.1 {
        columns.len() as u128 == dst.0 as u128 && rows.len() as u128 == dst.1 as u128
            && resample_fits(frame.len(), src.0, columns, rows)
    } else {
        assert(src.0 * src.1 <= 0xffff_ffff * 0xffff_ffff) by (nonlinear_arith)
            requires
                0 <= src.0 <= 0xffff_ffff,
                0 <= src.1 <= 0xffff_ffff,
        ;
        frame.len() as u128 == src.0 as u128 * src.1 as u128 * 3
    }
}

// ---------------------------------------------------------------------------
// Laws
// ---------------------------------------------------------------------------
/// Each pixel of a scaled preview is the pixel of the frame that its column and row stand
/// for, and it is opaque.
pub proof fn law_preview_pixel(
    frame: Seq<u8>,
    src: (u32, u32),
    dst: (u32, u32),
    columns: Seq<u32>,
    rows: Seq<u32>,
    x: int,
    y: int,
)
    requires
        dst != src,
        can_preview(frame.len(), src, dst, columns, rows),
        0 <= x < dst.0,
        0 <= y < dst.1,
    ensures
        rgb_pixels(preview_rgb(frame, src, dst, columns, rows)).len() == dst.0 * dst.1,
        rgb_pixels(preview_rgb(frame, src, dst, columns, rows))[y * dst.0 + x] == rgb_pixels(
            frame,
        )[rows[y] * src.0 + columns[x]],
{
    let scaled = resampled(frame, src.0, columns, rows);
    let p = y * dst.0 + x;
    assert(0 <= p < dst.0 * dst.1) by (nonlinear_arith)
        requires
            p == y * dst.0 + x,
            0 <= x < dst.0,
            0 <= y,
            y + 1 <= dst.1,
    ;
    assert(scaled.len() == 3 * (dst.0 * dst.1)) by (nonlinear_arith)
        requires
            scaled.len() == 3 * columns.len() * rows.len(),
            columns.len() == dst.0,
            rows.len() == dst.1,
    ;
    vstd::arithmetic::div_mod::lemma_fundamental_div_mod_converse(p, dst.0 as int, y, x);
    let q = source_pixel(src.0, columns, rows, x, y);
    assert(0 <= q) by {
        assert(rows[y] * src.0 >= 0) by (nonlinear_arith);
    }
    assert(scaled[3 * p] == frame[3 * q]);
    assert(scaled[3 * p + 1] == frame[3 * q + 1]);
    assert(scaled[3 * p + 2] == frame[3 * q + 2]);
}

/// Frames as the packing of a stream of one size leaves them can be shown as they are.
pub proof fn law_packed_frames_can_be_shown(
    stream: Seq<crate::frame::Decoded>,
    width: u32,
    height: u32,
    i: int,
)
    requires
        stream.len() > 0,
        forall|j: int|
            0 <= j < stream.len() ==> (#[trigger] stream[j]).width == width && stream[j].height
                == height,
        0 <= i < crate::frame::intake_of(stream).frames.len(),
    ensures
        can_preview(
            crate::frame::intake_of(stream).frames[i].len(),
            (width, height),
            (width, height),
            Seq::empty(),
            Seq::empty(),
        ),
{
    crate::frame::law_uniform_stream(stream, width, height);
    assert(3 * width * height == width * height * 3) by (nonlinear_arith);
}

/// Frames of up to 960 pixels each way are shown as they are, and no others.
pub proof fn law_upload_limit(size: (u32, u32))
    ensures
        is_oversized(size) <==> !(size.0 <= 960 && size.1 <= 960),
{
}

/// Three more bytes are one more pixel, and it is opaque.
pub proof fn law_three_bytes_are_a_pixel(rgb: Seq<u8>, red: u8, green: u8, blue: u8)
    requires
        rgb.len() % 3 == 0,
    ensures
        rgb_pixels(Seq::empty()) == Seq::<(u8, u8, u8, u8)>::empty(),
        rgb_pixels(rgb + seq![red, green, blue]) == rgb_pixels(rgb).push((red, green, blue, 255u8)),
{
    assert(rgb_pixels(Seq::empty()) =~= Seq::<(u8, u8, u8, u8)>::empty());
    assert(rgb_pixels(rgb + seq![red, green, blue]) =~= rgb_pixels(rgb).push(
        (red, green, blue, 255u8),
    ));
}

/// A frame of the size of its preview is shown as it is, if it has three bytes for each pixel.
pub proof fn law_frame_shown_as_it_is(
    frame: Seq<u8>,
    size: (u32, u32),
    columns: Seq<u32>,
    rows: Seq<u32>,
)
    ensures
        can_preview(frame.len(), size, size, columns, rows) <==> frame.len() == 3 * (size.0
            * size.1),
        preview_rgb(frame, size, size, columns, rows) == frame,
{
    assert(size.0 * size.1 * 3 == 3 * (size.0 * size.1)) by (nonlinear_arith);
}

/// A frame with all its pixels, whose number fits in 32 bits, can be scaled to any size within
/// the limit, whichever of its columns and rows are picked.
pub proof fn law_whole_frames_can_be_scaled(
    frame_len: nat,
    src: (u32, u32),
    dst: (u32, u32),
    columns: Seq<u32>,
    rows: Seq<u32>,
)
    requires
        frame_len == 3 * (src.0 * src.1),
        src.0 * src.1 <= u32::MAX + 1,
        dst != src,
        dst.0 <= 960,
        dst.1 <= 960,
        columns.len() == dst.0,
        rows.len() == dst.1,
        forall|x: int| 0 <= x < columns.len() ==> #[trigger] columns[x] < src.0,
        forall|y: int| 0 <= y < rows.len() ==> #[trigger] rows[y] < src.1,
    ensures
        can_preview(frame_len, src, dst, columns, rows),
{
    assert(columns.len() * rows.len() <= 960 * 960) by (nonlinear_arith)
        requires
            columns.len() <= 960,
            rows.len() <= 960,
    ;
    assert(3 * columns.len() * rows.len() == 3 * (columns.len() * rows.len())) by (nonlinear_arith);
    assert forall|x: int, y: int| 0 <= x < columns.len() && 0 <= y < rows.len() implies {
        &&& #[trigger] source_pixel(src.0, columns, rows, x, y) <= u32::MAX
        &&& 3 * source_pixel(src.0, columns, rows, x, y) + 3 <= frame_len
    } by {
        assert(rows[y] * src.0 + columns[x] + 1 <= src.0 * src.1) by (nonlinear_arith)
            requires
                rows[y] + 1 <= src.1,
                columns[x] + 1 <= src.0,
                src.0 >= 0,
        ;
    }
}

} // verus!
