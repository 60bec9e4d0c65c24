use rust_video_editor::frame::{pack_frame, ClipBuilder, FrameRate};
use rust_video_editor::preview::{needs_downscale, preview_fits, preview_image, resample};

fn bytes(n: usize) -> Vec<u8> {
    (0..n).map(|i| i as u8).collect()
}

#[test]
fn rows_are_packed_without_gaps() {
    let data = bytes(16);
    assert_eq!(
        pack_frame(&data, 2, 2, 8),
        Some(vec![0, 1, 2, 3, 4, 5, 8, 9, 10, 11, 12, 13])
    );
    assert_eq!(pack_frame(&data, 2, 2, 6), Some(bytes(12)));
}

#[test]
fn frames_without_enough_bytes_are_left_out() {
    let data = bytes(15);
    assert_eq!(pack_frame(&data, 2, 2, 8), None);
    assert_eq!(pack_frame(&data, 3, 2, 0), None);
    assert_eq!(pack_frame(&data, 0, 2, 8), None);
    assert_eq!(pack_frame(&data, 2, 0, 8), None);
    assert_eq!(pack_frame(&data, u32::MAX, u32::MAX, 8), None);
    assert_eq!(pack_frame(&data, 1, u32::MAX, 1 << 40), None);
}

#[test]
fn short_rows_are_taken_as_packed() {
    let data = bytes(15);
    assert_eq!(pack_frame(&data, 2, 2, 5), Some(bytes(12)));
    assert_eq!(pack_frame(&data, 2, 2, -8isize as usize), Some(bytes(12)));
}

#[test]
fn a_clip_has_the_size_of_its_first_frame() {
    let mut builder = ClipBuilder::new();
    builder.push_frame(&[], 4, 2, 12);
    builder.push_frame(&bytes(6), 2, 1, 6);
    builder.push_frame(&bytes(3), 2, 1, 6);
    builder.push_frame(&bytes(8), 2, 1, 8);
    let clip = builder.finish("movie.mp4", (30000, 1001), (7, 8));
    assert_eq!(clip.size, (4, 2));
    assert_eq!(clip.frames, vec![bytes(6), bytes(6)]);
    assert_eq!(clip.video_path_input, "movie.mp4");
    assert_eq!(clip.fps, FrameRate { num: 30000, den: 1001 });
}

#[test]
fn a_clip_without_frames_has_the_size_of_the_decoder() {
    let clip = ClipBuilder::new().finish("x", (0, 0), (7, 8));
    assert_eq!(clip.size, (7, 8));
    assert!(clip.frames.is_empty());
    assert_eq!(clip.fps, FrameRate { num: 60, den: 1 });
}

#[test]
fn frame_rates_are_positive_as_numbers_are() {
    for num in [i32::MIN, -30, -1, 0, 1, 30, i32::MAX] {
        for den in [i32::MIN, -1, 1, 1001, i32::MAX] {
            let rate = FrameRate::of_stream(num, den);
            assert_eq!(rate.is_positive(), num as f32 / den as f32 > 0.0);
        }
    }
}

#[test]
fn large_frames_need_scaling() {
    assert!(!needs_downscale((960, 960)));
    assert!(needs_downscale((961, 1)));
    assert!(needs_downscale((1, 961)));
}

#[test]
fn scaling_picks_pixels() {
    let frame = bytes(27);
    let scaled = resample(&frame, 3, &vec![0, 2], &vec![1]);
    assert_eq!(scaled, vec![9, 10, 11, 15, 16, 17]);
}

#[test]
fn previews_show_the_picked_pixels() {
    let frame = bytes(27);
    let (columns, rows) = (vec![0, 2], vec![1]);
    assert!(preview_fits(&frame, (3, 3), (2, 1), &columns, &rows));
    let image = preview_image(&frame, (3, 3), (2, 1), &columns, &rows);
    assert_eq!(image.size, [2, 1]);
    assert_eq!(
        image.pixels,
        vec![egui::Color32::from_rgb(9, 10, 11), egui::Color32::from_rgb(15, 16, 17)]
    );
}

#[test]
fn previews_of_the_same_size_show_the_frame() {
    let frame = bytes(6);
    assert!(preview_fits(&frame, (2, 1), (2, 1), &vec![], &vec![]));
    let image = preview_image(&frame, (2, 1), (2, 1), &vec![], &vec![]);
    assert_eq!(image.size, [2, 1]);
    assert_eq!(image.pixels[1].to_array(), [3, 4, 5, 255]);
}

#[test]
fn previews_that_cannot_be_made() {
    let frame = bytes(27);
    assert!(!preview_fits(&frame, (3, 4), (3, 4), &vec![], &vec![]));
    assert!(!preview_fits(&frame, (3, 3), (2, 1), &vec![0], &vec![1]));
    assert!(!preview_fits(&frame, (3, 3), (2, 1), &vec![0, 3], &vec![2]));
    assert!(preview_fits(&frame, (3, 3), (2, 1), &vec![0, 2], &vec![2]));
    assert!(!preview_fits(&frame, (u32::MAX, 3), (2, 1), &vec![0, 2], &vec![u32::MAX]));
}
