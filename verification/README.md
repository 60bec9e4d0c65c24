# rust_video_editor

The logic of a small video editor, verified with Verus.

- `src/text.rs`: trimming, splitting, decimal numbers
- `src/timecode.rs`: SRT timecodes and ASS timestamps
- `src/subtitle.rs`: reading SRT subtitles
- `src/ass.rs`: writing ASS scripts
- `src/frame.rs`: packing decoded frames, collecting the frames of a clip
- `src/preview.rs`: preview images
- `src/editor.rs`: the playlist, its timeline, cutting, playing
- `src/export.rs`: the encoder's command line and the course of an export

`app/` is the program around the library: the window (eframe), decoding (ffmpeg) and running
the encoder. It reads `fonts/keifont.ttf` from the working directory if it is there. Frame
rates are rational numbers in the library; what is computed with floating point, such as the
frame shown at a time in seconds, is computed in `app/`.

Subtitle times are computed in 64 bits. `srt_times_fit` tells beforehand whether all times of
a text fit.
