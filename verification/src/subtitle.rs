//! Subtitles in the SRT format.

use crate::text::chars_of;
use crate::text::digit;
use crate::text::push_chars;
use crate::text::split_chars;
use crate::text::trim_chars;
use crate::timecode::read_srt_time;
use crate::timecode::TimeReading;
use vstd::prelude::*;
use vstd::slice::slice_subrange;

verus! {

/// A subtitle: what is shown, and from when until when.
#[derive(Clone, Debug)]
pub struct SubtitleItem {
    pub start_ms: u64,
    pub end_ms: u64,
    pub text: String,
}

/// The mathematical value of a subtitle.
pub struct Cue {
    pub start_ms: nat,
    pub end_ms: nat,
    pub text: Seq<char>,
}

impl View for SubtitleItem {
    type V = Cue;

    open spec fn view(&self) -> Cue {
        Cue { start_ms: self.start_ms as nat, end_ms: self.end_ms as nat, text: self.text@ }
    }
}

/// The values of a list of subtitles.
pub open spec fn cues_of(items: Seq<SubtitleItem>) -> Seq<Cue> {
    Seq::new(items.len(), |i: int| items[i]@)
}

// ---------------------------------------------------------------------------
// What an SRT text says
// ---------------------------------------------------------------------------
/// The position of the first `-->` in a line, or the length of the line if there is none.
pub open spec fn arrow(line: Seq<char>) -> nat
    decreases line.len(),
{
    if line.len() < 3 {
        line.len()
    } else if line[0] == '-' && line[1] == '-' && line[2] == '>' {
        0
    } else {
        1 + arrow(line.drop_first())
    }
}

/// A timecode line is one with a `-->` in it.
pub open spec fn is_timecode_line(line: Seq<char>) -> bool {
    arrow(line) < line.len()
}

/// What stands before the first `-->`.
pub open spec fn start_text(line: Seq<char>) -> Seq<char> {
    line.take(arrow(line) as int)
}

/// What stands between the first `-->` and the second, or the end of the line.
pub open spec fn end_text(line: Seq<char>) -> Seq<char> {
    let rest = line.skip(arrow(line) as int + 3);
    rest.take(arrow(rest) as int)
}

/// The start and the end that a timecode line gives.
pub open spec fn line_times(line: Seq<char>) -> Option<(nat, nat)> {
    match (
        crate::timecode::srt_time(start_text(line)),
        crate::timecode::srt_time(end_text(line)),
    ) {
        (Some(start), Some(end)) => Some((start, end)),
        _ => None,
    }
}

/// The lines of a text, without the white space round them. (A carriage return at the end
/// of a line is white space.)
pub open spec fn srt_lines(srt: Seq<char>) -> Seq<Seq<char>> {
    crate::text::split_on(srt, '\n').map_values(|line: Seq<char>| crate::text::trim(line))
}

/// The first line from `i` on that ends the text of a cue: a blank line, a timecode line,
/// or the end of the lines.
pub open spec fn text_end(lines: Seq<Seq<char>>, i: int) -> int
    decreases lines.len() - i,
{
    if i >= lines.len() || lines[i].len() == 0 || is_timecode_line(lines[i]) {
        i
    } else {
        text_end(lines, i + 1)
    }
}

/// The cue that line `i` opens: line `i` gives its two times, the end being later than the
/// start, and the lines behind it, up to a blank line or another timecode line, its text,
/// of which there must be some.
pub open spec fn cue_at(lines: Seq<Seq<char>>, i: int) -> Option<Cue> {
    let text = crate::text::trim(
        crate::text::join(lines.subrange(i + 1, text_end(lines, i + 1)), '\n'),
    );
    if is_timecode_line(lines[i]) && text.len() > 0 {
        match line_times(lines[i]) {
            Some((start, end)) => if end > start {
                Some(Cue { start_ms: start, end_ms: end, text })
            } else {
                None
            },
            None => None,
        }
    } else {
        None
    }
}

/// The cues that the first `n` lines open, in order.
pub open spec fn cues_before(lines: Seq<Seq<char>>, n: int) -> Seq<Cue>
    decreases n,
{
    if n <= 0 {
        Seq::empty()
    } else {
        match cue_at(lines, n - 1) {
            Some(cue) => cues_before(lines, n - 1).push(cue),
            None => cues_before(lines, n - 1),
        }
    }
}

/// The cues of an SRT text.
pub open spec fn srt_cues(srt: Seq<char>) -> Seq<Cue> {
    cues_before(srt_lines(srt), srt_lines(srt).len() as int)
}

/// Both times of a timecode line can be computed in 64 bits.
pub open spec fn line_times_fit(line: Seq<char>) -> bool {
    &&& crate::timecode::srt_time_fits(start_text(line))
    &&& crate::timecode::srt_time_fits(end_text(line))
}

/// All times in an SRT text can be computed in 64 bits.
pub open spec fn times_fit(srt: Seq<char>) -> bool {
    forall|i: int|
        0 <= i < srt_lines(srt).len() && is_timecode_line(#[trigger] srt_lines(srt)[i])
            ==> line_times_fit(srt_lines(srt)[i])
}

// ---------------------------------------------------------------------------
// Reading it
// ---------------------------------------------------------------------------
/// `arrow` is the least position at which an arrow stands.
proof fn lemma_arrow_is(line: Seq<char>, at: int)
    requires
        0 <= at,
        at + 3 <= line.len() ==> line[at] == '-' && line[at + 1] == '-' && line[at + 2] == '>',
        at + 3 > line.len() ==> at == line.len(),
        forall|i: int|
            0 <= i < at && i + 3 <= line.len() ==> !(#[trigger] line[i] == '-' && line[i + 1] == '-'
                && line[i + 2] == '>'),
    ensures
        arrow(line) == at,
    decreases line.len(),
{
    if line.len() >= 3 && at > 0 {
        assert(!(line[0] == '-' && line[1] == '-' && line[2] == '>'));
        let rest = line.drop_first();
        assert forall|i: int| 0 <= i < at - 1 && i + 3 <= rest.len() implies !(#[trigger] rest[i]
            == '-' && rest[i + 1] == '-' && rest[i + 2] == '>') by {
            assert(rest[i] == line[i + 1]);
        }
        lemma_arrow_is(rest, at - 1);
    }
}

/// The position of the first `-->`, or the length of the line.
fn find_arrow(line: &[char]) -> (at: usize)
    ensures
        at == arrow(line@),
        at <= line.len(),
        at < line.len() ==> at + 3 <= line.len(),
{
    let mut at: usize = 0;
    if line.len() < 3 {
        return line.len();
    }
    while at <= line.len() - 3
        invariant
            line.len() >= 3,
            at <= line.len() - 2,
            forall|i: int|
                0 <= i < at && i + 3 <= line@.len() ==> !(#[trigger] line@[i] == '-' && line@[i + 1]
                    == '-' && line@[i + 2] == '>'),
        decreases line.len() - at,
    {
        if line[at] == '-' && line[at + 1] == '-' && line[at + 2] == '>' {
            proof {
                lemma_arrow_is(line@, at as int);
            }
            return at;
        }
        at = at + 1;
    }
    proof {
        lemma_arrow_is(line@, line@.len() as int);
    }
    line.len()
}

/// What a timecode line says about the times of a cue.
enum LineReading {
    /// One of the two times is no timecode.
    Malformed,
    /// One of the two times cannot be computed in 64 bits.
    OutOfRange,
    /// The start and the end.
    Times(u64, u64),
}

/// Reads the two times of a timecode line.
fn read_line_times(line: &[char], at: usize) -> (r: LineReading)
    requires
        at == arrow(line@),
        at + 3 <= line.len(),
    ensures
        match r {
            LineReading::Malformed => line_times(line@) is None && line_times_fit(line@),
            LineReading::OutOfRange => !line_times_fit(line@),
            LineReading::Times(start, end) => line_times(line@) == Some((start as nat, end as nat))
                && line_times_fit(line@),
        },
{
    let rest = slice_subrange(line, at + 3, line.len());
    let second = find_arrow(rest);
    let start_str = slice_subrange(line, 0, at);
    let end_str = slice_subrange(rest, 0, second);
    assert(start_str@ == start_text(line@));
    assert(rest@ == line@.skip(at + 3));
    assert(end_str@ == end_text(line@));
    let start = read_srt_time(start_str);
    let end = read_srt_time(end_str);
    match (start, end) {
        (TimeReading::OutOfRange, _) => LineReading::OutOfRange,
        (_, TimeReading::OutOfRange) => LineReading::OutOfRange,
        (TimeReading::Millis(s), TimeReading::Millis(e)) => LineReading::Times(s, e),
        _ => LineReading::Malformed,
    }
}

/// Joins lines with line feeds.
fn join_lines(lines: &Vec<&[char]>) -> (r: Vec<char>)
    ensures
        r@ == crate::text::join(crate::text::views(lines@), '\n'),
{
    let mut out: Vec<char> = Vec::new();
    let ghost all = crate::text::views(lines@);
    for i in 0..lines.len()
        invariant
            all == crate::text::views(lines@),
            out@ == crate::text::join(all.take(i as int), '\n'),
    {
        let ghost before = out@;
        if i > 0 {
            out.push('\n');
        }
        let line = lines[i];
        out.extend_from_slice(line);
        proof {
            assert(all.take(i + 1).drop_last() == all.take(i as int));
            assert(all.take(i + 1).last() == line@);
            if i > 0 {
                assert(out@ =~= before.push('\n') + line@);
            } else {
                assert(out@ =~= line@);
            }
        }
    }
    assert(all.take(all.len() as int) == all);
    out
}

/// What closing the open cue, if there is one, makes of the cues so far.
#[verifier::opaque]
spec fn closed_cues(done: Seq<Cue>, open: Option<(u64, u64)>, lines: Seq<Seq<char>>) -> Seq<Cue> {
    let text = crate::text::trim(crate::text::join(lines, '\n'));
    match open {
        Some((start, end)) => if text.len() > 0 && end > start {
            done.push(Cue { start_ms: start as nat, end_ms: end as nat, text })
        } else {
            done
        },
        None => done,
    }
}

/// Closes the open cue: it becomes an item if it has a text and ends after its start.
fn flush(items: &mut Vec<SubtitleItem>, open: Option<(u64, u64)>, lines: &Vec<&[char]>)
    ensures
        cues_of(final(items)@) == closed_cues(
            cues_of(old(items)@),
            open,
            crate::text::views(lines@),
        ),
{
    reveal(closed_cues);
    if let Some((start, end)) = open {
        let joined = join_lines(lines);
        let trimmed = trim_chars(joined.as_slice());
        if trimmed.len() > 0 && end > start {
            let mut text = String::new();
            push_chars(&mut text, trimmed);
            let ghost before = items@;
            items.push(SubtitleItem { start_ms: start, end_ms: end, text });
            proof {
                assert(text@ =~= trimmed@);
                assert(cues_of(items@) =~= cues_of(before).push(
                    Cue { start_ms: start as nat, end_ms: end as nat, text: trimmed@ },
                ));
            }
        }
    }
}

/// What holds when the first `k` lines have been read: `done` are the cues before the open
/// one, which line `at` opened and whose text so far is `text`.
#[verifier::opaque]
spec fn reading(
    lines: Seq<Seq<char>>,
    k: int,
    done: Seq<Cue>,
    open: Option<(u64, u64)>,
    text: Seq<Seq<char>>,
    at: int,
) -> bool {
    match open {
        None => done == cues_before(lines, k) && text.len() == 0,
        Some((start, end)) => {
            &&& 0 <= at < k
            &&& done == cues_before(lines, at)
            &&& is_timecode_line(lines[at])
            &&& line_times(lines[at]) == Some((start as nat, end as nat))
            &&& text == lines.subrange(at + 1, k)
            &&& forall|j: int|
                at < j < k ==> (#[trigger] lines[j]).len() > 0 && !is_timecode_line(lines[j])
        },
    }
}

/// Lines that are no timecode lines open no cues.
proof fn lemma_no_cues_between(lines: Seq<Seq<char>>, from: int, to: int)
    requires
        0 <= from <= to,
        forall|j: int| from <= j < to ==> !is_timecode_line(#[trigger] lines[j]),
    ensures
        cues_before(lines, to) == cues_before(lines, from),
    decreases to - from,
{
    if from < to {
        assert(!is_timecode_line(lines[to - 1]));
        lemma_no_cues_between(lines, from, to - 1);
    }
}

/// The text of a cue ends where all lines before carry text and the next does not.
proof fn lemma_text_end_is(lines: Seq<Seq<char>>, from: int, k: int)
    requires
        0 <= from <= k <= lines.len(),
        forall|j: int|
            from <= j < k ==> (#[trigger] lines[j]).len() > 0 && !is_timecode_line(lines[j]),
        k == lines.len() || lines[k].len() == 0 || is_timecode_line(lines[k]),
    ensures
        text_end(lines, from) == k,
    decreases k - from,
{
    if from < k {
        assert(lines[from].len() > 0 && !is_timecode_line(lines[from]));
        lemma_text_end_is(lines, from + 1, k);
    }
}

/// Closing the open cue at a line that ends its text gives the cues before that line.
proof fn lemma_close(
    lines: Seq<Seq<char>>,
    k: int,
    done: Seq<Cue>,
    open: Option<(u64, u64)>,
    text: Seq<Seq<char>>,
    at: int,
)
    requires
        0 <= k <= lines.len(),
        reading(lines, k, done, open, text, at),
        k == lines.len() || lines[k].len() == 0 || is_timecode_line(lines[k]),
    ensures
        closed_cues(done, open, text) == cues_before(lines, k),
{
    reveal(reading);
    reveal(closed_cues);
    if open is Some {
        lemma_text_end_is(lines, at + 1, k);
        lemma_no_cues_between(lines, at + 1, k);
    }
}

/// With no cue open, the cues so far are those before the next line.
proof fn lemma_reading_closed(lines: Seq<Seq<char>>, k: int, done: Seq<Cue>, at: int)
    ensures
        reading(lines, k, done, None, Seq::empty(), at) <==> done == cues_before(lines, k),
{
    reveal(reading);
}

/// With no cue open, a line that opens none changes nothing.
proof fn lemma_reading_skip(
    lines: Seq<Seq<char>>,
    k: int,
    done: Seq<Cue>,
    text: Seq<Seq<char>>,
    at: int,
)
    requires
        0 <= k < lines.len(),
        reading(lines, k, done, None, text, at),
        cue_at(lines, k) is None,
    ensures
        reading(lines, k + 1, done, None, text, at),
{
    reveal(reading);
}

/// A timecode line with two times opens a cue.
proof fn lemma_reading_open(lines: Seq<Seq<char>>, k: int, done: Seq<Cue>, start: u64, end: u64)
    requires
        0 <= k < lines.len(),
        done == cues_before(lines, k),
        is_timecode_line(lines[k]),
        line_times(lines[k]) == Some((start as nat, end as nat)),
    ensures
        reading(lines, k + 1, done, Some((start, end)), Seq::empty(), k),
{
    reveal(reading);
    assert(lines.subrange(k + 1, k + 1) =~= Seq::empty());
}

/// A line of text goes to the open cue.
proof fn lemma_reading_text(
    lines: Seq<Seq<char>>,
    k: int,
    done: Seq<Cue>,
    open: Option<(u64, u64)>,
    text: Seq<Seq<char>>,
    at: int,
)
    requires
        0 <= k < lines.len(),
        open is Some,
        reading(lines, k, done, open, text, at),
        lines[k].len() > 0,
        !is_timecode_line(lines[k]),
    ensures
        reading(lines, k + 1, done, open, text.push(lines[k]), at),
{
    reveal(reading);
    assert(lines.subrange(at + 1, k + 1) =~= lines.subrange(at + 1, k).push(lines[k]));
}

/// Whether a line is all digits, as the line with the number of a subtitle is.
fn is_index_line(line: &[char]) -> (r: bool)
    ensures
        r == crate::text::all_digits(line@),
{
    for i in 0..line.len()
        invariant
            forall|j: int| 0 <= j < i ==> crate::text::is_digit(line@[j]),
    {
        if !digit(line[i]) {
            return false;
        }
    }
    true
}

/// The subtitles of an SRT text, in order.
pub fn parse_srt_to_items(srt: &str) -> (items: Vec<SubtitleItem>)
    requires
        times_fit(srt@),
    ensures
        cues_of(items@) == srt_cues(srt@),
{
    let chars = chars_of(srt);
    let raw_lines = split_chars(chars.as_slice(), '\n');
    let ghost lines = srt_lines(srt@);
    let mut items: Vec<SubtitleItem> = Vec::new();
    let mut open: Option<(u64, u64)> = None;
    let mut text_lines: Vec<&[char]> = Vec::new();
    let ghost mut at: int = 0;
    proof {
        lemma_lines_match(srt@, raw_lines@);
        assert(cues_of(items@) =~= cues_before(lines, 0));
        assert(crate::text::views(text_lines@) =~= Seq::empty());
        lemma_reading_closed(lines, 0, cues_of(items@), at);
    }
    for k in 0..raw_lines.len()
        invariant
            lines.len() == raw_lines@.len(),
            forall|i: int|
                0 <= i < lines.len() ==> #[trigger] lines[i] == crate::text::trim(raw_lines@[i]@),
            forall|i: int|
                0 <= i < lines.len() && is_timecode_line(#[trigger] lines[i]) ==> line_times_fit(
                    lines[i],
                ),
            reading(lines, k as int, cues_of(items@), open, crate::text::views(text_lines@), at),
    {
        let line = trim_chars(raw_lines[k]);
        assert(line@ == lines[k as int]);
        let arrow_at = find_arrow(line);
        if line.len() == 0 {
            proof {
                lemma_close(
                    lines,
                    k as int,
                    cues_of(items@),
                    open,
                    crate::text::views(text_lines@),
                    at,
                );
            }
            flush(&mut items, open, &text_lines);
            open = None;
            text_lines.clear();
            proof {
                assert(crate::text::views(text_lines@) =~= Seq::empty());
                lemma_reading_closed(lines, k as int, cues_of(items@), at);
                lemma_reading_skip(lines, k as int, cues_of(items@), Seq::empty(), at);
            }
        } else if open.is_none() && is_index_line(line) {
            // The number of a subtitle says nothing about it.
            proof {
                if arrow_at < line.len() {
                    lemma_arrow_stands(line@);
                    assert(crate::text::is_digit(line@[arrow_at as int]));
                }
                lemma_reading_skip(
                    lines,
                    k as int,
                    cues_of(items@),
                    crate::text::views(text_lines@),
                    at,
                );
            }
        } else if arrow_at < line.len() {
            proof {
                lemma_close(
                    lines,
                    k as int,
                    cues_of(items@),
                    open,
                    crate::text::views(text_lines@),
                    at,
                );
            }
            flush(&mut items, open, &text_lines);
            open = None;
            text_lines.clear();
            proof {
                assert(crate::text::views(text_lines@) =~= Seq::empty());
                assert(line_times_fit(lines[k as int]));
                lemma_reading_closed(lines, k as int, cues_of(items@), at);
            }
            if let LineReading::Times(start, end) = read_line_times(line, arrow_at) {
                open = Some((start, end));
                proof {
                    at = k as int;
                    lemma_reading_open(lines, k as int, cues_of(items@), start, end);
                }
            } else {
                proof {
                    lemma_reading_skip(lines, k as int, cues_of(items@), Seq::empty(), at);
                }
            }
        } else if open.is_some() {
            let ghost before = crate::text::views(text_lines@);
            text_lines.push(line);
            proof {
                assert(crate::text::views(text_lines@) =~= before.push(line@));
                lemma_reading_text(lines, k as int, cues_of(items@), open, before, at);
            }
        } else {
            proof {
                lemma_reading_skip(
                    lines,
                    k as int,
                    cues_of(items@),
                    crate::text::views(text_lines@),
                    at,
                );
            }
        }
    }
    proof {
        lemma_close(
            lines,
            lines.len() as int,
            cues_of(items@),
            open,
            crate::text::views(text_lines@),
            at,
        );
    }
    flush(&mut items, open, &text_lines);
    items
}

/// The lines of a text are its pieces, trimmed.
proof fn lemma_lines_match(srt: Seq<char>, pieces: Seq<&[char]>)
    requires
        crate::text::views(pieces) == crate::text::split_on(srt, '\n'),
    ensures
        srt_lines(srt).len() == pieces.len(),
        forall|i: int|
            0 <= i < pieces.len() ==> #[trigger] srt_lines(srt)[i] == crate::text::trim(pieces[i]@),
{
    assert forall|i: int| 0 <= i < pieces.len() implies #[trigger] srt_lines(srt)[i]
        == crate::text::trim(pieces[i]@) by {
        assert(crate::text::views(pieces)[i] == pieces[i]@);
    }
}

/// An arrow stands where `arrow` says.
proof fn lemma_arrow_stands(line: Seq<char>)
    requires
        is_timecode_line(line),
    ensures
        arrow(line) + 3 <= line.len(),
        line[arrow(line) as int] == '-',
        line[arrow(line) as int + 1] == '-',
        line[arrow(line) as int + 2] == '>',
    decreases line.len(),
{
    if line.len() >= 3 && !(line[0] == '-' && line[1] == '-' && line[2] == '>') {
        lemma_arrow_stands(line.drop_first());
    }
}

/// Whether all times in an SRT text can be computed in 64 bits.
pub fn srt_times_fit(srt: &str) -> (r: bool)
    ensures
        r == times_fit(srt@),
{
    let chars = chars_of(srt);
    let raw_lines = split_chars(chars.as_slice(), '\n');
    let ghost lines = srt_lines(srt@);
    proof {
        lemma_lines_match(srt@, raw_lines@);
    }
    for k in 0..raw_lines.len()
        invariant
            lines == srt_lines(srt@),
            lines.len() == raw_lines@.len(),
            forall|i: int|
                0 <= i < lines.len() ==> #[trigger] lines[i] == crate::text::trim(raw_lines@[i]@),
            forall|i: int|
                0 <= i < k && is_timecode_line(#[trigger] lines[i]) ==> line_times_fit(lines[i]),
    {
        let line = trim_chars(raw_lines[k]);
        assert(line@ == lines[k as int]);
        let arrow_at = find_arrow(line);
        if arrow_at < line.len() {
            if let LineReading::OutOfRange = read_line_times(line, arrow_at) {
                return false;
            }
        }
    }
    true
}

// ---------------------------------------------------------------------------
// Laws
// ---------------------------------------------------------------------------
/// Every cue has a text, without white space round it, and ends after it starts.
pub proof fn law_cues_are_proper(srt: Seq<char>, i: int)
    requires
        0 <= i < srt_cues(srt).len(),
    ensures
        srt_cues(srt)[i].start_ms < srt_cues(srt)[i].end_ms,
        srt_cues(srt)[i].text.len() > 0,
        crate::text::trim(srt_cues(srt)[i].text) == srt_cues(srt)[i].text,
{
    lemma_cues_before_proper(srt_lines(srt), srt_lines(srt).len() as int, i);
}

proof fn lemma_cues_before_proper(lines: Seq<Seq<char>>, n: int, i: int)
    requires
        0 <= i < cues_before(lines, n).len(),
    ensures
        cues_before(lines, n)[i].start_ms < cues_before(lines, n)[i].end_ms,
        cues_before(lines, n)[i].text.len() > 0,
        crate::text::trim(cues_before(lines, n)[i].text) == cues_before(lines, n)[i].text,
    decreases n,
{
    if n > 0 {
        if i < cues_before(lines, n - 1).len() {
            lemma_cues_before_proper(lines, n - 1, i);
        } else {
            crate::text::lemma_trim_idempotent(
                crate::text::join(lines.subrange(n, text_end(lines, n)), '\n'),
            );
        }
    }
}

/// The text of a cue is the lines behind its timecode line, each without the white space
/// round it, and nothing of them is lost.
pub proof fn law_cue_text_keeps_its_lines(srt: Seq<char>, i: int)
    requires
        0 <= i < srt_lines(srt).len(),
        cue_at(srt_lines(srt), i) is Some,
    ensures
        cue_at(srt_lines(srt), i)->0.text == crate::text::join(
            srt_lines(srt).subrange(i + 1, text_end(srt_lines(srt), i + 1)),
            '\n',
        ),
{
    let lines = srt_lines(srt);
    let end = text_end(lines, i + 1);
    lemma_text_end_bounds(lines, i + 1);
    let text = lines.subrange(i + 1, end);
    if text.len() > 0 {
        assert forall|j: int| 0 <= j < text.len() implies (#[trigger] text[j]).len() > 0
            && crate::text::trim(text[j]) == text[j] by {
            assert(text[j] == lines[i + 1 + j]);
            crate::text::lemma_trim_idempotent(crate::text::split_on(srt, '\n')[i + 1 + j]);
        }
        lemma_join_ends(text);
        crate::text::lemma_trim_unchanged(crate::text::join(text, '\n'));
    }
}

proof fn lemma_text_end_bounds(lines: Seq<Seq<char>>, i: int)
    requires
        0 <= i <= lines.len(),
    ensures
        i <= text_end(lines, i) <= lines.len(),
        forall|j: int| i <= j < text_end(lines, i) ==> (#[trigger] lines[j]).len() > 0,
    decreases lines.len() - i,
{
    if !(i >= lines.len() || lines[i].len() == 0 || is_timecode_line(lines[i])) {
        lemma_text_end_bounds(lines, i + 1);
    }
}

proof fn lemma_join_ends(lines: Seq<Seq<char>>)
    requires
        lines.len() > 0,
        forall|j: int|
            0 <= j < lines.len() ==> (#[trigger] lines[j]).len() > 0 && crate::text::trim(lines[j])
                == lines[j],
    ensures
        crate::text::join(lines, '\n').len() > 0,
        !crate::text::is_white_space(crate::text::join(lines, '\n').first()),
        !crate::text::is_white_space(crate::text::join(lines, '\n').last()),
    decreases lines.len(),
{
    let last = lines[lines.len() - 1];
    crate::text::lemma_trim_ends(last);
    if lines.len() > 1 {
        let rest = lines.drop_last();
        assert forall|j: int| 0 <= j < rest.len() implies (#[trigger] rest[j]).len() > 0
            && crate::text::trim(rest[j]) == rest[j] by {
            assert(rest[j] == lines[j]);
        }
        lemma_join_ends(rest);
    }
}

/// A timecode line closes the cue before it, whether its own times can be read or not: the
/// cues of two texts, of which the second begins with a timecode line, are those of the one,
/// then those of the other.
pub proof fn law_timecode_line_separates(a: Seq<char>, b: Seq<char>)
    requires
        is_timecode_line(srt_lines(b)[0]),
    ensures
        srt_cues(a.push('\n') + b) == srt_cues(a) + srt_cues(b),
        times_fit(a.push('\n') + b) <==> times_fit(a) && times_fit(b),
{
    let (la, lb) = (srt_lines(a), srt_lines(b));
    crate::text::lemma_join_split(b, '\n');
    crate::text::lemma_split_concat(a, '\n', b);
    assert(srt_lines(a.push('\n') + b) =~= la + lb);
    lemma_cues_of_two_parts(la, lb, lb.len() as int);
    lemma_times_of_two_parts(a, b);
}

/// A blank line separates: the cues of two texts with a blank line between them are those
/// of the one, then those of the other.
pub proof fn law_blank_line_separates(a: Seq<char>, b: Seq<char>)
    ensures
        srt_cues(a.push('\n').push('\n') + b) == srt_cues(a) + srt_cues(b),
        times_fit(a.push('\n').push('\n') + b) <==> times_fit(a) && times_fit(b),
{
    let (la, lb) = (srt_lines(a), srt_lines(b));
    let none = Seq::<char>::empty();
    let rest = none.push('\n') + b;
    assert(a.push('\n').push('\n') + b =~= a.push('\n') + rest);
    crate::text::lemma_split_concat(a, '\n', rest);
    crate::text::lemma_split_concat(none, '\n', b);
    crate::text::lemma_split_single(none, '\n');
    assert(srt_lines(rest) =~= seq![none] + lb);
    assert(srt_lines(a.push('\n') + rest) =~= la + srt_lines(rest));
    lemma_cues_of_two_parts(la, srt_lines(rest), lb.len() as int + 1);
    law_index_line_ignored(none, b);
    lemma_times_of_two_parts(a, rest);
}

/// The times of two texts, one line behind the other, fit if those of each do.
proof fn lemma_times_of_two_parts(a: Seq<char>, b: Seq<char>)
    requires
        srt_lines(a.push('\n') + b) == srt_lines(a) + srt_lines(b),
    ensures
        times_fit(a.push('\n') + b) <==> times_fit(a) && times_fit(b),
{
    let (la, lb) = (srt_lines(a), srt_lines(b));
    let lines = srt_lines(a.push('\n') + b);
    if times_fit(a.push('\n') + b) {
        assert forall|i: int| 0 <= i < la.len() && is_timecode_line(#[trigger] la[i]) implies
            line_times_fit(la[i]) by {
            assert(lines[i] == la[i]);
        }
        assert forall|i: int| 0 <= i < lb.len() && is_timecode_line(#[trigger] lb[i]) implies
            line_times_fit(lb[i]) by {
            assert(lines[la.len() + i] == lb[i]);
        }
    }
    if times_fit(a) && times_fit(b) {
        assert forall|i: int| 0 <= i < lines.len() && is_timecode_line(#[trigger] lines[i]) implies
            line_times_fit(lines[i]) by {
            if i < la.len() {
                assert(lines[i] == la[i]);
            } else {
                assert(lines[i] == lb[i - la.len()]);
            }
        }
    }
}

/// A line that ends the text of a cue parts the cues before it from those behind it.
proof fn lemma_cues_of_two_parts(la: Seq<Seq<char>>, lb: Seq<Seq<char>>, n: int)
    requires
        0 <= n <= lb.len(),
        lb.len() > 0,
        lb[0].len() == 0 || is_timecode_line(lb[0]),
    ensures
        cues_before(la + lb, la.len() + n) == cues_before(la, la.len() as int) + cues_before(lb, n),
    decreases n,
{
    let whole = la + lb;
    let from = la.len() as int;
    if n > 0 {
        lemma_cues_of_two_parts(la, lb, n - 1);
        lemma_text_end_shift(la, lb, n);
        lemma_text_end_bounds(lb, n);
        assert(whole[from + n - 1] == lb[n - 1]);
        assert(whole.subrange(from + n, text_end(whole, from + n)) =~= lb.subrange(
            n,
            text_end(lb, n),
        ));
    } else {
        lemma_cues_first_part(la, lb, from);
        assert(cues_before(la, from) + cues_before(lb, 0) =~= cues_before(la, from));
    }
}

proof fn lemma_cues_first_part(la: Seq<Seq<char>>, lb: Seq<Seq<char>>, n: int)
    requires
        0 <= n <= la.len(),
        lb.len() > 0,
        lb[0].len() == 0 || is_timecode_line(lb[0]),
    ensures
        cues_before(la + lb, n) == cues_before(la, n),
    decreases n,
{
    if n > 0 {
        lemma_cues_first_part(la, lb, n - 1);
        lemma_text_end_first_part(la, lb, n);
        lemma_text_end_bounds(la, n);
        let whole = la + lb;
        assert(whole.subrange(n, text_end(whole, n)) =~= la.subrange(n, text_end(la, n)));
    }
}

proof fn lemma_text_end_first_part(la: Seq<Seq<char>>, lb: Seq<Seq<char>>, i: int)
    requires
        0 <= i <= la.len(),
        lb.len() > 0,
        lb[0].len() == 0 || is_timecode_line(lb[0]),
    ensures
        text_end(la + lb, i) == text_end(la, i),
    decreases la.len() - i,
{
    let whole = la + lb;
    if i < la.len() {
        assert(whole[i] == la[i]);
        lemma_text_end_first_part(la, lb, i + 1);
    } else {
        assert(whole[i] == lb[0]);
    }
}

proof fn lemma_text_end_shift(first: Seq<Seq<char>>, lb: Seq<Seq<char>>, i: int)
    requires
        0 <= i <= lb.len(),
    ensures
        text_end(first + lb, first.len() + i) == first.len() + text_end(lb, i),
    decreases lb.len() - i,
{
    if i < lb.len() {
        assert((first + lb)[first.len() + i] == lb[i]);
        lemma_text_end_shift(first, lb, i + 1);
    }
}

/// The number of a subtitle, on a line before it, changes nothing.
pub proof fn law_index_line_ignored(index: Seq<char>, srt: Seq<char>)
    requires
        crate::text::all_digits(index),
    ensures
        srt_cues(index.push('\n') + srt) == srt_cues(srt),
        times_fit(index.push('\n') + srt) == times_fit(srt),
{
    assert(!index.contains('\n')) by {
        if index.contains('\n') {
            let i = choose|i: int| 0 <= i < index.len() && index[i] == '\n';
            assert(crate::text::is_digit(index[i]));
        }
    }
    if index.len() > 0 {
        assert(crate::text::is_digit(index[0]) && crate::text::is_digit(index[index.len() - 1]));
        crate::text::lemma_digit_plain(index[0]);
        crate::text::lemma_digit_plain(index[index.len() - 1]);
    }
    crate::text::lemma_trim_unchanged(index);
    crate::text::lemma_split_concat(index, '\n', srt);
    crate::text::lemma_split_single(index, '\n');
    let lines = srt_lines(srt);
    assert(srt_lines(index.push('\n') + srt) =~= seq![index] + lines);
    if is_timecode_line(index) {
        lemma_arrow_stands(index);
        assert(crate::text::is_digit(index[arrow(index) as int]));
    }
    lemma_cues_after_line(index, lines, lines.len() as int);
    assert(srt_lines(index) =~= seq![index]);
    lemma_times_of_two_parts(index, srt);
}

proof fn lemma_cues_after_line(line: Seq<char>, lines: Seq<Seq<char>>, n: int)
    requires
        !is_timecode_line(line),
        0 <= n <= lines.len(),
    ensures
        cues_before(seq![line] + lines, n + 1) == cues_before(lines, n),
    decreases n,
{
    let whole = seq![line] + lines;
    if n > 0 {
        lemma_cues_after_line(line, lines, n - 1);
        lemma_text_end_shift(seq![line], lines, n);
        lemma_text_end_bounds(lines, n);
        assert(whole[n] == lines[n - 1]);
        assert(whole.subrange(n + 1, text_end(whole, n + 1)) =~= lines.subrange(
            n,
            text_end(lines, n),
        ));
    } else {
        assert(whole[0] == line);
        assert(cues_before(whole, 1) == cues_before(whole, 0));
    }
}

/// The line `start --> end`.
pub open spec fn timecode_line(start: nat, end: nat) -> Seq<char> {
    crate::timecode::srt_stamp(start) + seq![' ', '-', '-', '>', ' ']
        + crate::timecode::srt_stamp(end)
}

/// A line that can stand in the text of a cue as it is.
pub open spec fn is_plain_line(line: Seq<char>) -> bool {
    &&& line.len() > 0
    &&& crate::text::trim(line) == line
    &&& !line.contains('\n')
    &&& !is_timecode_line(line)
}

/// A subtitle that was written out, its two times on a line and its text on the following
/// ones, is read as that subtitle.
pub proof fn law_written_cue_is_read(start: nat, end: nat, text: Seq<Seq<char>>)
    requires
        start < end <= u64::MAX,
        text.len() > 0,
        forall|i: int| 0 <= i < text.len() ==> is_plain_line(#[trigger] text[i]),
    ensures
        srt_cues(timecode_line(start, end).push('\n') + crate::text::join(text, '\n')) == seq![
            Cue { start_ms: start, end_ms: end, text: crate::text::join(text, '\n') },
        ],
        times_fit(timecode_line(start, end).push('\n') + crate::text::join(text, '\n')),
{
    let first = timecode_line(start, end);
    let whole = first.push('\n') + crate::text::join(text, '\n');
    lemma_timecode_line(start, end);
    crate::text::lemma_split_concat(first, '\n', crate::text::join(text, '\n'));
    crate::text::lemma_split_single(first, '\n');
    crate::text::lemma_split_join(text, '\n');
    let lines = seq![first] + text;
    assert(srt_lines(whole) =~= lines) by {
        assert forall|i: int| 0 <= i < lines.len() implies crate::text::trim(lines[i])
            == lines[i] by {
            if i > 0 {
                assert(is_plain_line(text[i - 1]));
            }
        }
    }
    assert forall|j: int| 1 <= j < lines.len() implies (#[trigger] lines[j]).len() > 0
        && !is_timecode_line(lines[j]) by {
        assert(is_plain_line(text[j - 1]));
    }
    lemma_text_end_is(lines, 1, lines.len() as int);
    lemma_no_cues_between(lines, 1, lines.len() as int);
    assert(lines.subrange(1, lines.len() as int) =~= text);
    assert forall|j: int| 0 <= j < text.len() implies (#[trigger] text[j]).len() > 0
        && crate::text::trim(text[j]) == text[j] by {
        assert(is_plain_line(text[j]));
    }
    lemma_join_ends(text);
    crate::text::lemma_trim_unchanged(crate::text::join(text, '\n'));
    let cue = Cue { start_ms: start, end_ms: end, text: crate::text::join(text, '\n') };
    assert(cue_at(lines, 0) == Some(cue));
    assert(cues_before(lines, 1) =~= seq![cue]) by {
        assert(cues_before(lines, 0) =~= Seq::empty());
    }
    assert forall|i: int|
        0 <= i < srt_lines(whole).len() && is_timecode_line(
            #[trigger] srt_lines(whole)[i],
        ) implies line_times_fit(srt_lines(whole)[i]) by {
        assert(srt_lines(whole)[i] == lines[i]);
    }
}

/// A subtitle that can be written out: it ends after it starts, in 64 bits, and its text is
/// made of lines that are not empty, have no white space round them and hold no `-->`.
pub open spec fn is_writable(cue: Cue) -> bool {
    &&& cue.start_ms < cue.end_ms <= u64::MAX
    &&& forall|i: int|
        0 <= i < crate::text::split_on(cue.text, '\n').len() ==> {
            let line = #[trigger] crate::text::split_on(cue.text, '\n')[i];
            line.len() > 0 && crate::text::trim(line) == line && !is_timecode_line(line)
        }
}

/// Subtitle `number` as it stands in an SRT text: its number, its two times as
/// `hh:mm:ss,mmm --> hh:mm:ss,mmm`, and its text.
pub open spec fn written_cue(number: nat, cue: Cue) -> Seq<char> {
    crate::text::decimal(number).push('\n') + (timecode_line(cue.start_ms, cue.end_ms).push('\n')
        + cue.text)
}

/// Subtitles written out as an SRT text, numbered from one, with a blank line behind each.
pub open spec fn written(cues: Seq<Cue>) -> Seq<char>
    decreases cues.len(),
{
    if cues.len() == 0 {
        Seq::empty()
    } else {
        written(cues.drop_last()) + written_cue(cues.len(), cues.last()).push('\n').push('\n')
    }
}

/// Subtitles that were written out are read as the same subtitles, in the same order.
pub proof fn law_written_cues_are_read(cues: Seq<Cue>)
    requires
        forall|i: int| 0 <= i < cues.len() ==> is_writable(#[trigger] cues[i]),
    ensures
        srt_cues(written(cues)) == cues,
        times_fit(written(cues)),
    decreases cues.len(),
{
    if cues.len() > 0 {
        let (rest, cue) = (cues.drop_last(), cues.last());
        assert(is_writable(cues[cues.len() - 1]));
        assert forall|i: int| 0 <= i < rest.len() implies is_writable(#[trigger] rest[i]) by {
            assert(rest[i] == cues[i]);
        }
        law_written_cues_are_read(rest);
        let block = written_cue(cues.len(), cue);
        lemma_written_cue(cues.len(), cue);
        let whole = written(rest) + block;
        if rest.len() > 0 {
            let open = written(rest.drop_last()) + written_cue(rest.len(), rest.last());
            assert(written(rest) =~= open.push('\n').push('\n'));
            lemma_behind_blank_line(open, block);
        } else {
            assert(whole =~= block);
            assert(rest + seq![cue] =~= seq![cue]);
        }
        assert(srt_cues(whole) == rest + seq![cue]);
        assert(rest + seq![cue] =~= cues);
        assert(written(cues) =~= whole.push('\n').push('\n'));
        lemma_blank_line_at_the_end(whole);
    } else {
        lemma_nothing_in_nothing();
        assert(cues =~= Seq::<Cue>::empty());
    }
}

/// A blank line at the end changes nothing.
proof fn lemma_blank_line_at_the_end(a: Seq<char>)
    ensures
        srt_cues(a.push('\n').push('\n')) == srt_cues(a),
        times_fit(a.push('\n').push('\n')) == times_fit(a),
{
    let none = Seq::<char>::empty();
    lemma_nothing_in_nothing();
    law_blank_line_separates(a, none);
    assert(a.push('\n').push('\n') + none =~= a.push('\n').push('\n'));
    assert(srt_cues(a) + Seq::<Cue>::empty() =~= srt_cues(a));
}

/// What stands behind a blank line adds its own cues.
proof fn lemma_behind_blank_line(a: Seq<char>, b: Seq<char>)
    ensures
        srt_cues(a.push('\n').push('\n') + b) == srt_cues(a.push('\n').push('\n')) + srt_cues(b),
        times_fit(a.push('\n').push('\n') + b) <==> times_fit(a.push('\n').push('\n')) && times_fit(
            b,
        ),
{
    lemma_blank_line_at_the_end(a);
    law_blank_line_separates(a, b);
}

proof fn lemma_nothing_in_nothing()
    ensures
        srt_cues(Seq::empty()) == Seq::<Cue>::empty(),
        times_fit(Seq::empty()),
{
    let none = Seq::<char>::empty();
    crate::text::lemma_split_single(none, '\n');
    let lines = srt_lines(none);
    assert(lines.len() == 1 && lines[0] == none);
    assert(!is_timecode_line(lines[0]));
    assert(cues_before(lines, 1) == cues_before(lines, 0));
}

proof fn lemma_written_cue(number: nat, cue: Cue)
    requires
        is_writable(cue),
    ensures
        srt_cues(written_cue(number, cue)) == seq![cue],
        times_fit(written_cue(number, cue)),
{
    let text = crate::text::split_on(cue.text, '\n');
    crate::text::lemma_join_split(cue.text, '\n');
    assert forall|i: int| 0 <= i < text.len() implies is_plain_line(#[trigger] text[i]) by {}
    law_written_cue_is_read(cue.start_ms, cue.end_ms, text);
    crate::text::lemma_decimal(number);
    law_index_line_ignored(
        crate::text::decimal(number),
        timecode_line(cue.start_ms, cue.end_ms).push('\n') + cue.text,
    );
}

/// A timecode line that was written out gives its two times.
proof fn lemma_timecode_line(start: nat, end: nat)
    requires
        start <= u64::MAX,
        end <= u64::MAX,
    ensures
        is_timecode_line(timecode_line(start, end)),
        line_times(timecode_line(start, end)) == Some((start, end)),
        line_times_fit(timecode_line(start, end)),
        crate::text::trim(timecode_line(start, end)) == timecode_line(start, end),
        !timecode_line(start, end).contains('\n'),
{
    let (a, b) = (crate::timecode::srt_stamp(start), crate::timecode::srt_stamp(end));
    let line = timecode_line(start, end);
    crate::timecode::lemma_srt_stamp_plain(start);
    crate::timecode::lemma_srt_stamp_plain(end);
    assert forall|i: int| 0 <= i < line.len() && !(a.len() <= i < a.len() + 5) implies
        #[trigger] line[i] != '-' && !crate::text::is_white_space(line[i]) by {
        if i < a.len() {
            assert(line[i] == a[i]);
        } else {
            assert(line[i] == b[i - a.len() - 5]);
        }
    }
    let at = a.len() as int + 1;
    assert(line[at] == '-' && line[at + 1] == '-' && line[at + 2] == '>');
    assert(line[at - 1] == ' ' && line[at + 3] == ' ');
    lemma_arrow_is(line, at);
    let rest = line.skip(at + 3);
    assert(rest =~= seq![' '] + b);
    assert forall|i: int| 0 <= i < rest.len() && i + 3 <= rest.len() implies !(#[trigger] rest[i]
        == '-' && rest[i + 1] == '-' && rest[i + 2] == '>') by {
        if i > 0 {
            assert(rest[i] == b[i - 1]);
        }
    }
    lemma_arrow_is(rest, rest.len() as int);
    assert(start_text(line) =~= a.push(' '));
    assert(end_text(line) =~= seq![' '] + b);
    crate::text::lemma_trim_push(a, ' ');
    crate::text::lemma_trim_prepend(' ', b);
    crate::timecode::law_srt_stamp_reads_back(start);
    crate::timecode::law_srt_stamp_reads_back(end);
    crate::timecode::law_white_space_round_timecode(a);
    crate::timecode::law_white_space_round_timecode(a.push(' '));
    crate::timecode::law_white_space_round_timecode(b);
    crate::timecode::law_white_space_round_timecode(seq![' '] + b);
    assert(line.first() == line[0] && line.last() == line[line.len() - 1]);
    crate::text::lemma_trim_unchanged(line);
    if line.contains('\n') {
        let i = choose|i: int| 0 <= i < line.len() && line[i] == '\n';
        assert(a.len() <= i < a.len() + 5);
        assert(line[i] == seq![' ', '-', '-', '>', ' '][i - a.len()]);
    }
}

/// `s` with a carriage return before every line feed.
pub open spec fn with_carriage_returns(s: Seq<char>) -> Seq<char>
    decreases s.len(),
{
    if s.len() == 0 {
        s
    } else if s.last() == '\n' {
        with_carriage_returns(s.drop_last()).push('\r').push('\n')
    } else {
        with_carriage_returns(s.drop_last()).push(s.last())
    }
}

/// It makes no difference whether lines end in a line feed or in a carriage return and a
/// line feed.
pub proof fn law_line_endings(srt: Seq<char>)
    ensures
        srt_cues(with_carriage_returns(srt)) == srt_cues(srt),
        times_fit(with_carriage_returns(srt)) == times_fit(srt),
{
    lemma_line_endings(srt);
}

proof fn lemma_line_endings(s: Seq<char>)
    ensures
        srt_lines(with_carriage_returns(s)) == srt_lines(s),
        crate::text::split_on(with_carriage_returns(s), '\n').last() == crate::text::split_on(
            s,
            '\n',
        ).last(),
        crate::text::split_on(s, '\n').len() > 0,
    decreases s.len(),
{
    let t = with_carriage_returns(s);
    let none = Seq::<char>::empty();
    if s.len() > 0 {
        let r = s.drop_last();
        let u = with_carriage_returns(r);
        lemma_line_endings(r);
        if s.last() == '\n' {
            assert(s =~= r.push('\n') + none);
            assert(t =~= u.push('\r').push('\n') + none);
            crate::text::lemma_split_concat(r, '\n', none);
            crate::text::lemma_split_concat(u.push('\r'), '\n', none);
            crate::text::lemma_split_single(none, '\n');
            crate::text::lemma_split_push(u, '\r', '\n');
            let pieces = crate::text::split_on(u, '\n');
            crate::text::lemma_trim_push(pieces.last(), '\r');
            assert(srt_lines(u.push('\r')) =~= srt_lines(u));
            assert(srt_lines(t) =~= srt_lines(u).push(crate::text::trim(none)));
            assert(srt_lines(s) =~= srt_lines(r).push(crate::text::trim(none)));
        } else {
            assert(s =~= r.push(s.last()));
            crate::text::lemma_split_push(r, s.last(), '\n');
            crate::text::lemma_split_push(u, s.last(), '\n');
            let (ps, pt) = (crate::text::split_on(r, '\n'), crate::text::split_on(u, '\n'));
            assert(srt_lines(r).len() == ps.len() && srt_lines(u).len() == pt.len());
            assert forall|i: int| 0 <= i < ps.len() implies #[trigger] srt_lines(t)[i]
                == srt_lines(s)[i] by {
                assert(srt_lines(u)[i] == srt_lines(r)[i]);
            }
            assert(srt_lines(t) =~= srt_lines(s));
        }
    }
}

/// A `-->` stands somewhere in the line.
pub open spec fn holds_arrow(line: Seq<char>) -> bool {
    exists|i: int|
        0 <= i && i + 3 <= line.len() && #[trigger] line[i] == '-' && line[i + 1] == '-' && line[i
            + 2] == '>'
}

/// The timecode lines are those in which a `-->` stands, wherever that is.
pub proof fn law_timecode_lines(line: Seq<char>)
    ensures
        is_timecode_line(line) <==> holds_arrow(line),
{
    if is_timecode_line(line) {
        lemma_arrow_stands(line);
    }
    if !is_timecode_line(line) {
        lemma_no_arrow(line);
    }
}

/// Before the first arrow there is none.
proof fn lemma_no_arrow(line: Seq<char>)
    ensures
        arrow(line) <= line.len(),
        forall|i: int|
            0 <= i < arrow(line) && i + 3 <= line.len() ==> !(#[trigger] line[i] == '-' && line[i
                + 1] == '-' && line[i + 2] == '>'),
    decreases line.len(),
{
    if line.len() >= 3 && !(line[0] == '-' && line[1] == '-' && line[2] == '>') {
        let rest = line.drop_first();
        lemma_no_arrow(rest);
        assert forall|i: int| 0 <= i < arrow(line) && i + 3 <= line.len() implies !(#[trigger] line[i]
            == '-' && line[i + 1] == '-' && line[i + 2] == '>') by {
            if i > 0 {
                assert(rest[i - 1] == line[i]);
            }
        }
    }
}

/// The first arrow of a line stands behind the part that holds none.
proof fn lemma_first_arrow(front: Seq<char>, back: Seq<char>)
    requires
        !holds_arrow(front),
        back.len() == 0 || (back.len() >= 3 && back[0] == '-' && back[1] == '-' && back[2] == '>'),
    ensures
        arrow(front + back) == front.len(),
{
    let line = front + back;
    assert forall|i: int| 0 <= i < front.len() && i + 3 <= line.len() implies !(#[trigger] line[i]
        == '-' && line[i + 1] == '-' && line[i + 2] == '>') by {
        if line[i] == '-' && line[i + 1] == '-' && line[i + 2] == '>' {
            if i + 3 <= front.len() {
                assert(front[i] == '-' && front[i + 1] == '-' && front[i + 2] == '>');
            } else {
                assert(line[i + 2] == back[i + 2 - front.len()]);
            }
        }
    }
    lemma_arrow_is(line, front.len() as int);
}

/// A part of a line holds no arrow if the line holds none.
proof fn lemma_part_without_arrow(line: Seq<char>, from: int, to: int)
    requires
        !holds_arrow(line),
        0 <= from <= to <= line.len(),
    ensures
        !holds_arrow(line.subrange(from, to)),
{
    let part = line.subrange(from, to);
    if holds_arrow(part) {
        let i = choose|i: int|
            0 <= i && i + 3 <= part.len() && #[trigger] part[i] == '-' && part[i + 1] == '-' && part[i
                + 2] == '>';
        assert(line[from + i] == '-' && line[from + i + 1] == '-' && line[from + i + 2] == '>');
    }
}

/// What a timecode line says, whatever the white space in it: `start`, an arrow, `end`, and
/// perhaps another arrow with something behind it, which means nothing.
proof fn lemma_parts_of_a_timecode_line(start: Seq<char>, end: Seq<char>, tail: Seq<char>)
    requires
        !holds_arrow(start),
        !holds_arrow(end),
        tail.len() == 0 || (tail.len() >= 3 && tail[0] == '-' && tail[1] == '-' && tail[2] == '>'),
    ensures
        ({
            let line = crate::text::trim(start + seq!['-', '-', '>'] + end + tail);
            &&& is_timecode_line(line)
            &&& crate::timecode::srt_time(start_text(line)) == crate::timecode::srt_time(start)
            &&& crate::timecode::srt_time(end_text(line)) == crate::timecode::srt_time(end)
        }),
{
    let raw = start + seq!['-', '-', '>'] + end + tail;
    let line = crate::text::trim(raw);
    let (before, behind) = crate::text::lemma_trim_parts(raw);
    let at = start.len() as int;
    assert(raw[at] == '-' && raw[at + 1] == '-' && raw[at + 2] == '>');
    assert(raw.len() == before.len() + line.len() + behind.len());
    // The white space ends before the arrow, and begins again behind it.
    if before.len() > at {
        assert(raw[at] == before[at]);
        assert(crate::text::is_white_space(before[at]));
    }
    let stop = raw.len() - behind.len();
    if stop <= at + 2 {
        assert(raw[at + 2] == behind[at + 2 - stop]);
        assert(crate::text::is_white_space(behind[at + 2 - stop]));
    }
    let first = start.skip(before.len() as int);
    let rest = raw.subrange(at + 3, stop);
    let arrow_sign = seq!['-', '-', '>'];
    assert(line =~= raw.subrange(before.len() as int, stop));
    assert(line =~= first + (arrow_sign + rest));
    lemma_part_without_arrow(start, before.len() as int, at);
    assert(first =~= start.subrange(before.len() as int, at));
    lemma_first_arrow(first, arrow_sign + rest);
    assert(start_text(line) =~= first);
    assert(start =~= before + first) by {
        assert(start =~= raw.take(at));
        assert(before =~= raw.take(before.len() as int));
    }
    crate::text::lemma_trim_prefix(before, first);
    crate::timecode::law_white_space_round_timecode(start);
    crate::timecode::law_white_space_round_timecode(first);
    assert(line.skip(first.len() as int + 3) =~= rest);
    let all = end + tail;
    assert(all =~= raw.skip(at + 3));
    assert(all =~= rest + behind);
    if tail.len() == 0 {
        assert(all =~= end);
        lemma_part_without_arrow(end, 0, rest.len() as int);
        assert(rest =~= end.subrange(0, rest.len() as int));
        lemma_first_arrow(rest, Seq::empty());
        assert(rest + Seq::<char>::empty() =~= rest);
        assert(end_text(line) =~= rest);
        crate::text::lemma_trim_append(rest, behind);
        crate::timecode::law_white_space_round_timecode(end);
        crate::timecode::law_white_space_round_timecode(rest);
    } else {
        let n = end.len() as int;
        assert(all[n] == '-' && all[n + 1] == '-' && all[n + 2] == '>');
        if rest.len() <= n + 2 {
            assert(all[n + 2] == behind[n + 2 - rest.len()]);
            assert(crate::text::is_white_space(behind[n + 2 - rest.len()]));
        }
        let back = rest.skip(n);
        assert(rest =~= end + back);
        assert(back[0] == all[n] && back[1] == all[n + 1] && back[2] == all[n + 2]);
        lemma_first_arrow(end, back);
        assert(end_text(line) =~= end);
    }
}

/// A timecode line, with whatever can be read as two times before its first arrow and behind
/// it, and lines of text behind it make up one cue: with these two times, if the end is later
/// than the start, and with the lines, each without the white space round it. If one of the
/// times cannot be read, or the end is not later, there is none. The times fit if each of
/// the two does.
pub proof fn law_timecode_line_and_text_make_a_cue(
    start: Seq<char>,
    end: Seq<char>,
    tail: Seq<char>,
    text: Seq<Seq<char>>,
)
    requires
        !holds_arrow(start),
        !holds_arrow(end),
        tail.len() == 0 || (tail.len() >= 3 && tail[0] == '-' && tail[1] == '-' && tail[2] == '>'),
        !start.contains('\n') && !end.contains('\n') && !tail.contains('\n'),
        text.len() > 0,
        forall|i: int|
            0 <= i < text.len() ==> !(#[trigger] text[i]).contains('\n') && !holds_arrow(text[i])
                && crate::text::trim(text[i]).len() > 0,
    ensures
        ({
            let line = start + seq!['-', '-', '>'] + end + tail;
            let srt = line.push('\n') + crate::text::join(text, '\n');
            let shown = crate::text::join(
                text.map_values(|t: Seq<char>| crate::text::trim(t)),
                '\n',
            );
            let times = (crate::timecode::srt_time(start), crate::timecode::srt_time(end));
            &&& times.0 is Some && times.1 is Some && times.0->0 < times.1->0 ==> srt_cues(srt)
                == seq![Cue { start_ms: times.0->0, end_ms: times.1->0, text: shown }]
            &&& !(times.0 is Some && times.1 is Some && times.0->0 < times.1->0) ==> srt_cues(
                srt,
            ).len() == 0
            &&& times_fit(srt) <==> crate::timecode::srt_time_fits(start)
                && crate::timecode::srt_time_fits(end)
        }),
{
    let raw = start + seq!['-', '-', '>'] + end + tail;
    let srt = raw.push('\n') + crate::text::join(text, '\n');
    let line = crate::text::trim(raw);
    let trimmed = text.map_values(|t: Seq<char>| crate::text::trim(t));
    lemma_parts_of_a_timecode_line(start, end, tail);
    assert(!raw.contains('\n')) by {
        if raw.contains('\n') {
            let i = choose|i: int| 0 <= i < raw.len() && raw[i] == '\n';
            let (a, b) = (start.len() as int, start.len() + 3 + end.len());
            if i < a {
                assert(start[i] == '\n');
            } else if i < a + 3 {
                assert(raw[i] == seq!['-', '-', '>'][i - a]);
            } else if i < b {
                assert(end[i - a - 3] == '\n');
            } else {
                assert(tail[i - b] == '\n');
            }
        }
    }
    crate::text::lemma_split_concat(raw, '\n', crate::text::join(text, '\n'));
    crate::text::lemma_split_single(raw, '\n');
    crate::text::lemma_split_join(text, '\n');
    let lines = seq![line] + trimmed;
    assert(srt_lines(srt) =~= lines);
    assert forall|j: int| 1 <= j < lines.len() implies (#[trigger] lines[j]).len() > 0
        && !is_timecode_line(lines[j]) && crate::text::trim(lines[j]) == lines[j] by {
        let t = text[j - 1];
        assert(lines[j] == crate::text::trim(t));
        let (before, behind) = crate::text::lemma_trim_parts(t);
        let (from, to) = (before.len() as int, t.len() - behind.len());
        assert(lines[j] =~= t.subrange(from, to));
        lemma_part_without_arrow(t, from, to);
        law_timecode_lines(lines[j]);
        crate::text::lemma_trim_idempotent(t);
    }
    lemma_text_end_is(lines, 1, lines.len() as int);
    lemma_no_cues_between(lines, 1, lines.len() as int);
    assert(lines.subrange(1, lines.len() as int) =~= trimmed);
    assert forall|j: int| 0 <= j < trimmed.len() implies (#[trigger] trimmed[j]).len() > 0
        && crate::text::trim(trimmed[j]) == trimmed[j] by {
        assert(trimmed[j] == lines[j + 1]);
    }
    lemma_join_ends(trimmed);
    crate::text::lemma_trim_unchanged(crate::text::join(trimmed, '\n'));
    assert(cues_before(lines, 0) =~= Seq::empty());
    assert(srt_cues(srt) == cues_before(lines, 1));
    assert(lines[0] == line);
    if cue_at(lines, 0) is Some {
        assert(cues_before(lines, 1) =~= seq![cue_at(lines, 0)->0]);
    }
    if times_fit(srt) {
        assert(is_timecode_line(srt_lines(srt)[0]));
        assert(line_times_fit(srt_lines(srt)[0]));
    }
    if line_times_fit(line) {
        assert forall|i: int|
            0 <= i < srt_lines(srt).len() && is_timecode_line(
                #[trigger] srt_lines(srt)[i],
            ) implies line_times_fit(srt_lines(srt)[i]) by {
            assert(srt_lines(srt)[i] == lines[i]);
        }
    }
}

/// A timecode line alone makes no cue.
pub proof fn law_cue_without_text_is_none(line: Seq<char>)
    requires
        !line.contains('\n'),
    ensures
        srt_cues(line).len() == 0,
{
    crate::text::lemma_split_single(line, '\n');
    let lines = srt_lines(line);
    assert(lines.len() == 1);
    assert(text_end(lines, 1) == 1);
    assert(lines.subrange(1, 1) =~= Seq::<Seq<char>>::empty());
    assert(cues_before(lines, 0) =~= Seq::empty());
}

/// Without any arrow there are no cues, and nothing that might not fit.
pub proof fn law_no_cues_without_arrows(srt: Seq<char>)
    requires
        !holds_arrow(srt),
    ensures
        srt_cues(srt).len() == 0,
        times_fit(srt),
{
    let pieces = crate::text::split_on(srt, '\n');
    let lines = srt_lines(srt);
    assert forall|i: int| 0 <= i < lines.len() implies !is_timecode_line(#[trigger] lines[i]) by {
        lemma_piece_without_arrow(srt, i);
        let (before, behind) = crate::text::lemma_trim_parts(pieces[i]);
        let (from, to) = (before.len() as int, pieces[i].len() - behind.len());
        assert(lines[i] =~= pieces[i].subrange(from, to));
        lemma_part_without_arrow(pieces[i], from, to);
        law_timecode_lines(lines[i]);
    }
    lemma_no_cues_between(lines, 0, lines.len() as int);
}

proof fn lemma_piece_without_arrow(srt: Seq<char>, i: int)
    requires
        !holds_arrow(srt),
        0 <= i < crate::text::split_on(srt, '\n').len(),
    ensures
        !holds_arrow(crate::text::split_on(srt, '\n')[i]),
    decreases srt.len(),
{
    let at = crate::text::first_index(srt, '\n') as int;
    crate::text::lemma_first_index(srt, '\n');
    if at < srt.len() {
        let n = srt.len() as int;
        lemma_part_without_arrow(srt, 0, at);
        lemma_part_without_arrow(srt, at + 1, n);
        assert(srt.subrange(0, at) =~= srt.take(at));
        assert(srt.subrange(at + 1, n) =~= srt.skip(at + 1));
        if i > 0 {
            lemma_piece_without_arrow(srt.skip(at + 1), i - 1);
        }
    }
}

/// White space round the lines of a text means nothing.
pub proof fn law_white_space_round_lines(lines: Seq<Seq<char>>)
    requires
        lines.len() > 0,
        forall|i: int| 0 <= i < lines.len() ==> !(#[trigger] lines[i]).contains('\n'),
    ensures
        ({
            let trimmed = lines.map_values(|line: Seq<char>| crate::text::trim(line));
            &&& srt_cues(crate::text::join(trimmed, '\n')) == srt_cues(
                crate::text::join(lines, '\n'),
            )
            &&& times_fit(crate::text::join(trimmed, '\n')) == times_fit(
                crate::text::join(lines, '\n'),
            )
        }),
{
    let trimmed = lines.map_values(|line: Seq<char>| crate::text::trim(line));
    assert forall|i: int| 0 <= i < trimmed.len() implies !(#[trigger] trimmed[i]).contains(
        '\n',
    ) by {
        let (before, behind) = crate::text::lemma_trim_parts(lines[i]);
        if trimmed[i].contains('\n') {
            let k = choose|k: int| 0 <= k < trimmed[i].len() && trimmed[i][k] == '\n';
            assert(lines[i][before.len() + k] == '\n');
        }
    }
    crate::text::lemma_split_join(lines, '\n');
    crate::text::lemma_split_join(trimmed, '\n');
    assert forall|i: int| 0 <= i < lines.len() implies crate::text::trim(trimmed[i])
        == #[trigger] trimmed[i] by {
        crate::text::lemma_trim_idempotent(lines[i]);
    }
    assert(srt_lines(crate::text::join(trimmed, '\n')) =~= srt_lines(
        crate::text::join(lines, '\n'),
    ));
}

/// A line of a text, with dots in place of commas if it is a timecode line.
pub open spec fn dotted_line(line: Seq<char>) -> Seq<char> {
    if holds_arrow(line) {
        crate::timecode::with_dots(line)
    } else {
        line
    }
}

/// Dots in place of the commas in the timecode lines of a text leave its cues as they are.
pub proof fn law_dots_in_timecode_lines(lines: Seq<Seq<char>>)
    requires
        lines.len() > 0,
        forall|i: int| 0 <= i < lines.len() ==> !(#[trigger] lines[i]).contains('\n'),
    ensures
        ({
            let dotted = lines.map_values(|line: Seq<char>| dotted_line(line));
            &&& srt_cues(crate::text::join(dotted, '\n')) == srt_cues(
                crate::text::join(lines, '\n'),
            )
            &&& times_fit(crate::text::join(dotted, '\n')) == times_fit(
                crate::text::join(lines, '\n'),
            )
        }),
{
    let dotted = lines.map_values(|line: Seq<char>| dotted_line(line));
    let (a, b) = (crate::text::join(lines, '\n'), crate::text::join(dotted, '\n'));
    assert forall|i: int| 0 <= i < dotted.len() implies !(#[trigger] dotted[i]).contains('\n') by {
        if dotted[i].contains('\n') {
            let k = choose|k: int| 0 <= k < dotted[i].len() && dotted[i][k] == '\n';
            assert(lines[i][k] == '\n');
        }
    }
    crate::text::lemma_split_join(lines, '\n');
    crate::text::lemma_split_join(dotted, '\n');
    let (la, lb) = (srt_lines(a), srt_lines(b));
    assert forall|i: int| 0 <= i < la.len() implies like_line(la[i], #[trigger] lb[i]) by {
        assert(la[i] == crate::text::trim(lines[i]));
        assert(lb[i] == crate::text::trim(dotted[i]));
        if holds_arrow(lines[i]) {
            crate::timecode::lemma_dots_trim(lines[i]);
            lemma_trimmed_arrow(lines[i]);
            lemma_dotted_times(la[i]);
        } else {
            let (before, behind) = crate::text::lemma_trim_parts(lines[i]);
            let (from, to) = (before.len() as int, lines[i].len() - behind.len());
            assert(la[i] =~= lines[i].subrange(from, to));
            lemma_part_without_arrow(lines[i], from, to);
            law_timecode_lines(la[i]);
        }
    }
    lemma_like_cues(la, lb, la.len() as int);
    if times_fit(a) {
        assert forall|i: int| 0 <= i < lb.len() && is_timecode_line(#[trigger] lb[i]) implies
            line_times_fit(lb[i]) by {
            assert(like_line(la[i], lb[i]));
            assert(is_timecode_line(srt_lines(a)[i]));
        }
    }
    if times_fit(b) {
        assert forall|i: int| 0 <= i < la.len() && is_timecode_line(#[trigger] la[i]) implies
            line_times_fit(la[i]) by {
            assert(like_line(la[i], lb[i]));
            assert(is_timecode_line(srt_lines(b)[i]));
        }
    }
}

/// Two lines that mean the same: the same text, or timecode lines with the same times.
spec fn like_line(a: Seq<char>, b: Seq<char>) -> bool {
    if is_timecode_line(a) {
        &&& is_timecode_line(b)
        &&& line_times(a) == line_times(b)
        &&& line_times_fit(a) == line_times_fit(b)
    } else {
        a == b
    }
}

proof fn lemma_trimmed_arrow(line: Seq<char>)
    requires
        holds_arrow(line),
    ensures
        is_timecode_line(crate::text::trim(line)),
{
    let t = crate::text::trim(line);
    let (before, behind) = crate::text::lemma_trim_parts(line);
    let i = choose|i: int|
        0 <= i && i + 3 <= line.len() && #[trigger] line[i] == '-' && line[i + 1] == '-' && line[i
            + 2] == '>';
    let n = before.len() as int;
    if i < n {
        assert(line[i] == before[i]);
        assert(crate::text::is_white_space(before[i]));
    }
    if i + 2 >= n + t.len() {
        assert(line[i + 2] == behind[i + 2 - n - t.len()]);
        assert(crate::text::is_white_space(behind[i + 2 - n - t.len()]));
    }
    assert(t[i - n] == line[i] && t[i - n + 1] == line[i + 1] && t[i - n + 2] == line[i + 2]);
    law_timecode_lines(t);
}

proof fn lemma_dotted_arrow(line: Seq<char>)
    ensures
        arrow(crate::timecode::with_dots(line)) == arrow(line),
    decreases line.len(),
{
    if line.len() >= 3 {
        assert(crate::timecode::with_dots(line).drop_first() =~= crate::timecode::with_dots(
            line.drop_first(),
        ));
        lemma_dotted_arrow(line.drop_first());
    }
}

proof fn lemma_dotted_times(line: Seq<char>)
    requires
        is_timecode_line(line),
    ensures
        like_line(line, crate::timecode::with_dots(line)),
{
    let d = crate::timecode::with_dots(line);
    let at = arrow(line) as int;
    lemma_arrow_stands(line);
    lemma_dotted_arrow(line);
    let rest = line.skip(at + 3);
    assert(d.skip(at + 3) =~= crate::timecode::with_dots(rest));
    lemma_dotted_arrow(rest);
    lemma_no_arrow(rest);
    assert(start_text(d) =~= crate::timecode::with_dots(start_text(line)));
    assert(end_text(d) =~= crate::timecode::with_dots(end_text(line)));
    crate::timecode::law_comma_or_dot(start_text(line));
    crate::timecode::law_comma_or_dot(end_text(line));
}

proof fn lemma_like_cues(la: Seq<Seq<char>>, lb: Seq<Seq<char>>, n: int)
    requires
        la.len() == lb.len(),
        0 <= n <= la.len(),
        forall|i: int| 0 <= i < la.len() ==> like_line(la[i], #[trigger] lb[i]),
    ensures
        cues_before(lb, n) == cues_before(la, n),
    decreases n,
{
    if n > 0 {
        lemma_like_cues(la, lb, n - 1);
        lemma_like_text(la, lb, n);
        assert(like_line(la[n - 1], lb[n - 1]));
    }
}

proof fn lemma_like_text(la: Seq<Seq<char>>, lb: Seq<Seq<char>>, i: int)
    requires
        la.len() == lb.len(),
        0 <= i <= la.len(),
        forall|i: int| 0 <= i < la.len() ==> like_line(la[i], #[trigger] lb[i]),
    ensures
        i <= text_end(la, i) <= la.len(),
        text_end(lb, i) == text_end(la, i),
        lb.subrange(i, text_end(lb, i)) == la.subrange(i, text_end(la, i)),
    decreases la.len() - i,
{
    if i < la.len() {
        assert(like_line(la[i], lb[i]));
        lemma_like_text(la, lb, i + 1);
        if is_timecode_line(la[i]) {
            lemma_arrow_stands(la[i]);
            lemma_arrow_stands(lb[i]);
        }
        let end = text_end(la, i);
        assert(lb.subrange(i, end) =~= la.subrange(i, end)) by {
            if end > i {
                assert forall|k: int| 0 <= k < end - i implies lb.subrange(i, end)[k]
                    == la.subrange(i, end)[k] by {
                    if k > 0 {
                        assert(lb.subrange(i + 1, end)[k - 1] == la.subrange(i + 1, end)[k - 1]);
                    }
                }
            }
        }
    } else {
        assert(lb.subrange(i, i) =~= la.subrange(i, i));
    }
}

/// The values of subtitles are those of each, in order.
pub proof fn law_values_of_subtitles(items: Seq<SubtitleItem>, i: int)
    requires
        0 <= i < items.len(),
    ensures
        cues_of(items).len() == items.len(),
        cues_of(items)[i].start_ms == items[i].start_ms,
        cues_of(items)[i].end_ms == items[i].end_ms,
        cues_of(items)[i].text == items[i].text@,
{
}

} // verus!
