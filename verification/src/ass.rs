//! Subtitle scripts in the ASS format.

use crate::subtitle::SubtitleItem;
use crate::text::push_decimal;
use crate::timecode::ass_time_from_ms;
use vstd::prelude::*;

verus! {

/// How a character of a subtitle stands in an ASS event.
pub open spec fn escaped_char(c: char) -> Seq<char> {
    if c == '\n' {
        seq!['\\', 'N']
    } else if c == '{' {
        seq!['\\', '{']
    } else if c == '}' {
        seq!['\\', '}']
    } else {
        seq![c]
    }
}

/// How the text of a subtitle stands in an ASS event, character by character.
pub open spec fn escaped(text: Seq<char>) -> Seq<char>
    decreases text.len(),
{
    if text.len() == 0 {
        text
    } else {
        escaped(text.drop_last()) + escaped_char(text.last())
    }
}

/// Escapes the text of a subtitle for an ASS event.
pub fn escape_ass_text(text: &str) -> (out: String)
    ensures
        out@ == escaped(text@),
{
    let mut out = String::new();
    for ch in it: text.chars()
        invariant
            it.seq() == text@,
            out@ == escaped(text@.take(it.index())),
    {
        let ghost before = out@;
        match ch {
            '\n' => {
                out.push('\\');
                out.push('N');
            },
            '{' => {
                out.push('\\');
                out.push('{');
            },
            '}' => {
                out.push('\\');
                out.push('}');
            },
            _ => out.push(ch),
        }
        proof {
            assert(out@ =~= before + escaped_char(ch));
            assert(text@.take(it.index() + 1).drop_last() =~= text@.take(it.index()));
        }
    }
    assert(text@.take(text@.len() as int) =~= text@);
    out
}

/// The event line of a subtitle.
pub open spec fn dialogue(cue: crate::subtitle::Cue) -> Seq<char> {
    "Dialogue: 0,"@ + crate::timecode::ass_time(cue.start_ms) + ","@ + crate::timecode::ass_time(
        cue.end_ms,
    ) + ",Default,,0,0,0,,"@ + escaped(cue.text) + "\n"@
}

/// The event lines of the subtitles, in order.
pub open spec fn dialogues(cues: Seq<crate::subtitle::Cue>) -> Seq<char>
    decreases cues.len(),
{
    if cues.len() == 0 {
        Seq::empty()
    } else {
        dialogues(cues.drop_last()) + dialogue(cues.last())
    }
}

/// A length in pixels, at least one.
pub open spec fn at_least_one(n: nat) -> nat {
    if n == 0 {
        1
    } else {
        n
    }
}

/// The head of a script for a video of the given width and height.
pub open spec fn script_head(width: nat, height: nat) -> Seq<char> {
    "[Script Info]\n"@ + "ScriptType: v4.00+\n"@ + "PlayResX: "@ + crate::text::decimal(
        at_least_one(width),
    ) + "\n"@ + "PlayResY: "@ + crate::text::decimal(at_least_one(height)) + "\n"@
        + "ScaledBorderAndShadow: yes\n"@ + "\n[V4+ Styles]\n"@
        + "Format: Name, Fontname, Fontsize, PrimaryColour, SecondaryColour, OutlineColour, BackColour, Bold, Italic, Underline, StrikeOut, ScaleX, ScaleY, Spacing, Angle, BorderStyle, Outline, Shadow, Alignment, MarginL, MarginR, MarginV, Encoding\n"@
        + "Style: Default,keifont,48,&H00FFFFFF,&H000000FF,&H00000000,&H64000000,0,0,0,0,100,100,0,0,1,2,0,2,40,40,40,1\n"@
        + "\n[Events]\n"@
        + "Format: Layer, Start, End, Style, Name, MarginL, MarginR, MarginV, Effect, Text\n"@
}

/// The script that shows the cues over a video of the given width and height.
pub open spec fn ass_script(
    width: nat,
    height: nat,
    cues: Seq<crate::subtitle::Cue>,
) -> Seq<char> {
    script_head(width, height) + dialogues(cues)
}

/// Writes the head of a script.
fn build_script_head(width: u32, height: u32) -> (ass: String)
    ensures
        ass@ == script_head(width as nat, height as nat),
{
    let shown_width: u64 = if width == 0 {
        1
    } else {
        width as u64
    };
    let shown_height: u64 = if height == 0 {
        1
    } else {
        height as u64
    };
    let mut ass = String::new();
    ass.append("[Script Info]\n");
    ass.append("ScriptType: v4.00+\n");
    ass.append("PlayResX: ");
    push_decimal(&mut ass, shown_width);
    ass.append("\n");
    ass.append("PlayResY: ");
    push_decimal(&mut ass, shown_height);
    ass.append("\n");
    ass.append("ScaledBorderAndShadow: yes\n");
    ass.append("\n[V4+ Styles]\n");
    ass.append(
        "Format: Name, Fontname, Fontsize, PrimaryColour, SecondaryColour, OutlineColour, BackColour, Bold, Italic, Underline, StrikeOut, ScaleX, ScaleY, Spacing, Angle, BorderStyle, Outline, Shadow, Alignment, MarginL, MarginR, MarginV, Encoding\n",
    );
    ass.append(
        "Style: Default,keifont,48,&H00FFFFFF,&H000000FF,&H00000000,&H64000000,0,0,0,0,100,100,0,0,1,2,0,2,40,40,40,1\n",
    );
    ass.append("\n[Events]\n");
    ass.append("Format: Layer, Start, End, Style, Name, MarginL, MarginR, MarginV, Effect, Text\n");
    assert(ass@ =~= script_head(width as nat, height as nat));
    ass
}

/// Appends the event line of a subtitle.
fn push_dialogue(ass: &mut String, item: &SubtitleItem)
    ensures
        final(ass)@ == old(ass)@ + dialogue(item@),
{
    let start = ass_time_from_ms(item.start_ms);
    let end = ass_time_from_ms(item.end_ms);
    let text = escape_ass_text(item.text.as_str());
    ass.append("Dialogue: 0,");
    ass.append(start.as_str());
    ass.append(",");
    ass.append(end.as_str());
    ass.append(",Default,,0,0,0,,");
    ass.append(text.as_str());
    ass.append("\n");
    assert(ass@ =~= old(ass)@ + dialogue(item@));
}

/// Writes the script that shows the subtitles over a video of the given size.
pub fn build_ass_script(size: (u32, u32), items: &Vec<SubtitleItem>) -> (ass: String)
    ensures
        ass@ == ass_script(size.0 as nat, size.1 as nat, crate::subtitle::cues_of(items@)),
{
    let mut ass = build_script_head(size.0, size.1);
    let ghost head = ass@;
    let ghost cues = crate::subtitle::cues_of(items@);
    for i in 0..items.len()
        invariant
            cues == crate::subtitle::cues_of(items@),
            ass@ == head + dialogues(cues.take(i as int)),
    {
        push_dialogue(&mut ass, &items[i]);
        proof {
            assert(cues.take(i + 1).drop_last() =~= cues.take(i as int));
            assert(ass@ =~= head + dialogues(cues.take(i + 1)));
        }
    }
    assert(cues.take(cues.len() as int) =~= cues);
    ass
}

// ---------------------------------------------------------------------------
// Laws
// ---------------------------------------------------------------------------
/// Escaped text holds no line feed, and a backslash stands before each of its braces.
pub proof fn law_escaped_is_safe(text: Seq<char>)
    ensures
        !escaped(text).contains('\n'),
        forall|i: int|
            0 <= i < escaped(text).len() && (#[trigger] escaped(text)[i] == '{' || escaped(text)[i]
                == '}') ==> i > 0 && escaped(text)[i - 1] == '\\',
    decreases text.len(),
{
    if text.len() > 0 {
        let rest = escaped(text.drop_last());
        let tail = escaped_char(text.last());
        law_escaped_is_safe(text.drop_last());
        let all = rest + tail;
        assert forall|i: int| 0 <= i < all.len() implies #[trigger] all[i] != '\n' by {
            if i < rest.len() {
                assert(all[i] == rest[i]);
                assert(rest.contains(rest[i]));
            } else {
                assert(all[i] == tail[i - rest.len()]);
            }
        }
        assert forall|i: int|
            0 <= i < all.len() && (#[trigger] all[i] == '{' || all[i] == '}') implies i > 0
            && all[i - 1] == '\\' by {
            if i < rest.len() {
                assert(all[i] == rest[i]);
            } else {
                assert(all[i] == tail[i - rest.len()]);
                assert(i == rest.len() + 1);
                assert(all[i - 1] == tail[0]);
            }
        }
    }
}

/// Text without line feeds and braces stays as it is.
pub proof fn law_plain_text_unchanged(text: Seq<char>)
    requires
        !text.contains('\n'),
        !text.contains('{'),
        !text.contains('}'),
    ensures
        escaped(text) == text,
    decreases text.len(),
{
    if text.len() > 0 {
        let rest = text.drop_last();
        assert forall|c: char| rest.contains(c) implies text.contains(c) by {
            let i = choose|i: int| 0 <= i < rest.len() && rest[i] == c;
            assert(text[i] == c);
        }
        assert(text.contains(text[text.len() - 1]));
        law_plain_text_unchanged(rest);
        assert(rest + seq![text.last()] =~= text);
    }
}

/// A timestamp holds no line feed.
proof fn lemma_ass_time_one_line(ms: nat)
    ensures
        !crate::timecode::ass_time(ms).contains('\n'),
{
    let cs = ms / 10;
    let s = cs / 100;
    let m = s / 60;
    let a = crate::text::decimal(m / 60).push(':');
    let b = crate::text::decimal2(m % 60).push(':');
    let c = crate::text::decimal2(s % 60).push('.');
    let d = crate::text::decimal2(cs % 100);
    crate::text::lemma_decimal(m / 60);
    crate::text::lemma_decimal2(m % 60);
    crate::text::lemma_decimal2(s % 60);
    crate::text::lemma_decimal2(cs % 100);
    lemma_digits_one_line(crate::text::decimal(m / 60), ':');
    lemma_digits_one_line(crate::text::decimal2(m % 60), ':');
    lemma_digits_one_line(crate::text::decimal2(s % 60), '.');
    lemma_digits_one_line(d, ':');
    lemma_concat_one_line(a, b);
    lemma_concat_one_line(a + b, c);
    lemma_concat_one_line(a + b + c, d);
}

proof fn lemma_digits_one_line(digits: Seq<char>, c: char)
    requires
        crate::text::all_digits(digits),
        c != '\n',
    ensures
        !digits.contains('\n'),
        !digits.push(c).contains('\n'),
{
    assert forall|i: int| 0 <= i < digits.push(c).len() implies #[trigger] digits.push(c)[i]
        != '\n' by {
        if i < digits.len() {
            assert(crate::text::is_digit(digits[i]));
        }
    }
    assert forall|i: int| 0 <= i < digits.len() implies #[trigger] digits[i] != '\n' by {
        assert(crate::text::is_digit(digits[i]));
    }
}

proof fn lemma_concat_one_line(a: Seq<char>, b: Seq<char>)
    requires
        !a.contains('\n'),
        !b.contains('\n'),
    ensures
        !(a + b).contains('\n'),
{
    assert forall|i: int| 0 <= i < (a + b).len() implies #[trigger] (a + b)[i] != '\n' by {
        if i < a.len() {
            assert((a + b)[i] == a[i]);
            assert(a.contains(a[i]));
        } else {
            assert((a + b)[i] == b[i - a.len()]);
            assert(b.contains(b[i - a.len()]));
        }
    }
}

/// The event of a subtitle is one line, however many lines its text has.
pub proof fn law_event_is_one_line(cue: crate::subtitle::Cue)
    ensures
        dialogue(cue).last() == '\n',
        !dialogue(cue).drop_last().contains('\n'),
{
    let start = crate::timecode::ass_time(cue.start_ms);
    let end = crate::timecode::ass_time(cue.end_ms);
    let text = escaped(cue.text);
    reveal_strlit("Dialogue: 0,");
    reveal_strlit(",");
    reveal_strlit(",Default,,0,0,0,,");
    reveal_strlit("\n");
    assert("Dialogue: 0,"@ =~= seq!['D', 'i', 'a', 'l', 'o', 'g', 'u', 'e', ':', ' ', '0', ',']);
    assert(",Default,,0,0,0,,"@ =~= seq![
        ',', 'D', 'e', 'f', 'a', 'u', 'l', 't', ',', ',', '0', ',', '0', ',', '0', ',', ',',
    ]);
    assert(","@ =~= seq![',']);
    assert("\n"@ =~= seq!['\n']);
    lemma_ass_time_one_line(cue.start_ms);
    lemma_ass_time_one_line(cue.end_ms);
    law_escaped_is_safe(cue.text);
    lemma_concat_one_line("Dialogue: 0,"@, start);
    lemma_concat_one_line("Dialogue: 0,"@ + start, ","@);
    lemma_concat_one_line("Dialogue: 0,"@ + start + ","@, end);
    lemma_concat_one_line("Dialogue: 0,"@ + start + ","@ + end, ",Default,,0,0,0,,"@);
    let body = "Dialogue: 0,"@ + start + ","@ + end + ",Default,,0,0,0,,"@ + text;
    lemma_concat_one_line("Dialogue: 0,"@ + start + ","@ + end + ",Default,,0,0,0,,"@, text);
    assert(dialogue(cue).drop_last() =~= body);
}

/// Each character of a text is escaped by itself: a line feed as `\N`, braces with a backslash
/// before them, and any other character as it is.
pub proof fn law_characters_are_escaped_one_by_one(a: Seq<char>, c: char, b: Seq<char>)
    ensures
        escaped(Seq::empty()) == Seq::<char>::empty(),
        escaped(a + b) == escaped(a) + escaped(b),
        escaped(seq!['\n']) == seq!['\\', 'N'],
        escaped(seq!['{']) == seq!['\\', '{'],
        escaped(seq!['}']) == seq!['\\', '}'],
        c != '\n' && c != '{' && c != '}' ==> escaped(seq![c]) == seq![c],
    decreases b.len(),
{
    lemma_escaped_single('\n');
    lemma_escaped_single('{');
    lemma_escaped_single('}');
    lemma_escaped_single(c);
    if b.len() > 0 {
        law_characters_are_escaped_one_by_one(a, c, b.drop_last());
        assert((a + b).drop_last() =~= a + b.drop_last());
        assert(escaped(a + b) =~= escaped(a) + escaped(b));
    } else {
        assert(a + b =~= a);
        assert(escaped(a) + escaped(b) =~= escaped(a));
    }
}

proof fn lemma_escaped_single(c: char)
    ensures
        escaped(seq![c]) == escaped_char(c),
{
    assert(seq![c].drop_last() =~= Seq::<char>::empty());
    assert(escaped(Seq::<char>::empty()) =~= Seq::<char>::empty());
    assert(escaped(seq![c]) =~= escaped_char(c));
}

/// The script of no cues tells the size of the video, at least one pixel each way, and the
/// style of the subtitles.
pub proof fn law_script_without_cues(width: nat, height: nat)
    ensures
        ass_script(width, height, Seq::empty()) == "[Script Info]\n"@ + "ScriptType: v4.00+\n"@
            + "PlayResX: "@ + crate::text::decimal(
            if width > 0 {
                width
            } else {
                1
            },
        ) + "\n"@ + "PlayResY: "@ + crate::text::decimal(
            if height > 0 {
                height
            } else {
                1
            },
        ) + "\n"@ + "ScaledBorderAndShadow: yes\n"@ + "\n[V4+ Styles]\n"@
            + "Format: Name, Fontname, Fontsize, PrimaryColour, SecondaryColour, OutlineColour, BackColour, Bold, Italic, Underline, StrikeOut, ScaleX, ScaleY, Spacing, Angle, BorderStyle, Outline, Shadow, Alignment, MarginL, MarginR, MarginV, Encoding\n"@
            + "Style: Default,keifont,48,&H00FFFFFF,&H000000FF,&H00000000,&H64000000,0,0,0,0,100,100,0,0,1,2,0,2,40,40,40,1\n"@
            + "\n[Events]\n"@
            + "Format: Layer, Start, End, Style, Name, MarginL, MarginR, MarginV, Effect, Text\n"@,
{
    assert(script_head(width, height) + dialogues(Seq::empty()) =~= script_head(width, height));
}

/// A further cue adds its event line, with its two times and its text, to the end of a
/// script, and changes nothing before it.
pub proof fn law_further_cue_adds_its_line(
    width: nat,
    height: nat,
    cues: Seq<crate::subtitle::Cue>,
    cue: crate::subtitle::Cue,
)
    ensures
        ass_script(width, height, cues.push(cue)) == ass_script(width, height, cues) + (
        "Dialogue: 0,"@ + crate::timecode::ass_time(cue.start_ms) + ","@
            + crate::timecode::ass_time(cue.end_ms) + ",Default,,0,0,0,,"@ + escaped(cue.text)
            + "\n"@),
{
    let (head, line) = (script_head(width, height), dialogue(cue));
    assert(cues.push(cue).drop_last() =~= cues);
    assert(head + (dialogues(cues) + line) =~= (head + dialogues(cues)) + line);
}

/// Behind its head a script has one line for each cue: line `i` is the event of cue `i`.
pub proof fn law_one_line_for_each_cue(
    width: nat,
    height: nat,
    cues: Seq<crate::subtitle::Cue>,
    i: int,
)
    requires
        0 <= i < cues.len(),
    ensures
        ({
            let head = crate::text::split_on(ass_script(width, height, Seq::empty()), '\n');
            let lines = crate::text::split_on(ass_script(width, height, cues), '\n');
            &&& lines.len() == head.len() + cues.len()
            &&& lines.take(head.len() - 1) == head.drop_last()
            &&& lines[head.len() - 1 + i] == "Dialogue: 0,"@ + crate::timecode::ass_time(
                cues[i].start_ms,
            ) + ","@ + crate::timecode::ass_time(cues[i].end_ms) + ",Default,,0,0,0,,"@ + escaped(
                cues[i].text,
            )
            &&& lines.last() == Seq::<char>::empty()
        }),
{
    lemma_script_lines(width, height, cues);
    let head = crate::text::split_on(script_head(width, height), '\n');
    assert(script_head(width, height) + dialogues(Seq::empty()) =~= script_head(width, height));
    let lines = crate::text::split_on(ass_script(width, height, cues), '\n');
    assert(lines.take(head.len() - 1) =~= head.drop_last());
    reveal_strlit("\n");
    assert("\n"@ =~= seq!['\n']);
    assert(dialogue(cues[i]).drop_last() =~= "Dialogue: 0,"@ + crate::timecode::ass_time(
        cues[i].start_ms,
    ) + ","@ + crate::timecode::ass_time(cues[i].end_ms) + ",Default,,0,0,0,,"@ + escaped(
        cues[i].text,
    ));
}

/// The event lines of cues, without the line feeds at their ends.
spec fn event_lines(cues: Seq<crate::subtitle::Cue>) -> Seq<Seq<char>> {
    cues.map_values(|cue: crate::subtitle::Cue| dialogue(cue).drop_last())
}

proof fn lemma_script_lines(width: nat, height: nat, cues: Seq<crate::subtitle::Cue>)
    ensures
        crate::text::split_on(ass_script(width, height, cues), '\n') == crate::text::split_on(
            script_head(width, height),
            '\n',
        ).drop_last() + event_lines(cues) + seq![Seq::<char>::empty()],
        ass_script(width, height, cues).len() > 0,
        ass_script(width, height, cues).last() == '\n',
        crate::text::split_on(script_head(width, height), '\n').len() > 0,
    decreases cues.len(),
{
    let head = script_head(width, height);
    let script = ass_script(width, height, cues);
    let none = Seq::<char>::empty();
    crate::text::lemma_join_split(head, '\n');
    if cues.len() == 0 {
        let last = "Format: Layer, Start, End, Style, Name, MarginL, MarginR, MarginV, Effect, Text\n";
        reveal_strlit(
            "Format: Layer, Start, End, Style, Name, MarginL, MarginR, MarginV, Effect, Text\n",
        );
        assert(last@.len() > 0 && last@.last() == '\n');
        assert(head.last() == last@.last());
        assert(script =~= head);
        let front = head.drop_last();
        assert(head =~= front.push('\n') + none);
        crate::text::lemma_split_concat(front, '\n', none);
        crate::text::lemma_split_single(none, '\n');
        let lines = crate::text::split_on(head, '\n');
        assert(lines =~= lines.drop_last() + event_lines(cues) + seq![none]);
    } else {
        let rest = cues.drop_last();
        let cue = cues.last();
        lemma_script_lines(width, height, rest);
        law_event_is_one_line(cue);
        let before = ass_script(width, height, rest);
        let front = before.drop_last();
        let body = dialogue(cue).drop_last();
        assert(before =~= front.push('\n') + none);
        assert(script =~= (front.push('\n') + body).push('\n') + none);
        crate::text::lemma_split_concat(front, '\n', none);
        crate::text::lemma_split_concat(front, '\n', body);
        crate::text::lemma_split_concat(front.push('\n') + body, '\n', none);
        crate::text::lemma_split_single(none, '\n');
        crate::text::lemma_split_single(body, '\n');
        let first = crate::text::split_on(head, '\n').drop_last();
        assert(crate::text::split_on(front, '\n') =~= first + event_lines(rest)) by {
            let lines = crate::text::split_on(before, '\n');
            assert(lines.drop_last() =~= crate::text::split_on(front, '\n'));
            assert(lines.drop_last() =~= first + event_lines(rest));
        }
        assert(event_lines(cues) =~= event_lines(rest).push(body));
        assert(first + event_lines(rest) + seq![body] + seq![none] =~= first + event_lines(cues)
            + seq![none]);
    }
}

} // verus!
