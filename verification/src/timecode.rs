//! Subtitle times: reading SRT timecodes and writing ASS timestamps.

use crate::text::count_digits;
use crate::text::chars_of;
use crate::text::parse_number;
use crate::text::push_decimal;
use crate::text::push_decimal2;
use crate::text::split_chars;
use crate::text::trim_chars;
use vstd::prelude::*;
use vstd::slice::slice_subrange;

verus! {

// ---------------------------------------------------------------------------
// SRT timecodes
// ---------------------------------------------------------------------------
/// The characters that separate the seconds from their fraction.
pub open spec fn is_fraction_mark(c: char) -> bool {
    c == ',' || c == '.'
}

/// The position of the last fraction mark.
pub open spec fn last_mark(s: Seq<char>) -> Option<int>
    decreases s.len(),
{
    if s.len() == 0 {
        None
    } else if is_fraction_mark(s.last()) {
        Some(s.len() - 1)
    } else {
        last_mark(s.drop_last())
    }
}

/// Ten to the power of `n`.
pub open spec fn pow10(n: nat) -> nat
    decreases n,
{
    if n == 0 {
        1
    } else {
        10 * pow10((n - 1) as nat)
    }
}

/// The number in a field of the clock, which white space may surround.
pub open spec fn field(s: Seq<char>) -> Option<nat> {
    crate::text::number(crate::text::trim(s))
}

/// The seconds that a clock shows: `H:M:S` or `M:S`.
pub open spec fn clock_seconds(clock: Seq<char>) -> Option<nat> {
    let parts = crate::text::split_on(clock, ':');
    if parts.len() == 3 {
        match (field(parts[0]), field(parts[1]), field(parts[2])) {
            (Some(h), Some(m), Some(s)) => Some(h * 3600 + m * 60 + s),
            _ => None,
        }
    } else if parts.len() == 2 {
        match (field(parts[0]), field(parts[1])) {
            (Some(m), Some(s)) => Some(m * 60 + s),
            _ => None,
        }
    } else {
        None
    }
}

/// The digits that a fraction begins with; what follows them is ignored.
pub open spec fn fraction_digits(fraction: Seq<char>) -> Seq<char> {
    fraction.take(crate::text::digit_count(fraction) as int)
}

/// The milliseconds of a fraction of a second: the value of its digits, scaled to three of
/// them. Digits beyond the third are cut off. No digits at all count as zero.
pub open spec fn fraction_millis(fraction: Seq<char>) -> nat {
    let digits = fraction_digits(fraction);
    if digits.len() == 0 {
        0
    } else if digits.len() <= 3 {
        crate::text::digits_value(digits) * pow10((3 - digits.len()) as nat)
    } else {
        crate::text::digits_value(digits.take(3))
    }
}

/// The clock of a timecode: what stands before its last fraction mark.
pub open spec fn clock_part(t: Seq<char>) -> Seq<char> {
    match last_mark(t) {
        Some(at) => t.take(at),
        None => t,
    }
}

/// The fraction of a timecode: what stands behind its last fraction mark.
pub open spec fn fraction_part(t: Seq<char>) -> Seq<char> {
    match last_mark(t) {
        Some(at) => t.skip(at + 1),
        None => Seq::empty(),
    }
}

/// The milliseconds that an SRT timecode stands for: `HH:MM:SS,mmm` or `MM:SS,mmm`, with a
/// comma or a dot, the fraction being optional; nothing if the text is no timecode.
pub open spec fn srt_time(s: Seq<char>) -> Option<nat> {
    let t = crate::text::trim(s);
    match clock_seconds(clock_part(t)) {
        Some(seconds) => Some(seconds * 1000 + fraction_millis(fraction_part(t))),
        None => None,
    }
}

/// The time of a timecode, if it is one, fits in 64 bits.
pub open spec fn srt_time_fits(s: Seq<char>) -> bool {
    srt_time(s) matches Some(ms) ==> ms <= u64::MAX
}

/// What a text says when it is read as a timecode.
pub enum TimeReading {
    /// It is no timecode.
    Malformed,
    /// It is a timecode whose time does not fit in 64 bits.
    OutOfRange,
    /// It is the timecode of that many milliseconds.
    Millis(u64),
}

/// `last_mark` is the greatest position that holds a mark.
proof fn lemma_last_mark_is(s: Seq<char>, at: int)
    requires
        0 <= at <= s.len(),
        at > 0 ==> is_fraction_mark(s[at - 1]),
        forall|i: int| at <= i < s.len() ==> !is_fraction_mark(s[i]),
    ensures
        last_mark(s) == (if at > 0 {
            Some(at - 1)
        } else {
            None::<int>
        }),
    decreases s.len(),
{
    if s.len() > at {
        assert(!is_fraction_mark(s.last()));
        assert forall|i: int| at <= i < s.drop_last().len() implies !is_fraction_mark(
            s.drop_last()[i],
        ) by {
            assert(s.drop_last()[i] == s[i]);
        }
        lemma_last_mark_is(s.drop_last(), at);
    }
}

/// One past the position of the last fraction mark; zero if there is none.
fn after_last_mark(s: &[char]) -> (after: usize)
    ensures
        after <= s.len(),
        last_mark(s@) == (if after > 0 {
            Some(after - 1)
        } else {
            None::<int>
        }),
{
    let mut after: usize = s.len();
    while after > 0 && s[after - 1] != ',' && s[after - 1] != '.'
        invariant
            after <= s.len(),
            forall|i: int| after <= i < s@.len() ==> !is_fraction_mark(s@[i]),
        ensures
            after <= s.len(),
            forall|i: int| after <= i < s@.len() ==> !is_fraction_mark(s@[i]),
            after > 0 ==> is_fraction_mark(s@[after - 1]),
        decreases after,
    {
        after = after - 1;
    }
    proof {
        lemma_last_mark_is(s@, after as int);
    }
    after
}

/// The milliseconds of a fraction of a second.
fn read_millis(fraction: &[char]) -> (millis: u64)
    ensures
        millis == fraction_millis(fraction@),
        millis < 1000,
{
    let n = count_digits(fraction);
    let ghost digits = fraction_digits(fraction@);
    proof {
        lemma_fraction_digits(fraction@);
        reveal_with_fuel(pow10, 4);
    }
    let mut millis: u64 = 0;
    for i in 0..3usize
        invariant
            n <= fraction@.len(),
            digits == fraction@.take(n as int),
            crate::text::all_digits(digits),
            i <= n ==> millis == crate::text::digits_value(digits.take(i as int)),
            i > n ==> millis == crate::text::digits_value(digits) * pow10((i - n) as nat),
            millis < pow10(i as nat),
            pow10(0) == 1 && pow10(1) == 10 && pow10(2) == 100 && pow10(3) == 1000,
    {
        millis = millis * 10;
        if i < n {
            assert(crate::text::is_digit(digits[i as int]));
            millis = millis + (fraction[i] as u64 - '0' as u64);
            proof {
                assert(digits.take(i + 1).drop_last() =~= digits.take(i as int));
            }
        } else {
            proof {
                if i == n {
                    assert(digits.take(i as int) =~= digits);
                }
                let v = crate::text::digits_value(digits);
                let p = pow10((i - n) as nat);
                assert((v * p) * 10 == v * (10 * p)) by (nonlinear_arith);
                assert(v * 1 == v);
            }
        }
    }
    proof {
        if n == 3 {
            assert(digits.take(3) =~= digits);
            assert(millis * pow10(0) == millis) by (nonlinear_arith)
                requires
                    pow10(0) == 1,
            ;
        } else if n == 0 {
            let p = pow10(3);
            assert(crate::text::digits_value(digits) == 0);
            assert(0 * p == 0);
            assert(millis == 0);
        }
    }
    millis
}

proof fn lemma_pow10_positive(n: nat)
    ensures
        pow10(n) > 0,
    decreases n,
{
    if n > 0 {
        lemma_pow10_positive((n - 1) as nat);
    }
}

/// The number in a field of the clock.
fn read_field(s: &[char]) -> (r: Option<u64>)
    ensures
        match r {
            Some(n) => field(s@) == Some(n as nat),
            None => field(s@) is None,
        },
{
    parse_number(trim_chars(s))
}

/// The hours, minutes and seconds that a clock shows.
fn read_clock(clock: &[char]) -> (r: Option<(u64, u64, u64)>)
    ensures
        match r {
            Some((h, m, s)) => clock_seconds(clock@) == Some((h * 3600 + m * 60 + s) as nat),
            None => clock_seconds(clock@) is None,
        },
{
    let parts = split_chars(clock, ':');
    let ghost pieces = crate::text::split_on(clock@, ':');
    assert(pieces == crate::text::views(parts@));
    match parts.len() {
        3 => {
            let h: u64 = read_field(parts[0])?;
            let m: u64 = read_field(parts[1])?;
            let s: u64 = read_field(parts[2])?;
            Some((h, m, s))
        },
        2 => {
            let m: u64 = read_field(parts[0])?;
            let s: u64 = read_field(parts[1])?;
            Some((0, m, s))
        },
        _ => None,
    }
}

/// Adds up a time, unless it does not fit in 64 bits.
fn total_millis(h: u64, m: u64, s: u64, millis: u64) -> (r: Option<u64>)
    ensures
        match r {
            Some(total) => total == (h * 3600 + m * 60 + s) * 1000 + millis,
            None => (h * 3600 + m * 60 + s) * 1000 + millis > u64::MAX,
        },
{
    let hours: u64 = h.checked_mul(3600)?;
    let minutes: u64 = m.checked_mul(60)?;
    let sum: u64 = hours.checked_add(minutes)?;
    let seconds: u64 = sum.checked_add(s)?;
    let scaled: u64 = seconds.checked_mul(1000)?;
    scaled.checked_add(millis)
}

/// Reads an SRT timecode, and tells a text that is none from a time that is too large.
pub fn read_srt_time(text: &[char]) -> (r: TimeReading)
    ensures
        match r {
            TimeReading::Malformed => srt_time(text@) is None,
            TimeReading::OutOfRange => !srt_time_fits(text@),
            TimeReading::Millis(ms) => srt_time(text@) == Some(ms as nat) && srt_time_fits(text@),
        },
{
    let t = trim_chars(text);
    let after = after_last_mark(t);
    let clock = if after > 0 {
        slice_subrange(t, 0, after - 1)
    } else {
        t
    };
    let fraction = if after > 0 {
        slice_subrange(t, after, t.len())
    } else {
        slice_subrange(t, 0, 0)
    };
    proof {
        if after > 0 {
            assert(t@.subrange(0, after - 1) == t@.take(after - 1));
            assert(t@.subrange(after as int, t@.len() as int) == t@.skip(after as int));
        } else {
            assert(t@.subrange(0, 0) == Seq::<char>::empty());
        }
    }
    let (h, m, s): (u64, u64, u64) = match read_clock(clock) {
        Some(read) => read,
        None => {
            return TimeReading::Malformed;
        },
    };
    let millis: u64 = read_millis(fraction);
    match total_millis(h, m, s, millis) {
        Some(ms) => TimeReading::Millis(ms),
        None => TimeReading::OutOfRange,
    }
}

/// What a fraction begins with are digits.
proof fn lemma_fraction_digits(fraction: Seq<char>)
    ensures
        crate::text::all_digits(fraction_digits(fraction)),
        crate::text::digit_count(fraction) <= fraction.len(),
    decreases fraction.len(),
{
    if fraction.len() > 0 && crate::text::is_digit(fraction.first()) {
        let rest = fraction.drop_first();
        lemma_fraction_digits(rest);
        assert forall|i: int| 0 <= i < fraction_digits(fraction).len() implies
            crate::text::is_digit(#[trigger] fraction_digits(fraction)[i]) by {
            if i > 0 {
                assert(fraction_digits(rest)[i - 1] == fraction_digits(fraction)[i]);
            }
        }
    }
}

/// The time of an SRT timecode in milliseconds: `HH:MM:SS,mmm`, `HH:MM:SS.mmm`, `MM:SS,mmm`
/// or `MM:SS.mmm`.
pub fn parse_srt_time_ms(s: &str) -> (r: Option<u64>)
    requires
        srt_time_fits(s@),
    ensures
        match r {
            Some(ms) => srt_time(s@) == Some(ms as nat),
            None => srt_time(s@) is None,
        },
{
    let chars = chars_of(s);
    match read_srt_time(chars.as_slice()) {
        TimeReading::Millis(ms) => Some(ms),
        _ => None,
    }
}

// ---------------------------------------------------------------------------
// ASS timestamps
// ---------------------------------------------------------------------------
/// The ASS timestamp `h:mm:ss.cc` of a time in milliseconds.
pub open spec fn ass_time(ms: nat) -> Seq<char> {
    let cs = ms / 10;
    let s = cs / 100;
    let m = s / 60;
    crate::text::decimal(m / 60).push(':') + crate::text::decimal2(m % 60).push(':')
        + crate::text::decimal2(s % 60).push('.') + crate::text::decimal2(cs % 100)
}

/// Writes a time as an ASS timestamp, cut off to centiseconds.
pub fn ass_time_from_ms(ms: u64) -> (r: String)
    ensures
        r@ == ass_time(ms as nat),
{
    let total_cs: u64 = ms / 10;
    let cs: u64 = total_cs % 100;
    let total_s: u64 = total_cs / 100;
    let s: u64 = total_s % 60;
    let total_m: u64 = total_s / 60;
    let m: u64 = total_m % 60;
    let h: u64 = total_m / 60;
    let mut out = String::new();
    push_decimal(&mut out, h);
    out.push(':');
    push_decimal2(&mut out, m);
    out.push(':');
    push_decimal2(&mut out, s);
    out.push('.');
    push_decimal2(&mut out, cs);
    assert(out@ == ass_time(ms as nat));
    out
}

// ---------------------------------------------------------------------------
// Laws
// ---------------------------------------------------------------------------
/// A number below a thousand in three digits.
pub open spec fn decimal3(n: nat) -> Seq<char> {
    seq![
        crate::text::digit_char(n / 100),
        crate::text::digit_char(n / 10 % 10),
        crate::text::digit_char(n % 10),
    ]
}

/// The clock `mm:ss`.
pub open spec fn short_clock(m: nat, s: nat) -> Seq<char> {
    crate::text::decimal2(m).push(':') + crate::text::decimal2(s)
}

/// The clock `h:mm:ss`, with the hours as `hours` writes them.
pub open spec fn clock(hours: Seq<char>, m: nat, s: nat) -> Seq<char> {
    hours.push(':') + short_clock(m, s)
}

/// Digits that write `n`, when read as a field, are `n`.
proof fn lemma_field_of_digits(s: Seq<char>)
    requires
        crate::text::all_digits(s),
        s.len() > 0,
        crate::text::digits_value(s) <= u64::MAX,
    ensures
        field(s) == Some(crate::text::digits_value(s)),
        crate::text::split_on(s, ':') == seq![s],
{
    assert(crate::text::is_digit(s[0]) && crate::text::is_digit(s[s.len() - 1]));
    crate::text::lemma_digit_plain(s[0]);
    crate::text::lemma_digit_plain(s[s.len() - 1]);
    crate::text::lemma_trim_unchanged(s);
    crate::text::lemma_number_of_digits(s);
    assert(!s.contains(':')) by {
        if s.contains(':') {
            let i = choose|i: int| 0 <= i < s.len() && s[i] == ':';
            assert(crate::text::is_digit(s[i]));
        }
    }
    crate::text::lemma_split_single(s, ':');
}

/// What a clock that was written out shows.
proof fn lemma_clocks(hours: Seq<char>, m: nat, s: nat)
    requires
        crate::text::all_digits(hours),
        hours.len() > 0,
        crate::text::digits_value(hours) <= u64::MAX,
        m <= u64::MAX,
        s <= u64::MAX,
    ensures
        clock_seconds(clock(hours, m, s)) == Some(
            crate::text::digits_value(hours) * 3600 + m * 60 + s,
        ),
        clock_seconds(short_clock(m, s)) == Some(m * 60 + s),
{
    let (mm, ss) = (crate::text::decimal2(m), crate::text::decimal2(s));
    crate::text::lemma_decimal2(m);
    crate::text::lemma_decimal2(s);
    lemma_field_of_digits(hours);
    lemma_field_of_digits(mm);
    lemma_field_of_digits(ss);
    crate::text::lemma_split_concat(mm, ':', ss);
    crate::text::lemma_split_concat(hours, ':', short_clock(m, s));
    assert(crate::text::split_on(short_clock(m, s), ':') =~= seq![mm, ss]);
    assert(crate::text::split_on(clock(hours, m, s), ':') =~= seq![hours, mm, ss]);
}

/// A timecode made of a clock, a mark and digits has these as its parts.
proof fn lemma_parts(clock: Seq<char>, mark: char, digits: Seq<char>)
    requires
        is_fraction_mark(mark),
        clock.len() > 0,
        crate::text::is_digit(clock.first()),
        crate::text::all_digits(digits),
        digits.len() > 0,
    ensures
        crate::text::trim(clock.push(mark) + digits) == clock.push(mark) + digits,
        clock_part(clock.push(mark) + digits) == clock,
        fraction_part(clock.push(mark) + digits) == digits,
        fraction_digits(digits) == digits,
{
    let t = clock.push(mark) + digits;
    assert(t.first() == clock.first());
    assert(t.last() == digits.last());
    assert(crate::text::is_digit(digits[digits.len() - 1]));
    crate::text::lemma_digit_plain(t.first());
    crate::text::lemma_digit_plain(t.last());
    crate::text::lemma_trim_unchanged(t);
    assert forall|i: int| clock.len() + 1 <= i < t.len() implies !is_fraction_mark(t[i]) by {
        assert(t[i] == digits[i - clock.len() - 1]);
        assert(crate::text::is_digit(digits[i - clock.len() - 1]));
    }
    lemma_last_mark_is(t, clock.len() as int + 1);
    assert(t.take(clock.len() as int) == clock);
    assert(t.skip(clock.len() as int + 1) == digits);
    lemma_all_digits_count(digits);
    assert(digits.take(digits.len() as int) == digits);
}

proof fn lemma_all_digits_count(s: Seq<char>)
    requires
        crate::text::all_digits(s),
    ensures
        crate::text::digit_count(s) == s.len(),
    decreases s.len(),
{
    if s.len() > 0 {
        assert(crate::text::is_digit(s[0]));
        assert forall|i: int| 0 <= i < s.drop_first().len() implies crate::text::is_digit(
            #[trigger] s.drop_first()[i],
        ) by {
            assert(s.drop_first()[i] == s[i + 1]);
        }
        lemma_all_digits_count(s.drop_first());
    }
}

/// The four forms of a timecode are read as what they say: `h:mm:ss,mmm` and `mm:ss,mmm`,
/// with a comma or a dot, the hours in any digits, such as `hh`. Only the 64 bits of the time
/// limit them.
pub proof fn law_timecode_forms(hours: Seq<char>, m: nat, s: nat, millis: nat, mark: char)
    requires
        crate::text::all_digits(hours),
        hours.len() > 0,
        crate::text::digits_value(hours) <= u64::MAX,
        m <= u64::MAX,
        s <= u64::MAX,
        millis < 1000,
        mark == ',' || mark == '.',
    ensures
        srt_time(clock(hours, m, s).push(mark) + decimal3(millis)) == Some(
            (crate::text::digits_value(hours) * 3600 + m * 60 + s) * 1000 + millis,
        ),
        srt_time(short_clock(m, s).push(mark) + decimal3(millis)) == Some(
            (m * 60 + s) * 1000 + millis,
        ),
{
    crate::text::lemma_decimal2(m);
    assert(crate::text::is_digit(hours[0]));
    assert(crate::text::is_digit(crate::text::decimal2(m)[0]));
    lemma_clocks(hours, m, s);
    lemma_clock_and_millis(clock(hours, m, s), mark, millis);
    lemma_clock_and_millis(short_clock(m, s), mark, millis);
}

/// Three digits are that many milliseconds.
proof fn lemma_decimal3(millis: nat)
    requires
        millis < 1000,
    ensures
        crate::text::all_digits(decimal3(millis)),
        crate::text::digits_value(decimal3(millis)) == millis,
{
    let digits = decimal3(millis);
    reveal_with_fuel(crate::text::digits_value, 4);
    assert(digits.drop_last() =~= seq![digits[0], digits[1]]);
    assert(digits.drop_last().drop_last() =~= seq![digits[0]]);
    assert(digits.drop_last().drop_last().drop_last() =~= Seq::<char>::empty());
}

/// A clock, a mark and milliseconds in three digits make up a timecode.
proof fn lemma_clock_and_millis(clock: Seq<char>, mark: char, millis: nat)
    requires
        clock_seconds(clock) is Some,
        clock.len() > 0,
        crate::text::is_digit(clock.first()),
        is_fraction_mark(mark),
        millis < 1000,
    ensures
        srt_time(clock.push(mark) + decimal3(millis)) == Some(
            clock_seconds(clock)->0 * 1000 + millis,
        ),
{
    let digits = decimal3(millis);
    lemma_decimal3(millis);
    lemma_parts(clock, mark, digits);
    assert(pow10(0) == 1);
    assert(millis * pow10(0) == millis) by (nonlinear_arith)
        requires
            pow10(0) == 1,
    ;
}

/// The timecode `hh:mm:ss,mmm` of a time in milliseconds.
pub open spec fn srt_stamp(ms: nat) -> Seq<char> {
    let s = ms / 1000;
    let m = s / 60;
    clock(crate::text::decimal2(m / 60), m % 60, s % 60).push(',') + decimal3(ms % 1000)
}

/// A timecode that was written out is read as the time it was made from.
pub proof fn law_srt_stamp_reads_back(ms: nat)
    requires
        ms <= u64::MAX,
    ensures
        srt_time(srt_stamp(ms)) == Some(ms),
        srt_time_fits(srt_stamp(ms)),
{
    let s = ms / 1000;
    let m = s / 60;
    crate::text::lemma_decimal2(m / 60);
    law_timecode_forms(crate::text::decimal2(m / 60), m % 60, s % 60, ms % 1000, ',');
}

/// A written timecode holds no white space and no minus sign.
pub proof fn lemma_srt_stamp_plain(ms: nat)
    ensures
        srt_stamp(ms).len() > 0,
        forall|i: int|
            0 <= i < srt_stamp(ms).len() ==> !crate::text::is_white_space(#[trigger] srt_stamp(
                ms,
            )[i]) && srt_stamp(ms)[i] != '-',
{
    let s = ms / 1000;
    let m = s / 60;
    let (hh, mm, ss) = (
        crate::text::decimal2(m / 60),
        crate::text::decimal2(m % 60),
        crate::text::decimal2(s % 60),
    );
    crate::text::lemma_decimal2(m / 60);
    crate::text::lemma_decimal2(m % 60);
    crate::text::lemma_decimal2(s % 60);
    let front = clock(hh, m % 60, s % 60);
    let digits = decimal3(ms % 1000);
    assert forall|i: int| 0 <= i < srt_stamp(ms).len() implies !crate::text::is_white_space(
        #[trigger] srt_stamp(ms)[i],
    ) && srt_stamp(ms)[i] != '-' by {
        let c = srt_stamp(ms)[i];
        if i > front.len() {
            assert(c == digits[i - front.len() - 1]);
            assert(crate::text::is_digit(c));
        } else if i < front.len() {
            assert(c == front[i]);
            if i < hh.len() {
                assert(c == hh[i]);
            } else if i > hh.len() {
                let j = i - hh.len() - 1;
                assert(c == (mm.push(':') + ss)[j]);
                if j < mm.len() {
                    assert(c == mm[j]);
                } else if j > mm.len() {
                    assert(c == ss[j - mm.len() - 1]);
                }
            }
        }
    }
}

/// White space round a timecode means nothing.
pub proof fn law_white_space_round_timecode(s: Seq<char>)
    ensures
        srt_time(crate::text::trim(s)) == srt_time(s),
        srt_time_fits(crate::text::trim(s)) == srt_time_fits(s),
{
    crate::text::lemma_trim_idempotent(s);
}

/// Fraction digits beyond the third are cut off, however many there are: what is left is
/// the value of the first three, which is the fraction rounded down.
pub proof fn law_fraction_cut_off(digits: Seq<char>)
    requires
        crate::text::all_digits(digits),
        digits.len() > 3,
    ensures
        fraction_millis(digits) == crate::text::digits_value(digits.take(3)),
        fraction_millis(digits) == crate::text::digits_value(digits) / pow10(
            (digits.len() - 3) as nat,
        ),
{
    lemma_all_digits_count(digits);
    assert(digits.take(digits.len() as int) == digits);
    lemma_leading_digits(digits, 3);
}

/// `s` with dots in place of commas.
pub open spec fn with_dots(s: Seq<char>) -> Seq<char> {
    s.map_values(
        |c: char|
            if c == ',' {
                '.'
            } else {
                c
            },
    )
}

/// A comma means the same as a dot.
pub proof fn law_comma_or_dot(s: Seq<char>)
    ensures
        srt_time(with_dots(s)) == srt_time(s),
        srt_time_fits(with_dots(s)) == srt_time_fits(s),
{
    let t = crate::text::trim(s);
    lemma_dots_trim(s);
    lemma_dots_last_mark(t);
    lemma_last_mark_stands(t);
    assert(clock_part(with_dots(t)) =~= with_dots(clock_part(t)));
    assert(fraction_part(with_dots(t)) =~= fraction_part(t));
    lemma_dots_clock(clock_part(t));
}

/// Dots in place of commas do not change what is trimmed.
pub proof fn lemma_dots_trim(s: Seq<char>)
    ensures
        crate::text::trim(with_dots(s)) == with_dots(crate::text::trim(s)),
{
    lemma_dots_trim_start(s);
    lemma_dots_trim_end(crate::text::trim_start(s));
}

proof fn lemma_dots_trim_start(s: Seq<char>)
    ensures
        crate::text::trim_start(with_dots(s)) == with_dots(crate::text::trim_start(s)),
    decreases s.len(),
{
    if s.len() > 0 {
        assert(with_dots(s).drop_first() =~= with_dots(s.drop_first()));
        lemma_dots_trim_start(s.drop_first());
    }
}

proof fn lemma_dots_trim_end(s: Seq<char>)
    ensures
        crate::text::trim_end(with_dots(s)) == with_dots(crate::text::trim_end(s)),
    decreases s.len(),
{
    if s.len() > 0 {
        assert(with_dots(s).drop_last() =~= with_dots(s.drop_last()));
        lemma_dots_trim_end(s.drop_last());
    }
}

proof fn lemma_dots_last_mark(s: Seq<char>)
    ensures
        last_mark(with_dots(s)) == last_mark(s),
    decreases s.len(),
{
    if s.len() > 0 {
        assert(with_dots(s).drop_last() =~= with_dots(s.drop_last()));
        lemma_dots_last_mark(s.drop_last());
    }
}

/// A mark stands where `last_mark` says, and none behind it.
proof fn lemma_last_mark_stands(s: Seq<char>)
    ensures
        match last_mark(s) {
            Some(at) => 0 <= at < s.len() && is_fraction_mark(s[at]) && forall|i: int|
                at < i < s.len() ==> !is_fraction_mark(#[trigger] s[i]),
            None => forall|i: int| 0 <= i < s.len() ==> !is_fraction_mark(#[trigger] s[i]),
        },
    decreases s.len(),
{
    if s.len() > 0 {
        lemma_last_mark_stands(s.drop_last());
        assert forall|i: int| 0 <= i < s.len() - 1 implies #[trigger] s[i] == s.drop_last()[i] by {}
    }
}

proof fn lemma_dots_clock(s: Seq<char>)
    ensures
        clock_seconds(with_dots(s)) == clock_seconds(s),
{
    let (a, b) = (crate::text::split_on(s, ':'), crate::text::split_on(with_dots(s), ':'));
    lemma_dots_split(s);
    assert forall|i: int| 0 <= i < a.len() implies field(#[trigger] b[i]) == field(a[i]) by {
        lemma_dots_trim(a[i]);
        lemma_dots_number(crate::text::trim(a[i]));
    }
}

proof fn lemma_dots_split(s: Seq<char>)
    ensures
        crate::text::split_on(with_dots(s), ':') == crate::text::split_on(s, ':').map_values(
            |piece: Seq<char>| with_dots(piece),
        ),
    decreases s.len(),
{
    let at = crate::text::first_index(s, ':') as int;
    crate::text::lemma_first_index(s, ':');
    let d = with_dots(s);
    assert forall|i: int| 0 <= i < at implies d[i] != ':' by {
        assert(s[i] != ':');
    }
    crate::text::lemma_first_index_is(d, ':', at);
    let dots = |piece: Seq<char>| with_dots(piece);
    if at < s.len() {
        lemma_dots_split(s.skip(at + 1));
        assert(d.take(at) =~= with_dots(s.take(at)));
        assert(d.skip(at + 1) =~= with_dots(s.skip(at + 1)));
        let rest = crate::text::split_on(s.skip(at + 1), ':');
        assert((seq![s.take(at)] + rest).map_values(dots) =~= seq![with_dots(s.take(at))]
            + rest.map_values(dots));
    } else {
        assert(seq![s].map_values(dots) =~= seq![d]);
    }
}

proof fn lemma_dots_number(s: Seq<char>)
    ensures
        crate::text::number(with_dots(s)) == crate::text::number(s),
{
    let d = with_dots(s);
    if s.len() > 0 && s[0] == '+' {
        assert(d[0] == '+');
        assert(d.skip(1) =~= with_dots(s.skip(1)));
        lemma_dots_digits(s.skip(1));
    } else {
        lemma_dots_digits(s);
    }
}

proof fn lemma_dots_digits(s: Seq<char>)
    ensures
        crate::text::all_digits(with_dots(s)) == crate::text::all_digits(s),
        crate::text::all_digits(s) ==> with_dots(s) == s,
{
    let d = with_dots(s);
    if crate::text::all_digits(s) {
        assert forall|i: int| 0 <= i < s.len() implies d[i] == s[i] by {
            assert(crate::text::is_digit(s[i]));
        }
        assert(d =~= s);
    }
    if crate::text::all_digits(d) {
        assert forall|i: int| 0 <= i < s.len() implies crate::text::is_digit(#[trigger] s[i]) by {
            assert(crate::text::is_digit(d[i]));
        }
    }
}

/// Minutes and seconds alone, with one colon between them, mean the same as with zero hours
/// before them.
pub proof fn law_hours_may_be_left_out(s: Seq<char>)
    requires
        crate::text::split_on(clock_part(s), ':').len() == 2,
    ensures
        srt_time(seq!['0', '0', ':'] + s) == srt_time(s),
        srt_time_fits(seq!['0', '0', ':'] + s) == srt_time_fits(s),
{
    let t = crate::text::trim(s);
    let (before, behind) = crate::text::lemma_trim_parts(s);
    let hours = seq!['0', '0'];
    let front = hours.push(':') + before;
    let long = front + t;
    let short_front = clock_part(t);
    lemma_trimmed_clock(s);
    if t.len() == 0 {
        assert(short_front =~= Seq::empty());
        crate::text::lemma_split_single(short_front, ':');
    }
    crate::text::lemma_trim_ends(s);
    assert(long.first() == '0' && long.last() == t.last());
    crate::text::lemma_trim_unchanged(long);
    crate::text::lemma_trim_append(long, behind);
    assert(seq!['0', '0', ':'] + s =~= long + behind);
    assert forall|i: int| 0 <= i < front.len() implies !is_fraction_mark(#[trigger] front[i]) by {
        if i >= 3 {
            assert(front[i] == before[i - 3]);
            assert(crate::text::is_white_space(before[i - 3]));
        }
    }
    lemma_last_mark_concat(front, t);
    lemma_last_mark_stands(t);
    assert(fraction_part(long) =~= fraction_part(t));
    assert(clock_part(long) =~= hours.push(':') + (before + short_front));
    crate::text::lemma_split_concat(hours, ':', before + short_front);
    assert(crate::text::all_digits(hours));
    assert(crate::text::digits_value(hours) == 0) by {
        reveal_with_fuel(crate::text::digits_value, 3);
        assert(hours.drop_last() =~= seq!['0']);
        assert(hours.drop_last().drop_last() =~= Seq::<char>::empty());
    }
    lemma_field_of_digits(hours);
    assert forall|i: int| 0 <= i < before.len() implies #[trigger] before[i] != ':' by {
        assert(crate::text::is_white_space(before[i]));
    }
    crate::text::lemma_split_prefix(before, short_front, ':');
    let pieces = crate::text::split_on(short_front, ':');
    crate::text::lemma_trim_prefix(before, pieces[0]);
    assert(crate::text::split_on(clock_part(long), ':') =~= seq![
        hours,
        before + pieces[0],
        pieces[1],
    ]);
}

/// The clock of a text has as many fields as that of the trimmed text.
proof fn lemma_trimmed_clock(s: Seq<char>)
    ensures
        crate::text::split_on(clock_part(crate::text::trim(s)), ':').len()
            == crate::text::split_on(clock_part(s), ':').len(),
{
    let t = crate::text::trim(s);
    let (before, behind) = crate::text::lemma_trim_parts(s);
    let rest = t + behind;
    assert(s =~= before + rest);
    assert forall|i: int| 0 <= i < before.len() implies !is_fraction_mark(#[trigger] before[i])
        && before[i] != ':' by {
        assert(crate::text::is_white_space(before[i]));
    }
    assert forall|i: int| 0 <= i < behind.len() implies !is_fraction_mark(#[trigger] behind[i])
        && behind[i] != ':' by {
        assert(crate::text::is_white_space(behind[i]));
    }
    lemma_last_mark_stands(t);
    let after = match last_mark(t) {
        Some(at) => at + 1,
        None => 0,
    };
    assert forall|i: int| after <= i < rest.len() implies !is_fraction_mark(#[trigger] rest[i]) by {
        if i < t.len() {
            assert(rest[i] == t[i]);
        } else {
            assert(rest[i] == behind[i - t.len()]);
        }
    }
    lemma_last_mark_is(rest, after);
    lemma_last_mark_concat(before, rest);
    if after > 0 {
        assert(clock_part(s) =~= before + clock_part(t));
    } else {
        assert(clock_part(s) =~= before + (clock_part(t) + behind));
        crate::text::lemma_split_suffix(clock_part(t), behind, ':');
        crate::text::lemma_split_prefix(before, clock_part(t) + behind, ':');
    }
    crate::text::lemma_split_prefix(before, clock_part(t), ':');
}

/// A text without marks before another one only moves the last mark.
proof fn lemma_last_mark_concat(front: Seq<char>, s: Seq<char>)
    requires
        forall|i: int| 0 <= i < front.len() ==> !is_fraction_mark(#[trigger] front[i]),
    ensures
        last_mark(front + s) == (match last_mark(s) {
            Some(at) => Some(front.len() + at),
            None => None,
        }),
    decreases s.len(),
{
    if s.len() > 0 {
        assert((front + s).drop_last() =~= front + s.drop_last());
        lemma_last_mark_concat(front, s.drop_last());
    } else {
        assert(front + s =~= front);
        lemma_last_mark_is(front, 0);
    }
}

/// Dividing by a power of ten leaves the leading digits.
proof fn lemma_leading_digits(s: Seq<char>, n: int)
    requires
        crate::text::all_digits(s),
        0 <= n <= s.len(),
    ensures
        crate::text::digits_value(s) / pow10((s.len() - n) as nat) == crate::text::digits_value(
            s.take(n),
        ),
    decreases s.len(),
{
    if n == s.len() {
        assert(s.take(n) == s);
        assert(pow10(0) == 1);
        vstd::arithmetic::div_mod::lemma_div_basics(crate::text::digits_value(s) as int);
    } else {
        let rest = s.drop_last();
        assert forall|i: int| 0 <= i < rest.len() implies crate::text::is_digit(
            #[trigger] rest[i],
        ) by {
            assert(rest[i] == s[i]);
        }
        lemma_leading_digits(rest, n);
        assert(rest.take(n) == s.take(n));
        assert(crate::text::is_digit(s[s.len() - 1]));
        let v = crate::text::digits_value(rest) as int;
        let d = (s.last() as int - '0' as int) as int;
        let p = pow10((rest.len() - n) as nat) as int;
        lemma_pow10_positive((rest.len() - n) as nat);
        vstd::arithmetic::div_mod::lemma_div_denominator(v * 10 + d, 10, p);
        assert((v * 10 + d) / 10 == v);
        assert(pow10((s.len() - n) as nat) == 10 * p);
        assert(crate::text::digits_value(s) == v * 10 + d);
    }
}

/// An ASS timestamp, read as a timecode, is the time it was made from, cut off to
/// centiseconds.
pub proof fn law_ass_time_reads_back(ms: nat)
    requires
        ms <= u64::MAX,
    ensures
        srt_time(ass_time(ms)) == Some((ms - ms % 10) as nat),
        srt_time_fits(ass_time(ms)),
{
    let cs = ms / 10;
    let total_s = cs / 100;
    let total_m = total_s / 60;
    let (h, m, s) = (total_m / 60, total_m % 60, total_s % 60);
    let hh = crate::text::decimal(h);
    let digits = crate::text::decimal2(cs % 100);
    assert(ass_time(ms) =~= clock(hh, m, s).push('.') + digits);
    crate::text::lemma_decimal(h);
    crate::text::lemma_decimal2(cs % 100);
    assert(crate::text::is_digit(hh[0]));
    lemma_clocks(hh, m, s);
    lemma_parts(clock(hh, m, s), '.', digits);
    assert(digits.len() == 2) by {
        reveal_with_fuel(crate::text::decimal, 3);
    }
    assert(pow10(1) == 10) by {
        reveal_with_fuel(pow10, 2);
    }
    assert((h * 3600 + m * 60 + s) * 1000 + (cs % 100) * 10 == ms - ms % 10);
}

/// A clock shows what its fields say: hours, minutes and seconds if there are three, minutes
/// and seconds if there are two. Each field is a number, with white space round it or not,
/// and as large as it may be. A mark and a fraction behind it add the milliseconds of the
/// fraction. Any other clock is none.
pub proof fn law_fields_of_a_timecode(fields: Seq<Seq<char>>, mark: char, fraction: Seq<char>)
    requires
        fields.len() > 0,
        forall|i: int| 0 <= i < fields.len() ==> !(#[trigger] fields[i]).contains(':'),
        mark == ',' || mark == '.',
        !fraction.contains(',') && !fraction.contains('.'),
    ensures
        ({
            let clock = crate::text::join(fields, ':');
            let values = fields.map_values(
                |f: Seq<char>| crate::text::number(crate::text::trim(f)),
            );
            let seconds = if values.len() == 3 && values[0] is Some && values[1] is Some && values[2]
                is Some {
                Some((60 * values[0]->0 + values[1]->0) * 60 + values[2]->0)
            } else if values.len() == 2 && values[0] is Some && values[1] is Some {
                Some(60 * values[0]->0 + values[1]->0)
            } else {
                None
            };
            let long = clock.push(mark) + fraction;
            &&& crate::text::trim(long) == long ==> srt_time(long) == (match seconds {
                Some(s) => Some(1000 * s + fraction_millis(fraction)),
                None => None,
            })
            &&& crate::text::trim(clock) == clock && !clock.contains(',') && !clock.contains('.')
                ==> srt_time(clock) == (match seconds {
                Some(s) => Some(1000 * s),
                None => None,
            })
        }),
{
    let clock = crate::text::join(fields, ':');
    crate::text::lemma_split_join(fields, ':');
    let long = clock.push(mark) + fraction;
    assert forall|i: int| clock.len() + 1 <= i < long.len() implies !is_fraction_mark(long[i]) by {
        assert(long[i] == fraction[i - clock.len() - 1]);
        assert(fraction.contains(fraction[i - clock.len() - 1]));
    }
    lemma_last_mark_is(long, clock.len() as int + 1);
    assert(long.take(clock.len() as int) =~= clock);
    assert(long.skip(clock.len() as int + 1) =~= fraction);
    if !clock.contains(',') && !clock.contains('.') {
        assert forall|i: int| 0 <= i < clock.len() implies !is_fraction_mark(clock[i]) by {
            assert(clock.contains(clock[i]));
        }
        lemma_last_mark_is(clock, 0);
        assert(fraction_millis(Seq::empty()) == 0) by {
            assert(fraction_digits(Seq::empty()) =~= Seq::<char>::empty());
        }
    }
}

/// The milliseconds of a fraction are what its digits are worth, rounded down: with `k` digits
/// of the value `v`, that is `v` times a thousand by ten to the power of `k`. Whatever stands
/// behind the digits means nothing.
pub proof fn law_milliseconds_of_a_fraction(digits: Seq<char>, rest: Seq<char>)
    requires
        forall|i: int| 0 <= i < digits.len() ==> crate::text::is_digit(#[trigger] digits[i]),
        rest.len() > 0 ==> !crate::text::is_digit(rest[0]),
    ensures
        ({
            let millis = fraction_millis(digits + rest);
            let one = vstd::arithmetic::power::pow(10, digits.len());
            millis * one <= 1000 * crate::text::digits_value(digits) < (millis + 1) * one
        }),
{
    let k = digits.len();
    let v = crate::text::digits_value(digits) as int;
    crate::text::law_leading_digits(digits, rest);
    assert((digits + rest).take(k as int) =~= digits);
    let millis = fraction_millis(digits + rest) as int;
    lemma_pow10_is_a_power(k);
    lemma_pow10_positive(k);
    let one = pow10(k) as int;
    reveal_with_fuel(pow10, 4);
    if k == 0 {
        assert(v == 0);
        assert(millis * 1 == 0 && 1 <= (millis + 1) * 1);
    } else if k <= 3 {
        let scale = pow10((3 - k) as nat) as int;
        assert(pow10(0) == 1 && pow10(1) == 10 && pow10(2) == 100 && pow10(3) == 1000);
        assert(scale * one == 1000) by (nonlinear_arith)
            requires
                (scale == 100 && one == 10) || (scale == 10 && one == 100) || (scale == 1 && one
                    == 1000),
        ;
        assert((v * scale) * one == v * (scale * one)) by (nonlinear_arith);
        assert((millis + 1) * one == millis * one + one) by (nonlinear_arith);
    } else {
        let p = pow10((k - 3) as nat) as int;
        lemma_leading_digits(digits, 3);
        lemma_pow10_positive((k - 3) as nat);
        assert(one == 1000 * p) by {
            assert(pow10(k) == 10 * pow10((k - 1) as nat));
            assert(pow10((k - 1) as nat) == 10 * pow10((k - 2) as nat));
            assert(pow10((k - 2) as nat) == 10 * pow10((k - 3) as nat));
        }
        vstd::arithmetic::div_mod::lemma_fundamental_div_mod(v, p);
        vstd::arithmetic::div_mod::lemma_mod_bound(v, p);
        assert(millis * one <= 1000 * v < (millis + 1) * one) by (nonlinear_arith)
            requires
                one == 1000 * p,
                v == p * millis + v % p,
                0 <= v % p < p,
        ;
    }
}

proof fn lemma_pow10_is_a_power(n: nat)
    ensures
        pow10(n) == vstd::arithmetic::power::pow(10, n),
    decreases n,
{
    reveal(vstd::arithmetic::power::pow);
    if n > 0 {
        lemma_pow10_is_a_power((n - 1) as nat);
    }
}

/// A time fits unless it is more than 64 bits hold; a text that is no timecode fits too.
pub proof fn law_times_that_fit(s: Seq<char>)
    ensures
        srt_time_fits(s) <==> srt_time(s) is None || srt_time(s)->0 <= u64::MAX,
{
}

/// The timestamp of a time of so many hours, minutes, seconds and hundredths of a second:
/// the hours as they are, and two digits for each of the others. The last digit of the
/// milliseconds means nothing.
pub proof fn law_form_of_ass_times(h: nat, m: nat, s: nat, cs: nat, rest: nat)
    requires
        m < 60,
        s < 60,
        cs < 100,
        rest < 10,
    ensures
        ass_time(((60 * h + m) * 60 + s) * 1000 + 10 * cs + rest) == crate::text::decimal(h) + seq![
            ':',
            crate::text::digit_char(m / 10),
            crate::text::digit_char(m % 10),
            ':',
            crate::text::digit_char(s / 10),
            crate::text::digit_char(s % 10),
            '.',
            crate::text::digit_char(cs / 10),
            crate::text::digit_char(cs % 10),
        ],
{
    let ms = ((60 * h + m) * 60 + s) * 1000 + 10 * cs + rest;
    assert(ms / 10 == ((60 * h + m) * 60 + s) * 100 + cs);
    assert(ms / 10 % 100 == cs && ms / 10 / 100 == (60 * h + m) * 60 + s);
    assert(((60 * h + m) * 60 + s) % 60 == s && ((60 * h + m) * 60 + s) / 60 == 60 * h + m);
    assert((60 * h + m) % 60 == m && (60 * h + m) / 60 == h);
    lemma_two_digits(m);
    lemma_two_digits(s);
    lemma_two_digits(cs);
    assert(ass_time(ms) =~= crate::text::decimal(h) + seq![
        ':',
        crate::text::digit_char(m / 10),
        crate::text::digit_char(m % 10),
        ':',
        crate::text::digit_char(s / 10),
        crate::text::digit_char(s % 10),
        '.',
        crate::text::digit_char(cs / 10),
        crate::text::digit_char(cs % 10),
    ]);
}

proof fn lemma_two_digits(n: nat)
    requires
        n < 100,
    ensures
        crate::text::decimal2(n) == seq![
            crate::text::digit_char(n / 10),
            crate::text::digit_char(n % 10),
        ],
{
    reveal_with_fuel(crate::text::decimal, 2);
    assert(crate::text::decimal2(n) =~= seq![
        crate::text::digit_char(n / 10),
        crate::text::digit_char(n % 10),
    ]);
}

} // verus!
