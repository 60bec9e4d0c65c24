//! Character-level building blocks: trimming, splitting, decimal numbers.

use vstd::prelude::*;
use vstd::slice::slice_subrange;

verus! {

/// `String::push` appends the given character to the end of the string.
pub assume_specification[ String::push ](s: &mut String, c: char)
    ensures
        final(s)@ == old(s)@.push(c),
;

// ---------------------------------------------------------------------------
// What the operations mean
// ---------------------------------------------------------------------------
/// The characters with the Unicode property `White_Space`.
pub open spec fn is_white_space(c: char) -> bool {
    ||| '\u{9}' <= c <= '\u{d}'
    ||| c == '\u{20}'
    ||| c == '\u{85}'
    ||| c == '\u{a0}'
    ||| c == '\u{1680}'
    ||| '\u{2000}' <= c <= '\u{200a}'
    ||| c == '\u{2028}'
    ||| c == '\u{2029}'
    ||| c == '\u{202f}'
    ||| c == '\u{205f}'
    ||| c == '\u{3000}'
}

/// `s` without its leading white space.
pub open spec fn trim_start(s: Seq<char>) -> Seq<char>
    decreases s.len(),
{
    if s.len() > 0 && is_white_space(s.first()) {
        trim_start(s.drop_first())
    } else {
        s
    }
}

/// `s` without its trailing white space.
pub open spec fn trim_end(s: Seq<char>) -> Seq<char>
    decreases s.len(),
{
    if s.len() > 0 && is_white_space(s.last()) {
        trim_end(s.drop_last())
    } else {
        s
    }
}

/// `s` without the white space at its two ends.
pub open spec fn trim(s: Seq<char>) -> Seq<char> {
    trim_end(trim_start(s))
}

/// The position of the first `c` in `s`, or the length of `s` if there is none.
pub open spec fn first_index(s: Seq<char>, c: char) -> nat
    decreases s.len(),
{
    if s.len() == 0 || s.first() == c {
        0
    } else {
        1 + first_index(s.drop_first(), c)
    }
}

/// The pieces of `s` between the separators; one more than there are separators.
pub open spec fn split_on(s: Seq<char>, sep: char) -> Seq<Seq<char>>
    decreases s.len(),
{
    let at = first_index(s, sep) as int;
    if at < s.len() {
        seq![s.take(at)] + split_on(s.skip(at + 1), sep)
    } else {
        seq![s]
    }
}

/// The pieces one after the other, with `sep` between each two.
pub open spec fn join(pieces: Seq<Seq<char>>, sep: char) -> Seq<char>
    decreases pieces.len(),
{
    if pieces.len() == 0 {
        Seq::empty()
    } else if pieces.len() == 1 {
        pieces[0]
    } else {
        join(pieces.drop_last(), sep).push(sep) + pieces.last()
    }
}

/// The decimal digits.
pub open spec fn is_digit(c: char) -> bool {
    '0' <= c <= '9'
}

/// How many digits `s` begins with.
pub open spec fn digit_count(s: Seq<char>) -> nat
    decreases s.len(),
{
    if s.len() > 0 && is_digit(s.first()) {
        1 + digit_count(s.drop_first())
    } else {
        0
    }
}

/// The number that a sequence of digits writes, most significant first.
pub open spec fn digits_value(s: Seq<char>) -> nat
    decreases s.len(),
{
    if s.len() == 0 {
        0
    } else {
        digits_value(s.drop_last()) * 10 + (s.last() as nat - '0' as nat) as nat
    }
}

/// All characters of `s` are digits.
pub open spec fn all_digits(s: Seq<char>) -> bool {
    forall|i: int| 0 <= i < s.len() ==> is_digit(#[trigger] s[i])
}

/// The number that `s` writes: an optional `+`, then one or more digits whose value
/// fits in 64 bits; nothing for any other text.
pub open spec fn number(s: Seq<char>) -> Option<nat> {
    let digits = if s.len() > 0 && s[0] == '+' {
        s.skip(1)
    } else {
        s
    };
    if digits.len() > 0 && all_digits(digits) && digits_value(digits) <= u64::MAX {
        Some(digits_value(digits))
    } else {
        None
    }
}

/// The digit character of `d`, for `d` below ten.
pub open spec fn digit_char(d: nat) -> char {
    ('0' as nat + d) as char
}

/// `n` in decimal, without leading zeros.
pub open spec fn decimal(n: nat) -> Seq<char>
    decreases n,
{
    if n < 10 {
        seq![digit_char(n)]
    } else {
        decimal(n / 10).push(digit_char(n % 10))
    }
}

/// `n` in decimal, with a leading zero if it has a single digit.
pub open spec fn decimal2(n: nat) -> Seq<char> {
    if n < 10 {
        seq!['0'] + decimal(n)
    } else {
        decimal(n)
    }
}

/// `prefix` stands at the beginning of `s`.
pub open spec fn begins_with(s: Seq<char>, prefix: Seq<char>) -> bool {
    prefix.len() <= s.len() && s.take(prefix.len() as int) == prefix
}

// ---------------------------------------------------------------------------
// The operations
// ---------------------------------------------------------------------------
/// Whether `c` is white space.
pub fn white_space(c: char) -> (r: bool)
    ensures
        r == is_white_space(c),
{
    ('\u{9}' <= c && c <= '\u{d}') || c == '\u{20}' || c == '\u{85}' || c == '\u{a0}' || c
        == '\u{1680}' || ('\u{2000}' <= c && c <= '\u{200a}') || c == '\u{2028}' || c == '\u{2029}'
        || c == '\u{202f}' || c == '\u{205f}' || c == '\u{3000}'
}

/// Whether `c` is a decimal digit.
pub fn digit(c: char) -> (r: bool)
    ensures
        r == is_digit(c),
{
    '0' <= c && c <= '9'
}

/// The characters of a string.
pub fn chars_of(s: &str) -> (chars: Vec<char>)
    ensures
        chars@ == s@,
{
    let mut chars: Vec<char> = Vec::new();
    for c in it: s.chars()
        invariant
            chars@ == s@.take(it.index()),
            it.seq() == s@,
    {
        chars.push(c);
        assert(chars@ == s@.take(it.index() + 1));
    }
    chars
}

/// Appends characters to a string.
pub fn push_chars(out: &mut String, chars: &[char])
    ensures
        final(out)@ == old(out)@ + chars@,
{
    for i in 0..chars.len()
        invariant
            out@ == old(out)@ + chars@.take(i as int),
    {
        out.push(chars[i]);
        assert(out@ == old(out)@ + chars@.take(i + 1));
    }
    assert(chars@.take(chars@.len() as int) == chars@);
}

/// The slice without the white space at its two ends.
pub fn trim_chars<'a>(s: &'a [char]) -> (r: &'a [char])
    ensures
        r@ == trim(s@),
{
    let mut from: usize = 0;
    assert(s@.skip(0) == s@);
    while from < s.len() && white_space(s[from])
        invariant
            from <= s.len(),
            trim_start(s@.skip(from as int)) == trim_start(s@),
        ensures
            from <= s.len(),
            s@.skip(from as int) == trim_start(s@),
        decreases s.len() - from,
    {
        assert(s@.skip(from as int).drop_first() == s@.skip(from + 1));
        from = from + 1;
    }
    let mut to: usize = s.len();
    assert(s@.subrange(from as int, to as int) == s@.skip(from as int));
    while from < to && white_space(s[to - 1])
        invariant
            from <= to <= s.len(),
            trim_end(s@.subrange(from as int, to as int)) == trim(s@),
        ensures
            from <= to <= s.len(),
            s@.subrange(from as int, to as int) == trim(s@),
        decreases to,
    {
        assert(s@.subrange(from as int, to as int).drop_last() == s@.subrange(
            from as int,
            to - 1,
        ));
        to = to - 1;
    }
    slice_subrange(s, from, to)
}

/// `first_index` is the least position that holds `c`.
pub proof fn lemma_first_index(s: Seq<char>, c: char)
    ensures
        first_index(s, c) <= s.len(),
        first_index(s, c) < s.len() ==> s[first_index(s, c) as int] == c,
        forall|i: int| 0 <= i < first_index(s, c) ==> s[i] != c,
    decreases s.len(),
{
    if s.len() > 0 && s.first() != c {
        let rest = s.drop_first();
        lemma_first_index(rest, c);
        assert forall|i: int| 0 <= i < first_index(s, c) implies s[i] != c by {
            if i > 0 {
                assert(s[i] == rest[i - 1]);
            }
        }
    }
}

/// The least position that holds `c` is `first_index`.
pub proof fn lemma_first_index_is(s: Seq<char>, c: char, at: int)
    requires
        0 <= at <= s.len(),
        at < s.len() ==> s[at] == c,
        forall|i: int| 0 <= i < at ==> s[i] != c,
    ensures
        first_index(s, c) == at,
    decreases s.len(),
{
    if s.len() > 0 && at > 0 {
        assert(s[0] != c);
        let rest = s.drop_first();
        assert forall|i: int| 0 <= i < at - 1 implies rest[i] != c by {
            assert(rest[i] == s[i + 1]);
        }
        lemma_first_index_is(rest, c, at - 1);
    }
}

/// The views of a list of slices.
pub open spec fn views(slices: Seq<&[char]>) -> Seq<Seq<char>> {
    Seq::new(slices.len(), |i: int| slices[i]@)
}

/// The pieces of a slice between the separators.
pub fn split_chars<'a>(s: &'a [char], sep: char) -> (pieces: Vec<&'a [char]>)
    ensures
        views(pieces@) == split_on(s@, sep),
        pieces@.len() > 0,
{
    let mut pieces: Vec<&'a [char]> = Vec::new();
    let mut from: usize = 0;
    let mut i: usize = 0;
    assert(s@.skip(0) == s@);
    assert(views(pieces@) + split_on(s@, sep) == split_on(s@, sep));
    while i < s.len()
        invariant
            from <= i <= s.len(),
            forall|j: int| from <= j < i ==> s@[j] != sep,
            views(pieces@) + split_on(s@.skip(from as int), sep) == split_on(s@, sep),
        decreases s.len() - i,
    {
        if s[i] == sep {
            let ghost rest = s@.skip(from as int);
            let ghost before = views(pieces@);
            pieces.push(slice_subrange(s, from, i));
            proof {
                lemma_first_index_is(rest, sep, i - from);
                assert(rest.take(i - from) == s@.subrange(from as int, i as int));
                assert(rest.skip(i - from + 1) == s@.skip(i + 1));
                assert(views(pieces@) == before.push(s@.subrange(from as int, i as int)));
                assert(before.push(s@.subrange(from as int, i as int)) + split_on(s@.skip(i + 1), sep)
                    == before + (seq![s@.subrange(from as int, i as int)] + split_on(
                    s@.skip(i + 1),
                    sep,
                )));
            }
            from = i + 1;
        }
        i = i + 1;
    }
    let ghost before = views(pieces@);
    pieces.push(slice_subrange(s, from, s.len()));
    proof {
        let rest = s@.skip(from as int);
        lemma_first_index_is(rest, sep, rest.len() as int);
        assert(rest == s@.subrange(from as int, s@.len() as int));
        assert(views(pieces@) == before + seq![rest]);
    }
    pieces
}

/// Whether `s` begins with `prefix`.
pub fn starts_with(s: &str, prefix: &str) -> (r: bool)
    ensures
        r == begins_with(s@, prefix@),
{
    let chars = chars_of(s);
    let wanted = chars_of(prefix);
    if wanted.len() > chars.len() {
        return false;
    }
    let mut i: usize = 0;
    while i < wanted.len()
        invariant
            i <= wanted.len() <= chars.len(),
            chars@ == s@,
            wanted@ == prefix@,
            forall|j: int| 0 <= j < i ==> chars@[j] == wanted@[j],
        decreases wanted.len() - i,
    {
        if chars[i] != wanted[i] {
            assert(s@.take(prefix@.len() as int)[i as int] != prefix@[i as int]);
            return false;
        }
        i = i + 1;
    }
    assert(s@.take(prefix@.len() as int) == prefix@);
    true
}

/// How many digits the slice begins with.
pub fn count_digits(s: &[char]) -> (n: usize)
    ensures
        n == digit_count(s@),
        n <= s.len(),
{
    let mut n: usize = 0;
    assert(s@.skip(0) == s@);
    while n < s.len() && digit(s[n])
        invariant
            n <= s.len(),
            digit_count(s@) == n + digit_count(s@.skip(n as int)),
        ensures
            n <= s.len(),
            digit_count(s@) == n,
        decreases s.len() - n,
    {
        assert(s@.skip(n as int).drop_first() == s@.skip(n + 1));
        n = n + 1;
    }
    n
}

/// A longer sequence of digits writes a number at least as large.
proof fn lemma_digits_value_monotonic(s: Seq<char>, i: int)
    requires
        0 <= i <= s.len(),
    ensures
        digits_value(s.take(i)) <= digits_value(s),
    decreases s.len() - i,
{
    if i < s.len() {
        assert(s.take(i + 1).drop_last() == s.take(i));
        lemma_digits_value_monotonic(s, i + 1);
    } else {
        assert(s.take(i) == s);
    }
}

/// Reads a number: an optional `+`, then digits, with a value that fits in 64 bits.
pub fn parse_number(s: &[char]) -> (r: Option<u64>)
    ensures
        match r {
            Some(n) => number(s@) == Some(n as nat),
            None => number(s@) is None,
        },
{
    let digits = if s.len() > 0 && s[0] == '+' {
        slice_subrange(s, 1, s.len())
    } else {
        s
    };
    proof {
        if s@.len() > 0 {
            assert(s@.subrange(1, s@.len() as int) == s@.skip(1));
        }
    }
    if digits.len() == 0 {
        return None;
    }
    let mut n: u64 = 0;
    for i in 0..digits.len()
        invariant
            n == digits_value(digits@.take(i as int)),
            forall|j: int| 0 <= j < i ==> is_digit(digits@[j]),
            digits@ == (if s@.len() > 0 && s@[0] == '+' {
                s@.skip(1)
            } else {
                s@
            }),
    {
        let c = digits[i];
        if !digit(c) {
            return None;
        }
        let d: u64 = c as u64 - '0' as u64;
        proof {
            assert(digits@.take(i + 1).drop_last() == digits@.take(i as int));
            lemma_digits_value_monotonic(digits@, i + 1);
        }
        match n.checked_mul(10) {
            Some(tens) => match tens.checked_add(d) {
                Some(m) => {
                    n = m;
                },
                None => {
                    return None;
                },
            },
            None => {
                return None;
            },
        }
    }
    assert(digits@.take(digits@.len() as int) == digits@);
    Some(n)
}

/// Appends `n` in decimal.
pub fn push_decimal(out: &mut String, n: u64)
    ensures
        final(out)@ == old(out)@ + decimal(n as nat),
    decreases n,
{
    if n >= 10 {
        push_decimal(out, n / 10);
    }
    let d: u8 = (n % 10) as u8;
    out.push((48 + d) as char);
    assert(out@ == old(out)@ + decimal(n as nat));
}

/// Appends `n` in decimal with at least two digits.
pub fn push_decimal2(out: &mut String, n: u64)
    ensures
        final(out)@ == old(out)@ + decimal2(n as nat),
{
    if n < 10 {
        out.push('0');
    }
    push_decimal(out, n);
    assert(out@ == old(out)@ + decimal2(n as nat));
}

// ---------------------------------------------------------------------------
// Facts about the operations
// ---------------------------------------------------------------------------
/// A text begins with `prefix` if it is `prefix` and something behind it, and not otherwise.
pub proof fn law_begins_with(prefix: Seq<char>, rest: Seq<char>)
    ensures
        begins_with(prefix + rest, prefix),
        begins_with(rest, prefix) ==> rest == prefix + rest.skip(prefix.len() as int),
{
    assert((prefix + rest).take(prefix.len() as int) =~= prefix);
    if begins_with(rest, prefix) {
        assert(rest =~= rest.take(prefix.len() as int) + rest.skip(prefix.len() as int));
    }
}

/// A text begins with the first character of what it begins with.
pub proof fn lemma_first_of_prefix(s: Seq<char>, prefix: Seq<char>)
    requires
        prefix.len() > 0,
    ensures
        begins_with(s, prefix) ==> s[0] == prefix[0],
{
    if begins_with(s, prefix) {
        assert(s.take(prefix.len() as int)[0] == s[0]);
    }
}

proof fn lemma_trim_start_first(s: Seq<char>)
    ensures
        trim_start(s).len() > 0 ==> !is_white_space(trim_start(s).first()),
    decreases s.len(),
{
    if s.len() > 0 && is_white_space(s.first()) {
        lemma_trim_start_first(s.drop_first());
    }
}

proof fn lemma_trim_end_ends(s: Seq<char>)
    ensures
        trim_end(s).len() <= s.len(),
        trim_end(s).len() > 0 ==> !is_white_space(trim_end(s).last()) && trim_end(s).first()
            == s.first(),
    decreases s.len(),
{
    if s.len() > 0 && is_white_space(s.last()) {
        lemma_trim_end_ends(s.drop_last());
    }
}

/// A trimmed text has no white space at its ends.
pub proof fn lemma_trim_ends(s: Seq<char>)
    ensures
        trim(s).len() > 0 ==> !is_white_space(trim(s).first()) && !is_white_space(trim(s).last()),
{
    lemma_trim_start_first(s);
    lemma_trim_end_ends(trim_start(s));
}

/// Trimming changes nothing where there is no white space at the ends.
pub proof fn lemma_trim_unchanged(s: Seq<char>)
    requires
        s.len() > 0 ==> !is_white_space(s.first()) && !is_white_space(s.last()),
    ensures
        trim(s) == s,
{
}

/// Trimming twice is trimming once.
pub proof fn lemma_trim_idempotent(s: Seq<char>)
    ensures
        trim(trim(s)) == trim(s),
{
    lemma_trim_ends(s);
    lemma_trim_unchanged(trim(s));
}

proof fn lemma_trim_start_push(s: Seq<char>, c: char)
    requires
        is_white_space(c),
    ensures
        trim_end(trim_start(s.push(c))) == trim_end(trim_start(s)),
    decreases s.len(),
{
    if s.len() > 0 {
        assert(s.push(c).first() == s.first());
        if is_white_space(s.first()) {
            assert(s.push(c).drop_first() == s.drop_first().push(c));
            lemma_trim_start_push(s.drop_first(), c);
        } else {
            assert(s.push(c).drop_last() == s);
        }
    } else {
        assert(s.push(c).drop_first() == s);
        assert(trim_start(s.push(c)) == trim_start(s)) by {
            reveal_with_fuel(trim_start, 2);
        }
    }
}

/// White space added at the end is trimmed away.
pub proof fn lemma_trim_push(s: Seq<char>, c: char)
    requires
        is_white_space(c),
    ensures
        trim(s.push(c)) == trim(s),
{
    lemma_trim_start_push(s, c);
}

/// White space put before a text is trimmed away.
pub proof fn lemma_trim_prepend(c: char, s: Seq<char>)
    requires
        is_white_space(c),
    ensures
        trim(seq![c] + s) == trim(s),
{
    assert((seq![c] + s).drop_first() == s);
}

/// All characters of `s` are white space.
pub open spec fn all_white_space(s: Seq<char>) -> bool {
    forall|i: int| 0 <= i < s.len() ==> is_white_space(#[trigger] s[i])
}

/// White space behind a text is trimmed away.
pub proof fn lemma_trim_append(s: Seq<char>, white: Seq<char>)
    requires
        all_white_space(white),
    ensures
        trim(s + white) == trim(s),
    decreases white.len(),
{
    if white.len() > 0 {
        assert(s + white =~= (s + white.drop_last()).push(white.last()));
        lemma_trim_append(s, white.drop_last());
        lemma_trim_push(s + white.drop_last(), white.last());
    } else {
        assert(s + white =~= s);
    }
}

/// White space before a text is trimmed away.
pub proof fn lemma_trim_prefix(white: Seq<char>, s: Seq<char>)
    requires
        all_white_space(white),
    ensures
        trim(white + s) == trim(s),
    decreases white.len(),
{
    if white.len() > 0 {
        assert(white + s =~= seq![white[0]] + (white.skip(1) + s));
        lemma_trim_prefix(white.skip(1), s);
        lemma_trim_prepend(white[0], white.skip(1) + s);
    } else {
        assert(white + s =~= s);
    }
}

proof fn lemma_trim_start_part(s: Seq<char>) -> (white: Seq<char>)
    ensures
        s == white + trim_start(s),
        all_white_space(white),
    decreases s.len(),
{
    if s.len() > 0 && is_white_space(s.first()) {
        let rest = lemma_trim_start_part(s.drop_first());
        let white = seq![s[0]] + rest;
        assert(white + trim_start(s) =~= seq![s[0]] + s.drop_first());
        assert(s =~= seq![s[0]] + s.drop_first());
        white
    } else {
        assert(Seq::<char>::empty() + s =~= s);
        Seq::empty()
    }
}

proof fn lemma_trim_end_part(s: Seq<char>) -> (white: Seq<char>)
    ensures
        s == trim_end(s) + white,
        all_white_space(white),
    decreases s.len(),
{
    if s.len() > 0 && is_white_space(s.last()) {
        let rest = lemma_trim_end_part(s.drop_last());
        let white = rest.push(s.last());
        assert(trim_end(s) + white =~= (trim_end(s) + rest).push(s.last()));
        assert(s =~= s.drop_last().push(s.last()));
        white
    } else {
        assert(s + Seq::<char>::empty() =~= s);
        Seq::empty()
    }
}

/// A text is its trimmed text with white space before and behind.
pub proof fn lemma_trim_parts(s: Seq<char>) -> (white: (Seq<char>, Seq<char>))
    ensures
        s == white.0 + trim(s) + white.1,
        all_white_space(white.0),
        all_white_space(white.1),
{
    let before = lemma_trim_start_part(s);
    let behind = lemma_trim_end_part(trim_start(s));
    assert(before + (trim(s) + behind) =~= before + trim(s) + behind);
    (before, behind)
}

/// A text without separators goes to the first piece of what follows it.
pub proof fn lemma_split_prefix(front: Seq<char>, s: Seq<char>, sep: char)
    requires
        forall|i: int| 0 <= i < front.len() ==> #[trigger] front[i] != sep,
    ensures
        split_on(s, sep).len() > 0,
        split_on(front + s, sep) == split_on(s, sep).update(0, front + split_on(s, sep)[0]),
{
    let at = first_index(s, sep) as int;
    lemma_first_index(s, sep);
    let whole = front + s;
    assert forall|i: int| 0 <= i < front.len() + at implies whole[i] != sep by {
        if i >= front.len() {
            assert(whole[i] == s[i - front.len()]);
        }
    }
    lemma_first_index_is(whole, sep, front.len() + at);
    if at < s.len() {
        assert(whole.take(front.len() + at) =~= front + s.take(at));
        assert(whole.skip(front.len() + at + 1) =~= s.skip(at + 1));
        let rest = split_on(s.skip(at + 1), sep);
        assert(seq![front + s.take(at)] + rest =~= (seq![s.take(at)] + rest).update(
            0,
            front + s.take(at),
        ));
    } else {
        assert(seq![whole] =~= seq![s].update(0, front + s));
    }
}

/// A character that is no separator goes to the last piece.
pub proof fn lemma_split_push(s: Seq<char>, c: char, sep: char)
    requires
        c != sep,
    ensures
        split_on(s, sep).len() > 0,
        split_on(s.push(c), sep) == split_on(s, sep).update(
            split_on(s, sep).len() - 1,
            split_on(s, sep).last().push(c),
        ),
    decreases s.len(),
{
    let at = first_index(s, sep) as int;
    lemma_first_index(s, sep);
    let whole = s.push(c);
    assert forall|i: int| 0 <= i < at implies whole[i] != sep by {
        assert(whole[i] == s[i]);
    }
    if at < s.len() {
        lemma_first_index_is(whole, sep, at);
        assert(whole.take(at) == s.take(at));
        assert(whole.skip(at + 1) == s.skip(at + 1).push(c));
        lemma_split_push(s.skip(at + 1), c, sep);
        let rest = split_on(s.skip(at + 1), sep);
        assert(seq![s.take(at)] + rest.update(rest.len() - 1, rest.last().push(c)) =~= (seq![
            s.take(at),
        ] + rest).update(rest.len() as int, rest.last().push(c)));
    } else {
        lemma_first_index_is(whole, sep, whole.len() as int);
        assert(seq![whole] =~= seq![s].update(0, s.push(c)));
    }
}

/// A text without separators, behind another one, makes no new pieces.
pub proof fn lemma_split_suffix(s: Seq<char>, back: Seq<char>, sep: char)
    requires
        forall|i: int| 0 <= i < back.len() ==> #[trigger] back[i] != sep,
    ensures
        split_on(s + back, sep).len() == split_on(s, sep).len(),
    decreases back.len(),
{
    if back.len() > 0 {
        assert(back[back.len() - 1] != sep);
        lemma_split_suffix(s, back.drop_last(), sep);
        lemma_split_push(s + back.drop_last(), back.last(), sep);
        assert((s + back.drop_last()).push(back.last()) =~= s + back);
    } else {
        assert(s + back =~= s);
    }
}

/// The pieces of a text, joined again, are the text, and no separator stands in them.
pub proof fn lemma_join_split(s: Seq<char>, sep: char)
    ensures
        split_on(s, sep).len() > 0,
        join(split_on(s, sep), sep) == s,
        forall|i: int|
            0 <= i < split_on(s, sep).len() ==> !(#[trigger] split_on(s, sep)[i]).contains(sep),
    decreases s.len(),
{
    let at = first_index(s, sep) as int;
    lemma_first_index(s, sep);
    let pieces = split_on(s, sep);
    if at < s.len() {
        lemma_join_split(s.skip(at + 1), sep);
        let rest = split_on(s.skip(at + 1), sep);
        lemma_join_front(s.take(at), rest, sep);
        assert(s =~= s.take(at).push(sep) + s.skip(at + 1));
        assert forall|i: int| 0 <= i < pieces.len() implies !(#[trigger] pieces[i]).contains(
            sep,
        ) by {
            if i > 0 {
                assert(pieces[i] == rest[i - 1]);
            }
        }
    }
}

proof fn lemma_join_front(piece: Seq<char>, rest: Seq<Seq<char>>, sep: char)
    requires
        rest.len() > 0,
    ensures
        join(seq![piece] + rest, sep) == piece.push(sep) + join(rest, sep),
    decreases rest.len(),
{
    let all = seq![piece] + rest;
    assert(all.drop_last() =~= seq![piece] + rest.drop_last());
    assert(all.last() == rest.last());
    if rest.len() > 1 {
        lemma_join_front(piece, rest.drop_last(), sep);
        assert(join(all, sep) =~= piece.push(sep) + join(rest, sep));
    } else {
        assert(all.drop_last() =~= seq![piece]);
        assert(join(all.drop_last(), sep) == piece);
        assert(join(all, sep) =~= piece.push(sep) + join(rest, sep));
    }
}

/// Lines that were joined come apart again.
pub proof fn lemma_split_join(pieces: Seq<Seq<char>>, sep: char)
    requires
        pieces.len() > 0,
        forall|i: int| 0 <= i < pieces.len() ==> !(#[trigger] pieces[i]).contains(sep),
    ensures
        split_on(join(pieces, sep), sep) == pieces,
    decreases pieces.len(),
{
    let last = pieces[pieces.len() - 1];
    lemma_split_single(last, sep);
    if pieces.len() > 1 {
        let rest = pieces.drop_last();
        assert forall|i: int| 0 <= i < rest.len() implies !(#[trigger] rest[i]).contains(sep) by {
            assert(rest[i] == pieces[i]);
        }
        lemma_split_join(rest, sep);
        lemma_split_concat(join(rest, sep), sep, last);
        assert(rest + seq![last] == pieces);
    } else {
        assert(seq![last] == pieces);
    }
}

/// A text without separators is a single piece.
pub proof fn lemma_split_single(s: Seq<char>, sep: char)
    requires
        !s.contains(sep),
    ensures
        split_on(s, sep) == seq![s],
{
    lemma_first_index(s, sep);
}

/// The pieces of two texts with a separator between them are the pieces of the one, then
/// those of the other.
pub proof fn lemma_split_concat(a: Seq<char>, sep: char, b: Seq<char>)
    ensures
        split_on(a.push(sep) + b, sep) == split_on(a, sep) + split_on(b, sep),
    decreases a.len(),
{
    let whole = a.push(sep) + b;
    let at = first_index(a, sep) as int;
    lemma_first_index(a, sep);
    assert forall|i: int| 0 <= i < at implies whole[i] != sep by {
        assert(whole[i] == a[i]);
    }
    lemma_first_index_is(whole, sep, at);
    if at < a.len() {
        lemma_split_concat(a.skip(at + 1), sep, b);
        assert(whole.take(at) == a.take(at));
        assert(whole.skip(at + 1) == a.skip(at + 1).push(sep) + b);
        assert(split_on(whole, sep) == seq![a.take(at)] + (split_on(a.skip(at + 1), sep) + split_on(
            b,
            sep,
        )));
        assert(split_on(a, sep) + split_on(b, sep) == seq![a.take(at)] + (split_on(
            a.skip(at + 1),
            sep,
        ) + split_on(b, sep)));
    } else {
        assert(whole.take(at) == a);
        assert(whole.skip(at + 1) == b);
    }
}

/// A digit is neither white space nor any of the signs used in times.
pub proof fn lemma_digit_plain(c: char)
    requires
        is_digit(c),
    ensures
        !is_white_space(c),
        c != '+' && c != ':' && c != ',' && c != '.' && c != '-',
{
}

/// Digits write a number, if it fits.
pub proof fn lemma_number_of_digits(s: Seq<char>)
    requires
        all_digits(s),
        s.len() > 0,
    ensures
        number(s) == (if digits_value(s) <= u64::MAX {
            Some(digits_value(s))
        } else {
            None
        }),
{
    assert(is_digit(s[0]));
}

/// A decimal number is made of digits, and they write it.
pub proof fn lemma_decimal(n: nat)
    ensures
        all_digits(decimal(n)),
        decimal(n).len() > 0,
        digits_value(decimal(n)) == n,
    decreases n,
{
    reveal_with_fuel(digits_value, 2);
    if n >= 10 {
        lemma_decimal(n / 10);
        assert(decimal(n).drop_last() == decimal(n / 10));
    } else {
        assert(decimal(n).drop_last() == Seq::<char>::empty());
    }
}

/// A leading zero changes nothing of that.
pub proof fn lemma_decimal2(n: nat)
    ensures
        all_digits(decimal2(n)),
        decimal2(n).len() >= 2 || n >= 10,
        decimal2(n).len() > 0,
        digits_value(decimal2(n)) == n,
{
    lemma_decimal(n);
    if n < 10 {
        reveal_with_fuel(digits_value, 3);
        assert(decimal2(n) == seq!['0', digit_char(n)]);
        assert(decimal2(n).drop_last() == seq!['0']);
        assert(decimal2(n).drop_last().drop_last() == Seq::<char>::empty());
    }
}

// ---------------------------------------------------------------------------
// Laws
// ---------------------------------------------------------------------------
/// White space is, by code points, what Unicode lists as such.
pub proof fn law_white_space(c: char)
    ensures
        ({
            let p = c as u32;
            is_white_space(c) <==> (9 <= p <= 13 || p == 32 || p == 0x85 || p == 0xa0 || p == 0x1680
                || 0x2000 <= p <= 0x200a || p == 0x2028 || p == 0x2029 || p == 0x202f || p == 0x205f
                || p == 0x3000)
        }),
{
}

/// Trimming takes off the white space before and behind a text, all of it and nothing else.
pub proof fn law_trim(before: Seq<char>, s: Seq<char>, behind: Seq<char>)
    requires
        forall|i: int| 0 <= i < before.len() ==> is_white_space(#[trigger] before[i]),
        forall|i: int| 0 <= i < behind.len() ==> is_white_space(#[trigger] behind[i]),
        s.len() > 0 ==> !is_white_space(s[0]) && !is_white_space(s[s.len() - 1]),
    ensures
        trim(before + s + behind) == s,
{
    lemma_trim_append(before + s, behind);
    lemma_trim_prefix(before, s);
    lemma_trim_unchanged(s);
}

/// A text comes apart at its separators and nowhere else: without any it is one piece, and
/// the pieces on the two sides of one are the pieces of the whole.
pub proof fn law_split(a: Seq<char>, sep: char, b: Seq<char>)
    ensures
        !a.contains(sep) ==> split_on(a, sep) == seq![a],
        split_on(a + seq![sep] + b, sep) == split_on(a, sep) + split_on(b, sep),
{
    if !a.contains(sep) {
        lemma_split_single(a, sep);
    }
    assert(a + seq![sep] + b =~= a.push(sep) + b);
    lemma_split_concat(a, sep, b);
}

/// Joining undoes splitting, and splitting undoes joining.
pub proof fn law_split_and_join(s: Seq<char>, pieces: Seq<Seq<char>>, sep: char)
    ensures
        join(split_on(s, sep), sep) == s,
        pieces.len() > 0 && (forall|i: int|
            0 <= i < pieces.len() ==> !(#[trigger] pieces[i]).contains(sep)) ==> split_on(
            join(pieces, sep),
            sep,
        ) == pieces,
{
    lemma_join_split(s, sep);
    if pieces.len() > 0 && (forall|i: int|
        0 <= i < pieces.len() ==> !(#[trigger] pieces[i]).contains(sep)) {
        lemma_split_join(pieces, sep);
    }
}

/// The digits are the characters of the code points from 48 on, ten of them.
pub proof fn law_digits(c: char, d: nat)
    ensures
        is_digit(c) <==> 48 <= c as u32 <= 57,
        d < 10 ==> digit_char(d) as u32 == 48 + d,
{
}

/// A number in decimal: one digit for a number below ten, and a further digit multiplies by
/// ten and adds its value. With two digits at least, a single one gets a zero before it.
pub proof fn law_decimal(n: nat, d: nat)
    requires
        d < 10,
    ensures
        decimal(d) == seq![digit_char(d)],
        n > 0 ==> decimal(10 * n + d) == decimal(n).push(digit_char(d)),
        decimal2(d) == seq!['0', digit_char(d)],
        n > 0 ==> decimal2(10 * n + d) == decimal(10 * n + d),
{
    assert((10 * n + d) / 10 == n && (10 * n + d) % 10 == d);
    assert(seq!['0'] + decimal(d) =~= seq!['0', digit_char(d)]);
}

/// The value of digits: a further digit multiplies it by ten and adds its own.
pub proof fn law_digits_value(s: Seq<char>, d: nat)
    requires
        d < 10,
    ensures
        digits_value(Seq::empty()) == 0,
        digits_value(s.push(digit_char(d))) == 10 * digits_value(s) + d,
{
    assert(s.push(digit_char(d)).drop_last() =~= s);
}

/// The digits that a text begins with are counted up to the first character that is none.
pub proof fn law_leading_digits(digits: Seq<char>, rest: Seq<char>)
    requires
        forall|i: int| 0 <= i < digits.len() ==> is_digit(#[trigger] digits[i]),
        rest.len() > 0 ==> !is_digit(rest[0]),
    ensures
        digit_count(digits + rest) == digits.len(),
    decreases digits.len(),
{
    if digits.len() > 0 {
        assert(is_digit(digits[0]));
        assert((digits + rest).drop_first() =~= digits.drop_first() + rest);
        law_leading_digits(digits.drop_first(), rest);
    } else {
        assert(digits + rest =~= rest);
    }
}

/// Digits whose value fits in 64 bits are a number, with a plus sign before them or without;
/// those whose value does not fit are none.
pub proof fn law_digits_are_numbers(digits: Seq<char>)
    requires
        digits.len() > 0,
        forall|i: int| 0 <= i < digits.len() ==> is_digit(#[trigger] digits[i]),
    ensures
        digits_value(digits) <= u64::MAX ==> number(digits) == Some(digits_value(digits)),
        digits_value(digits) > u64::MAX ==> number(digits) is None,
        number(seq!['+'] + digits) == number(digits),
{
    lemma_number_of_digits(digits);
    assert((seq!['+'] + digits).skip(1) =~= digits);
}

/// What is no number: nothing, a plus sign alone, and any text with a character that is no
/// digit, but for a plus sign at its beginning.
pub proof fn law_what_is_no_number(s: Seq<char>, i: int)
    ensures
        number(Seq::empty()) is None,
        number(seq!['+']) is None,
        0 <= i < s.len() && !is_digit(s[i]) && !(i == 0 && s[0] == '+') ==> number(s) is None,
{
    assert(seq!['+'].skip(1) =~= Seq::<char>::empty());
    if 0 <= i < s.len() && !is_digit(s[i]) && !(i == 0 && s[0] == '+') {
        if s[0] == '+' {
            assert(s.skip(1)[i - 1] == s[i]);
        }
    }
}

} // verus!
