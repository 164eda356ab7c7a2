//! SRT timestamps (`HH:MM:SS,mmm`), read and written in whole milliseconds.
use vstd::prelude::*;
use crate::text::{
    all_digits, char_separator, digits_value, lemma_decimal_digits, lemma_leading_zero, lemma_pad2,
    pad2, pad3, push_pad2, push_pad3, split_at_char, split_by, to_chars, trim, trimmed,
    views_of, chars_to_string, decimal, is_ascii_digit, digits_capped, is_white_space, contains_seq,
    words,
    lemma_split_by_append_plain, lemma_split_by_append_sep, lemma_split_by_nonempty, chars_contain,
    lemma_blank_is_white, lemma_split_by_join, lemma_split_by_plain, lemma_trim_ends, lemma_trim_twice,
    digit_char, white_space_separator, trim_end, trim_start, non_empty,
    push_all, push_decimal, push_str, slice_of, split_words, trim_bounds, lowercase_of, to_lowercase,
};
use crate::media_browser::{lemma_insert_sorted_at, lemma_stable_sorted, lemma_stable_sorted_keeps, stable_sorted, total_key, total_key_exec, total_preorder};

verus! {

/// `HH:MM:SS,mmm` for a time in milliseconds (hours take as many digits as
/// they need, at least two).
pub open spec fn srt_text(total_ms: nat) -> Seq<char> {
    let rest = total_ms / 1000;
    let ms = total_ms % 1000;
    let h = rest / 3600;
    let rem = rest % 3600;
    let m = rem / 60;
    let s = rem % 60;
    pad2(h) + seq![':'] + pad2(m) + seq![':'] + pad2(s) + seq![','] + pad3(ms)
}

/// The SRT timestamp of a time in milliseconds.
pub fn srt_timestamp_millis(total_ms: u64) -> (s: String)
    ensures
        s@ == srt_text(total_ms as nat),
{
    let rest = total_ms / 1000;
    let ms = total_ms % 1000;
    let h = rest / 3600;
    let rem = rest % 3600;
    let m = rem / 60;
    let sec = rem % 60;
    let mut out: Vec<char> = Vec::new();
    push_pad2(&mut out, h);
    out.push(':');
    push_pad2(&mut out, m);
    out.push(':');
    push_pad2(&mut out, sec);
    out.push(',');
    push_pad3(&mut out, ms);
    chars_to_string(&out)
}

/// The position of the first `c` in `s`.
pub open spec fn first_index(s: Seq<char>, c: char) -> Option<int> {
    if exists|i: int| 0 <= i < s.len() && s[i] == c {
        Some(choose|i: int| 0 <= i < s.len() && s[i] == c && forall|j: int| 0 <= j < i ==> s[j] != c)
    } else {
        None
    }
}

/// `,` read as `.`.
pub open spec fn comma_to_dot(s: Seq<char>) -> Seq<char> {
    s.map_values(|c: char| if c == ',' {
        '.'
    } else {
        c
    })
}

/// The whole seconds and the fraction of the seconds field: split at its
/// first `.`, the fraction being `0` without one.
pub open spec fn seconds_parts(sec: Seq<char>) -> (Seq<char>, Seq<char>) {
    match first_index(sec, '.') {
        Some(k) => (sec.subrange(0, k), sec.subrange(k + 1, sec.len() as int)),
        None => (sec, seq!['0']),
    }
}

pub open spec fn pow10(n: nat) -> nat
    decreases n,
{
    if n == 0 {
        1
    } else {
        10 * pow10((n - 1) as nat)
    }
}

/// A run of `lo..=hi` ASCII digits.
pub open spec fn digit_run(s: Seq<char>, lo: nat, hi: nat) -> bool {
    lo <= s.len() <= hi && all_digits(s)
}

/// The milliseconds an SRT timestamp names: trimmed, `,` read as `.`,
/// exactly three `:`-fields `H:MM:SS[.fff]` with two to eight hour digits,
/// two minute digits below 60, two second digits below 60, and one to three
/// fraction digits scaled to milliseconds.
pub open spec fn srt_millis(value: Seq<char>) -> Option<nat> {
    let parts = split_by(comma_to_dot(trim(value)), char_separator(':'));
    if parts.len() != 3 {
        None
    } else {
        let (whole, fraction) = seconds_parts(parts[2]);
        if digit_run(parts[0], 2, 8) && digit_run(parts[1], 2, 2) && digit_run(whole, 2, 2)
            && digit_run(fraction, 1, 3) && digits_value(parts[1]) < 60 && digits_value(whole) < 60 {
            Some(
                (digits_value(parts[0]) * 3_600_000 + digits_value(parts[1]) * 60_000 + digits_value(
                    whole,
                ) * 1000 + digits_value(fraction) * pow10((3 - fraction.len()) as nat)) as nat,
            )
        } else {
            None
        }
    }
}

proof fn lemma_digits_value_bound(s: Seq<char>)
    requires
        all_digits(s),
    ensures
        0 <= digits_value(s) < pow10(s.len()),
    decreases s.len(),
{
    if s.len() > 0 {
        lemma_digits_value_bound(s.drop_last());
        assert(all_digits(s.drop_last())) by {
            assert forall|i: int| 0 <= i < s.drop_last().len() implies is_ascii_digit(#[trigger] s.drop_last()[i]) by {
                assert(s.drop_last()[i] == s[i]);
            }
        }
        assert(is_ascii_digit(s.last()));
    }
}

fn digit_run_value(s: &Vec<char>, lo: usize, hi: usize) -> (r: Option<u64>)
    requires
        1 <= lo,
        hi <= 8,
    ensures
        r is Some <==> digit_run(s@, lo as nat, hi as nat),
        r matches Some(v) ==> v == digits_value(s@),
{
    if s.len() < lo || s.len() > hi {
        return None;
    }
    match digits_capped(s, 0, 1_000_000_000) {
        None => {
            proof {
                assert(s@.subrange(0, s.len() as int) =~= s@);
            }
            None
        },
        Some(v) => {
            proof {
                assert(s@.subrange(0, s.len() as int) =~= s@);
                lemma_digits_value_bound(s@);
                assert(pow10(s.len() as nat) <= 100_000_000) by {
                    reveal_with_fuel(pow10, 9);
                }
            }
            Some(v as u64)
        },
    }
}

/// Reads an SRT timestamp as whole milliseconds.
pub fn srt_timestamp_millis_of(value: &str) -> (r: Option<u64>)
    ensures
        match srt_millis(value@) {
            Some(v) => r == Some(v as u64),
            None => r is None,
        },
{
    let raw = to_chars(value);
    srt_millis_chars(&raw)
}

fn srt_millis_chars(raw: &Vec<char>) -> (r: Option<u64>)
    ensures
        r is None <==> srt_millis(raw@) is None,
        r matches Some(x) ==> srt_millis(raw@) == Some(x as nat),
{
    let t = trimmed(raw);
    let mut n: Vec<char> = Vec::new();
    let mut i: usize = 0;
    while i < t.len()
        invariant
            i <= t.len(),
            n@ == comma_to_dot(t@).take(i as int),
        decreases t.len() - i,
    {
        n.push(if t[i] == ',' { '.' } else { t[i] });
        i = i + 1;
        assert(n@ =~= comma_to_dot(t@).take(i as int));
    }
    assert(comma_to_dot(t@).take(t.len() as int) =~= comma_to_dot(t@));
    let parts = split_at_char(&n, ':');
    assert(views_of(parts@) == split_by(comma_to_dot(trim(raw@)), char_separator(':')));
    if parts.len() != 3 {
        return None;
    }
    assert(views_of(parts@)[0] == parts@[0]@);
    assert(views_of(parts@)[1] == parts@[1]@);
    assert(views_of(parts@)[2] == parts@[2]@);
    let sec = &parts[2];
    let mut k: usize = 0;
    while k < sec.len() && sec[k] != '.'
        invariant
            k <= sec.len(),
            forall|j: int| 0 <= j < k ==> sec@[j] != '.',
        decreases sec.len() - k,
    {
        k = k + 1;
    }
    let (whole, fraction) = if k < sec.len() {
        proof {
            let w = choose|w: int| 0 <= w < sec@.len() && sec@[w] == '.' && forall|j: int| 0 <= j < w ==> sec@[j] != '.';
            if w < k {
            } else if w > k {
            }
            assert(first_index(sec@, '.') == Some(k as int));
        }
        (crate::text::slice_of(sec, 0, k), crate::text::slice_of(sec, k + 1, sec.len()))
    } else {
        let mut z: Vec<char> = Vec::new();
        z.push('0');
        assert(z@ =~= seq!['0']);
        assert(first_index(sec@, '.') is None);
        (crate::text::slice_of(sec, 0, sec.len()), z)
    };
    assert(sec@.subrange(0, sec.len() as int) =~= sec@);
    let hours = match digit_run_value(&parts[0], 2, 8) {
        Some(v) => v,
        None => return None,
    };
    let minutes = match digit_run_value(&parts[1], 2, 2) {
        Some(v) => v,
        None => return None,
    };
    let whole_v = match digit_run_value(&whole, 2, 2) {
        Some(v) => v,
        None => return None,
    };
    let frac_v = match digit_run_value(&fraction, 1, 3) {
        Some(v) => v,
        None => return None,
    };
    if minutes >= 60 || whole_v >= 60 {
        return None;
    }
    let scale: u64 = if fraction.len() == 1 {
        100
    } else if fraction.len() == 2 {
        10
    } else {
        1
    };
    proof {
        reveal_with_fuel(pow10, 3);
        lemma_digits_value_bound(parts@[0]@);
        assert(pow10(8) == 100_000_000) by {
            reveal_with_fuel(pow10, 9);
        }
        lemma_digits_value_bound(fraction@);
        assert(scale == pow10((3 - fraction.len()) as nat));
    }
    Some(hours * 3_600_000 + minutes * 60_000 + whole_v * 1000 + frac_v * scale)
}


proof fn lemma_decimal_len(n: nat, k: nat)
    requires
        1 <= k,
        n < pow10(k),
    ensures
        1 <= decimal(n).len() <= k,
        n >= 10 ==> decimal(n).len() >= 2,
        n >= 100 ==> decimal(n).len() >= 3,
    decreases n,
{
    lemma_decimal_digits(n);
    if n >= 10 {
        if k == 1 {
            reveal_with_fuel(pow10, 2);
            assert(false);
        }
        let p = pow10((k - 1) as nat);
        assert(pow10(k) == 10 * p);
        assert(n / 10 < p) by (nonlinear_arith)
            requires
                n < 10 * p,
        ;
        lemma_decimal_len(n / 10, (k - 1) as nat);
    }
}

pub(crate) proof fn lemma_pad3(n: nat)
    requires
        n < 1000,
    ensures
        all_digits(pad3(n)),
        pad3(n).len() == 3,
        digits_value(pad3(n)) == n,
{
    lemma_decimal_digits(n);
    reveal_with_fuel(pow10, 4);
    lemma_decimal_len(n, 3);
    if n < 10 {
        lemma_decimal_len(n, 1);
        lemma_leading_zero(decimal(n));
        lemma_leading_zero(seq!['0'].add(decimal(n)));
        assert(seq!['0', '0'].add(decimal(n)) =~= seq!['0'].add(seq!['0'].add(decimal(n))));
    } else if n < 100 {
        lemma_decimal_len(n, 2);
        lemma_leading_zero(decimal(n));
    }
}

proof fn lemma_pad2_len(n: nat)
    ensures
        pad2(n).len() >= 2,
        n < 100 ==> pad2(n).len() == 2,
        n < 100_000_000 ==> pad2(n).len() <= 8,
{
    lemma_pad2(n);
    reveal_with_fuel(pow10, 9);
    if n < 10 {
        lemma_decimal_len(n, 1);
    } else {
        if n < 100 {
            lemma_decimal_len(n, 2);
        }
        if n < 100_000_000 {
            lemma_decimal_len(n, 8);
        }
    }
}

/// Text without white space at its ends is its own trim.
proof fn lemma_trim_keeps(s: Seq<char>)
    requires
        s.len() > 0,
        !is_white_space(s[0]),
        !is_white_space(s.last()),
    ensures
        trim(s) == s,
{
}

/// A timestamp written for a time reads back as that time, as long as its
/// hours take at most eight digits.
pub proof fn lemma_srt_round_trip(total_ms: nat)
    requires
        total_ms < 360_000_000_000_000,
    ensures
        srt_millis(srt_text(total_ms)) == Some(total_ms),
{
    let rest = total_ms / 1000;
    let ms = total_ms % 1000;
    let h = rest / 3600;
    let rem = rest % 3600;
    let m = rem / 60;
    let sec = rem % 60;
    let ph = pad2(h);
    let pm = pad2(m);
    let ps = pad2(sec);
    let pf = pad3(ms);
    lemma_pad2(h);
    lemma_pad2(m);
    lemma_pad2(sec);
    lemma_pad2_len(h);
    lemma_pad2_len(m);
    lemma_pad2_len(sec);
    lemma_pad3(ms);
    assert(h < 100_000_000);
    let text = srt_text(total_ms);
    assert(text == ph + seq![':'] + pm + seq![':'] + ps + seq![','] + pf);
    assert(is_ascii_digit(ph[0]));
    assert(is_ascii_digit(pf[2]));
    assert(text[0] == ph[0]);
    assert(text.last() == pf[2]);
    lemma_trim_keeps(text);
    let tail = ps + seq!['.'] + pf;
    let dotted = ph + seq![':'] + pm + seq![':'] + tail;
    assert(comma_to_dot(text) =~= dotted) by {
        assert forall|i: int| 0 <= i < text.len() implies #[trigger] comma_to_dot(text)[i] == dotted[i] by {
            let a = ph.len() as int;
            let b = a + 1 + pm.len();
            let c = b + 1 + ps.len();
            if i < a {
                assert(text[i] == ph[i] && dotted[i] == ph[i]);
                assert(is_ascii_digit(ph[i]));
            } else if i == a {
            } else if i < b {
                assert(text[i] == pm[i - a - 1] && dotted[i] == pm[i - a - 1]);
                assert(is_ascii_digit(pm[i - a - 1]));
            } else if i == b {
            } else if i < c {
                assert(text[i] == ps[i - b - 1] && dotted[i] == ps[i - b - 1]);
                assert(is_ascii_digit(ps[i - b - 1]));
            } else if i == c {
            } else {
                assert(text[i] == pf[i - c - 1] && dotted[i] == pf[i - c - 1]);
                assert(is_ascii_digit(pf[i - c - 1]));
            }
        }
    }
    let sep = char_separator(':');
    let e = Seq::<char>::empty();
    assert forall|i: int| 0 <= i < ph.len() implies !sep(#[trigger] ph[i]) by {
        assert(is_ascii_digit(ph[i]));
    }
    assert forall|i: int| 0 <= i < pm.len() implies !sep(#[trigger] pm[i]) by {
        assert(is_ascii_digit(pm[i]));
    }
    assert forall|i: int| 0 <= i < tail.len() implies !sep(#[trigger] tail[i]) by {
        if i < 2 {
            assert(is_ascii_digit(ps[i]));
        } else if i > 2 {
            assert(is_ascii_digit(pf[i - 3]));
        }
    }
    assert(split_by(e, sep) == seq![e]);
    lemma_split_by_append_plain(e, ph, sep);
    assert(e + ph =~= ph);
    assert(seq![e].update(0, e + ph) =~= seq![ph]);
    lemma_split_by_append_sep(ph, ':', sep);
    assert(seq![ph].push(e) =~= seq![ph, e]);
    let p2 = ph.push(':');
    lemma_split_by_append_plain(p2, pm, sep);
    assert(seq![ph, e].update(1, e + pm) =~= seq![ph, pm]);
    let p3 = p2 + pm;
    lemma_split_by_append_sep(p3, ':', sep);
    assert(seq![ph, pm].push(e) =~= seq![ph, pm, e]);
    let p4 = p3.push(':');
    lemma_split_by_append_plain(p4, tail, sep);
    assert(seq![ph, pm, e].update(2, e + tail) =~= seq![ph, pm, tail]);
    assert(p4 + tail =~= dotted);
    let parts = split_by(comma_to_dot(trim(text)), sep);
    assert(parts == seq![ph, pm, tail]);
    assert(tail[2] == '.');
    assert(first_index(tail, '.') == Some(2int)) by {
        assert(0 <= 2 < tail.len() && tail[2] == '.');
        let k = choose|i: int| 0 <= i < tail.len() && tail[i] == '.' && forall|j: int| 0 <= j < i ==> tail[j] != '.';
        assert(forall|j: int| 0 <= j < 2 ==> tail[j] != '.') by {
            assert(is_ascii_digit(ps[0]));
            assert(is_ascii_digit(ps[1]));
        }
        if k > 2 {
            assert(tail[2] != '.');
        }
        if k < 2 {
            assert(is_ascii_digit(ps[k]));
        }
    }
    assert(tail.subrange(0, 2) =~= ps);
    assert(tail.subrange(3, tail.len() as int) =~= pf);
    assert(seconds_parts(tail) == (ps, pf));
    assert(digit_run(ph, 2, 8));
    assert(digit_run(pm, 2, 2));
    assert(digit_run(ps, 2, 2));
    assert(digit_run(pf, 1, 3));
    assert(pow10(0) == 1);
    assert(h * 3_600_000 + m * 60_000 + sec * 1000 + ms * 1 == total_ms);
    assert(srt_millis(text) == Some(
        (digits_value(ph) * 3_600_000 + digits_value(pm) * 60_000 + digits_value(ps) * 1000
            + digits_value(pf) * pow10((3 - pf.len()) as nat)) as nat,
    ));
}


// ---------------------------------------------------------------------------
// Reading an .srt document
// ---------------------------------------------------------------------------

/// A cue read from an .srt document, its times in milliseconds.
#[derive(Debug, Clone, PartialEq, Eq)]
pub struct SrtCue {
    pub start_ms: u64,
    pub end_ms: u64,
    pub text: String,
}

/// `s` without the byte order marks at its front.
pub open spec fn without_boms(s: Seq<char>) -> Seq<char>
    decreases s.len(),
{
    if s.len() > 0 && s[0] == '\u{feff}' {
        without_boms(s.drop_first())
    } else {
        s
    }
}

/// `s` with every `\r\n`, and then every lone `\r`, turned into `\n`.
pub open spec fn unified_newlines(s: Seq<char>) -> Seq<char>
    decreases s.len(),
{
    if s.len() == 0 {
        s
    } else if s[0] == '\r' && s.len() > 1 && s[1] == '\n' {
        seq!['\n'] + unified_newlines(s.subrange(2, s.len() as int))
    } else if s[0] == '\r' {
        seq!['\n'] + unified_newlines(s.drop_first())
    } else {
        seq![s[0]] + unified_newlines(s.drop_first())
    }
}

/// The lines of `s` as `str::lines` yields them: the pieces between `\n`,
/// without the empty piece after a final `\n`.
pub open spec fn lines_of(s: Seq<char>) -> Seq<Seq<char>> {
    let pieces = split_by(s, char_separator('\n'));
    if pieces.last().len() == 0 {
        pieces.drop_last()
    } else {
        pieces
    }
}

pub open spec fn is_blank(line: Seq<char>) -> bool {
    trim(line).len() == 0
}

/// The runs of consecutive non-blank lines: the closed ones, and the one
/// still open after the last line.
pub open spec fn group_runs(lines: Seq<Seq<char>>) -> (Seq<Seq<Seq<char>>>, Seq<Seq<char>>)
    decreases lines.len(),
{
    if lines.len() == 0 {
        (Seq::empty(), Seq::empty())
    } else {
        let (closed, open) = group_runs(lines.drop_last());
        if is_blank(lines.last()) {
            if open.len() > 0 {
                (closed.push(open), Seq::empty())
            } else {
                (closed, open)
            }
        } else {
            (closed, open.push(lines.last()))
        }
    }
}

/// The blocks of an .srt document: its maximal runs of non-blank lines.
pub open spec fn blocks_of(lines: Seq<Seq<char>>) -> Seq<Seq<Seq<char>>> {
    let (closed, open) = group_runs(lines);
    if open.len() > 0 {
        closed.push(open)
    } else {
        closed
    }
}

/// The position of the first `-->` in `s`.
pub open spec fn arrow_at(s: Seq<char>) -> Option<int> {
    if contains_seq(s, arrow()) {
        Some(
            choose|i: int|
                0 <= i <= s.len() - 3 && #[trigger] s.subrange(i, i + 3) == arrow() && forall|j: int|
                    0 <= j < i ==> #[trigger] s.subrange(j, j + 3) != arrow(),
        )
    } else {
        None
    }
}

pub open spec fn arrow() -> Seq<char> {
    seq!['-', '-', '>']
}

/// Lines joined by `\n`.
pub open spec fn joined_lines(ls: Seq<Seq<char>>) -> Seq<char>
    decreases ls.len(),
{
    if ls.len() == 0 {
        Seq::empty()
    } else if ls.len() == 1 {
        ls[0]
    } else {
        joined_lines(ls.drop_last()) + seq!['\n'] + ls.last()
    }
}

/// What one block of an .srt document gives.
pub enum BlockRead {
    /// The document is refused, with this message.
    Refused(Seq<char>),
    /// A cue.
    Cue(nat, nat, Seq<char>),
    /// Nothing: the cue ends before it starts, or has no text.
    Nothing,
}

/// What a timing line's span and the text lines after it give: `start`,
/// then `end` (only the first word after the arrow counts).
pub open spec fn read_span(before: Seq<char>, after: Seq<char>, rest: Seq<Seq<char>>) -> BlockRead {
    let end_field = if words(after).len() > 0 {
        words(after)[0]
    } else {
        after
    };
    match srt_millis(before) {
        None => BlockRead::Refused("Inicio SRT no válido: "@ + before),
        Some(start) => match srt_millis(end_field) {
            None => BlockRead::Refused("Final SRT no válido: "@ + after),
            Some(end) => {
                let text = trim(joined_lines(rest));
                if end > start && text.len() > 0 {
                    BlockRead::Cue(start, end, text)
                } else {
                    BlockRead::Nothing
                }
            },
        },
    }
}

/// What a timing line `start --> end` and the text lines after it give.
pub open spec fn read_timed(timing: Seq<char>, rest: Seq<Seq<char>>) -> BlockRead {
    match arrow_at(timing) {
        None => BlockRead::Refused("Tiempo SRT no válido: "@ + timing),
        Some(p) => read_span(timing.subrange(0, p), timing.subrange(p + 3, timing.len() as int), rest),
    }
}

/// A block: an optional line before the one with `-->` (the timing line is
/// the first if it has one, else the second), `start --> end`, then the
/// text, trimmed.
pub open spec fn read_block(block: Seq<Seq<char>>) -> BlockRead {
    let first_has = contains_seq(block[0], arrow());
    if !first_has && block.len() < 2 {
        BlockRead::Refused("Bloque SRT sin tiempos"@)
    } else {
        let t: int = if first_has {
            0
        } else {
            1
        };
        read_timed(block[t], block.subrange(t + 1, block.len() as int))
    }
}

/// The cues of the blocks in order, or the refusal of the first block that
/// is refused.
pub open spec fn read_blocks(blocks: Seq<Seq<Seq<char>>>) -> Result<Seq<(nat, nat, Seq<char>)>, Seq<char>>
    decreases blocks.len(),
{
    if blocks.len() == 0 {
        Ok(Seq::empty())
    } else {
        match read_blocks(blocks.drop_last()) {
            Err(m) => Err(m),
            Ok(cues) => match read_block(blocks.last()) {
                BlockRead::Refused(m) => Err(m),
                BlockRead::Cue(s, e, t) => Ok(cues.push((s, e, t))),
                BlockRead::Nothing => Ok(cues),
            },
        }
    }
}

/// `c` placed after every cue of the sorted `s` that starts no later.
pub open spec fn insert_by_start(s: Seq<(nat, nat, Seq<char>)>, c: (nat, nat, Seq<char>)) -> Seq<(nat, nat, Seq<char>)>
    decreases s.len(),
{
    if s.len() == 0 || s.last().0 <= c.0 {
        s.push(c)
    } else {
        insert_by_start(s.drop_last(), c).push(s.last())
    }
}

/// The cues in order of start, cues starting together in their order.
pub open spec fn sorted_by_start(s: Seq<(nat, nat, Seq<char>)>) -> Seq<(nat, nat, Seq<char>)>
    decreases s.len(),
{
    if s.len() == 0 {
        s
    } else {
        insert_by_start(sorted_by_start(s.drop_last()), s.last())
    }
}

/// An .srt document read: without leading byte order marks, newlines
/// unified, its blocks read in order; refused when a block is, or when no
/// cue is left; else the cues in order of start.
pub open spec fn srt_document(content: Seq<char>) -> Result<Seq<(nat, nat, Seq<char>)>, Seq<char>> {
    let lines = lines_of(unified_newlines(without_boms(content)));
    match read_blocks(blocks_of(lines)) {
        Err(m) => Err(m),
        Ok(cues) => if cues.len() == 0 {
            Err("El archivo SRT no contiene subtítulos válidos"@)
        } else {
            Ok(sorted_by_start(cues))
        },
    }
}

pub open spec fn cue_view(c: SrtCue) -> (nat, nat, Seq<char>) {
    (c.start_ms as nat, c.end_ms as nat, c.text@)
}


/// The lines of an .srt document: byte order marks dropped, newlines
/// unified.
fn document_lines(content: &str) -> (lines: Vec<Vec<char>>)
    ensures
        views_of(lines@) == lines_of(unified_newlines(without_boms(content@))),
{
    let s = to_chars(content);
    let n = s.len();
    let mut i: usize = 0;
    assert(s@.subrange(0, n as int) =~= s@);
    while i < n && s[i] == '\u{feff}'
        invariant
            i <= n == s.len(),
            without_boms(s@) == without_boms(s@.subrange(i as int, n as int)),
        decreases n - i,
    {
        assert(s@.subrange(i as int, n as int).drop_first() =~= s@.subrange(i + 1, n as int));
        i = i + 1;
    }
    let from = i;
    let mut u: Vec<char> = Vec::new();
    assert(u@ + unified_newlines(s@.subrange(i as int, n as int)) =~= unified_newlines(
        s@.subrange(from as int, n as int),
    ));
    while i < n
        invariant
            from <= i <= n == s.len(),
            u@ + unified_newlines(s@.subrange(i as int, n as int)) == unified_newlines(
                s@.subrange(from as int, n as int),
            ),
        decreases n - i,
    {
        let ghost rest = s@.subrange(i as int, n as int);
        let ghost before = u@;
        if s[i] == '\r' && i + 1 < n && s[i + 1] == '\n' {
            assert(rest.subrange(2, rest.len() as int) =~= s@.subrange(i + 2, n as int));
            u.push('\n');
            i = i + 2;
            assert(u@ + unified_newlines(s@.subrange(i as int, n as int)) =~= before
                + unified_newlines(rest));
        } else if s[i] == '\r' {
            assert(rest.drop_first() =~= s@.subrange(i + 1, n as int));
            u.push('\n');
            i = i + 1;
            assert(u@ + unified_newlines(s@.subrange(i as int, n as int)) =~= before
                + unified_newlines(rest));
        } else {
            assert(rest.drop_first() =~= s@.subrange(i + 1, n as int));
            u.push(s[i]);
            i = i + 1;
            assert(u@ + unified_newlines(s@.subrange(i as int, n as int)) =~= before
                + unified_newlines(rest));
        }
    }
    assert(s@.subrange(n as int, n as int) =~= Seq::<char>::empty());
    assert(u@ =~= u@ + unified_newlines(s@.subrange(n as int, n as int)));
    let mut pieces = split_at_char(&u, '\n');
    proof {
        lemma_split_by_nonempty(u@, char_separator('\n'));
    }
    let last = pieces.len() - 1;
    if pieces[last].len() == 0 {
        let ghost before = pieces@;
        pieces.pop();
        assert(views_of(pieces@) =~= views_of(before).drop_last());
    }
    pieces
}

/// The blocks of an .srt document, as values.
pub open spec fn blocks_view(v: Seq<Vec<Vec<char>>>) -> Seq<Seq<Seq<char>>> {
    v.map_values(|b: Vec<Vec<char>>| views_of(b@))
}

fn is_blank_line(line: &Vec<char>) -> (b: bool)
    ensures
        b == is_blank(line@),
{
    let (lo, hi) = trim_bounds(line);
    lo == hi
}

/// The runs of non-blank lines of `lines`.
fn document_blocks(lines: &Vec<Vec<char>>) -> (blocks: Vec<Vec<Vec<char>>>)
    ensures
        blocks_view(blocks@) == blocks_of(views_of(lines@)),
{
    let ghost lv = views_of(lines@);
    let mut closed: Vec<Vec<Vec<char>>> = Vec::new();
    let mut open: Vec<Vec<char>> = Vec::new();
    let mut i: usize = 0;
    assert(lv.take(0) =~= Seq::<Seq<char>>::empty());
    assert(blocks_view(closed@) =~= Seq::<Seq<Seq<char>>>::empty());
    assert(views_of(open@) =~= Seq::<Seq<char>>::empty());
    while i < lines.len()
        invariant
            i <= lines.len(),
            lv == views_of(lines@),
            (blocks_view(closed@), views_of(open@)) == group_runs(lv.take(i as int)),
        decreases lines.len() - i,
    {
        let line = &lines[i];
        assert(lv[i as int] == line@);
        assert(lv.take(i + 1).drop_last() =~= lv.take(i as int));
        assert(lv.take(i + 1).last() == line@);
        if is_blank_line(line) {
            if open.len() > 0 {
                let ghost c0 = closed@;
                let ghost o0 = open@;
                closed.push(open);
                open = Vec::new();
                assert(blocks_view(closed@) =~= blocks_view(c0).push(views_of(o0)));
                assert(views_of(open@) =~= Seq::<Seq<char>>::empty());
            }
        } else {
            let ghost o0 = open@;
            let copy = slice_of(line, 0, line.len());
            assert(line@.subrange(0, line.len() as int) =~= line@);
            open.push(copy);
            assert(views_of(open@) =~= views_of(o0).push(line@));
        }
        i = i + 1;
    }
    assert(lv.take(lines.len() as int) =~= lv);
    if open.len() > 0 {
        let ghost c0 = closed@;
        let ghost o0 = open@;
        closed.push(open);
        assert(blocks_view(closed@) =~= blocks_view(c0).push(views_of(o0)));
    }
    closed
}

fn arrow_chars() -> (v: Vec<char>)
    ensures
        v@ == arrow(),
{
    let mut v: Vec<char> = Vec::new();
    v.push('-');
    v.push('-');
    v.push('>');
    assert(v@ =~= arrow());
    v
}

/// The position of the first `-->` in `s`.
fn find_arrow(s: &Vec<char>) -> (r: Option<usize>)
    ensures
        r is None <==> arrow_at(s@) is None,
        r matches Some(q) ==> arrow_at(s@) == Some(q as int) && q + 3 <= s.len(),
{
    let n = s.len();
    if n < 3 {
        assert(!contains_seq(s@, arrow()));
        return None;
    }
    let mut j: usize = 0;
    while j < n - 2
        invariant
            n == s.len(),
            3 <= n,
            j <= n - 2,
            forall|k: int| 0 <= k < j ==> #[trigger] s@.subrange(k, k + 3) != arrow(),
        decreases n - j,
    {
        if s[j] == '-' && s[j + 1] == '-' && s[j + 2] == '>' {
            assert(s@.subrange(j as int, j + 3) =~= arrow());
            proof {
                assert(contains_seq(s@, arrow()));
                let w = choose|i: int|
                    0 <= i <= s@.len() - 3 && #[trigger] s@.subrange(i, i + 3) == arrow() && forall|k: int|
                        0 <= k < i ==> #[trigger] s@.subrange(k, k + 3) != arrow();
                if w < j {
                } else if w > j {
                    assert(s@.subrange(j as int, j + 3) != arrow());
                }
            }
            return Some(j);
        }
        assert(s@.subrange(j as int, j + 3) != arrow()) by {
            if s[j as int] != '-' {
                assert(s@.subrange(j as int, j + 3)[0] == s@[j as int]);
            } else if s[j + 1] != '-' {
                assert(s@.subrange(j as int, j + 3)[1] == s@[j + 1]);
            } else {
                assert(s@.subrange(j as int, j + 3)[2] == s@[j + 2]);
            }
        }
        j = j + 1;
    }
    assert(!contains_seq(s@, arrow())) by {
        if contains_seq(s@, arrow()) {
            let w = choose|i: int| 0 <= i <= s@.len() - arrow().len() && #[trigger] s@.subrange(i, i + arrow().len()) == arrow();
            assert(s@.subrange(w, w + 3) == arrow());
        }
    }
    None
}

/// The lines `block[from..]` joined by `\n`.
fn join_from(block: &Vec<Vec<char>>, from: usize) -> (out: Vec<char>)
    requires
        from <= block.len(),
    ensures
        out@ == joined_lines(views_of(block@).subrange(from as int, block.len() as int)),
{
    let ghost bv = views_of(block@);
    let mut out: Vec<char> = Vec::new();
    let mut k = from;
    assert(bv.subrange(from as int, from as int) =~= Seq::<Seq<char>>::empty());
    while k < block.len()
        invariant
            from <= k <= block.len(),
            bv == views_of(block@),
            out@ == joined_lines(bv.subrange(from as int, k as int)),
        decreases block.len() - k,
    {
        let ghost before = out@;
        let ghost part = bv.subrange(from as int, k + 1);
        assert(part.drop_last() =~= bv.subrange(from as int, k as int));
        assert(part.last() == block@[k as int]@);
        if k > from {
            out.push('\n');
        }
        push_all(&mut out, &block[k]);
        if k == from {
            assert(out@ =~= part[0]);
        } else {
            assert(out@ =~= before + seq!['\n'] + part.last());
        }
        k = k + 1;
    }
    out
}

/// What a block gives, as values.
pub enum BlockOutcome {
    Refused(String),
    Cue(SrtCue),
    Nothing,
}

pub open spec fn outcome_view(o: BlockOutcome) -> BlockRead {
    match o {
        BlockOutcome::Refused(m) => BlockRead::Refused(m@),
        BlockOutcome::Cue(c) => BlockRead::Cue(c.start_ms as nat, c.end_ms as nat, c.text@),
        BlockOutcome::Nothing => BlockRead::Nothing,
    }
}

fn refusal(message: &str, detail: &Vec<char>) -> (s: String)
    ensures
        s@ == message@ + detail@,
{
    let mut v: Vec<char> = Vec::new();
    push_str(&mut v, message);
    push_all(&mut v, detail);
    chars_to_string(&v)
}

fn read_span_exec(before: &Vec<char>, after: &Vec<char>, block: &Vec<Vec<char>>, from: usize) -> (r: BlockOutcome)
    requires
        from <= block.len(),
    ensures
        outcome_view(r) == read_span(
            before@,
            after@,
            views_of(block@).subrange(from as int, block.len() as int),
        ),
{
    let ws = split_words(after);
    let ghost end_field = if words(after@).len() > 0 {
        words(after@)[0]
    } else {
        after@
    };
    assert(ws@.len() == words(after@).len());
    let start = match srt_millis_chars(before) {
        None => {
            return BlockOutcome::Refused(refusal("Inicio SRT no válido: ", before));
        },
        Some(v) => v,
    };
    let end = if ws.len() > 0 {
        assert(views_of(ws@)[0] == ws@[0]@);
        assert(end_field == ws@[0]@);
        srt_millis_chars(&ws[0])
    } else {
        assert(end_field == after@);
        srt_millis_chars(after)
    };
    let end = match end {
        None => {
            return BlockOutcome::Refused(refusal("Final SRT no válido: ", after));
        },
        Some(v) => v,
    };
    let joined = join_from(block, from);
    let text = trimmed(&joined);
    if end > start && text.len() > 0 {
        BlockOutcome::Cue(SrtCue { start_ms: start, end_ms: end, text: chars_to_string(&text) })
    } else {
        BlockOutcome::Nothing
    }
}

fn read_timed_exec(block: &Vec<Vec<char>>, t: usize) -> (r: BlockOutcome)
    requires
        t < block.len(),
    ensures
        outcome_view(r) == read_timed(
            block@[t as int]@,
            views_of(block@).subrange(t + 1, block.len() as int),
        ),
{
    let timing = &block[t];
    match find_arrow(timing) {
        None => BlockOutcome::Refused(refusal("Tiempo SRT no válido: ", timing)),
        Some(p) => {
            let before = slice_of(timing, 0, p);
            let after = slice_of(timing, p + 3, timing.len());
            read_span_exec(&before, &after, block, t + 1)
        },
    }
}

/// Reads one block of an .srt document.
fn read_one_block(block: &Vec<Vec<char>>) -> (r: BlockOutcome)
    requires
        block.len() > 0,
    ensures
        outcome_view(r) == read_block(views_of(block@)),
{
    let ghost bv = views_of(block@);
    let arrow_v = arrow_chars();
    let first_has = chars_contain(&block[0], &arrow_v);
    assert(bv[0] == block@[0]@);
    if !first_has && block.len() < 2 {
        proof {
            reveal_strlit("Bloque SRT sin tiempos");
        }
        return BlockOutcome::Refused("Bloque SRT sin tiempos".to_string());
    }
    let t: usize = if first_has {
        0
    } else {
        1
    };
    assert(bv[t as int] == block@[t as int]@);
    read_timed_exec(block, t)
}

/// A refusal at some block is the refusal of the whole document.
proof fn lemma_read_blocks_refused(blocks: Seq<Seq<Seq<char>>>, i: int)
    requires
        0 <= i <= blocks.len(),
        read_blocks(blocks.take(i)) is Err,
    ensures
        read_blocks(blocks) == read_blocks(blocks.take(i)),
    decreases blocks.len() - i,
{
    if i < blocks.len() {
        let next = blocks.take(i + 1);
        assert(next.drop_last() =~= blocks.take(i));
        lemma_read_blocks_refused(blocks, i + 1);
    } else {
        assert(blocks.take(i) =~= blocks);
    }
}

/// The position at which `insert_by_start` puts `c`.
proof fn lemma_insert_by_start_at(s: Seq<(nat, nat, Seq<char>)>, c: (nat, nat, Seq<char>), k: int)
    requires
        0 <= k <= s.len(),
        k == 0 || s[k - 1].0 <= c.0,
        forall|j: int| k <= j < s.len() ==> #[trigger] s[j].0 > c.0,
    ensures
        insert_by_start(s, c) == s.take(k).push(c) + s.skip(k),
    decreases s.len(),
{
    if s.len() == 0 || s.last().0 <= c.0 {
        if k < s.len() {
            assert(s[s.len() - 1].0 > c.0);
        }
        assert(s.take(k).push(c) + s.skip(k) =~= s.push(c));
    } else {
        lemma_insert_by_start_at(s.drop_last(), c, k);
        assert(s.drop_last().take(k) =~= s.take(k));
        assert((s.take(k).push(c) + s.drop_last().skip(k)).push(s.last()) =~= s.take(k).push(c)
            + s.skip(k));
    }
}

pub open spec fn cues_view(v: Seq<SrtCue>) -> Seq<(nat, nat, Seq<char>)> {
    v.map_values(|c: SrtCue| cue_view(c))
}

/// Reads an .srt document: its cues in order of start (times in
/// milliseconds), or why it is refused.
pub fn parse_srt(content: &str) -> (r: Result<Vec<SrtCue>, String>)
    ensures
        match srt_document(content@) {
            Ok(cues) => r matches Ok(v) && cues_view(v@) == cues,
            Err(m) => r matches Err(e) && e@ == m,
        },
{
    let lines = document_lines(content);
    let blocks = document_blocks(&lines);
    let ghost bv = blocks_view(blocks@);
    let mut cues: Vec<SrtCue> = Vec::new();
    let mut i: usize = 0;
    assert(bv.take(0) =~= Seq::<Seq<Seq<char>>>::empty());
    assert(cues_view(cues@) =~= Seq::<(nat, nat, Seq<char>)>::empty());
    while i < blocks.len()
        invariant
            i <= blocks.len(),
            bv == blocks_view(blocks@),
            views_of(lines@) == lines_of(unified_newlines(without_boms(content@))),
            bv == blocks_of(views_of(lines@)),
            read_blocks(bv.take(i as int)) == Ok::<Seq<(nat, nat, Seq<char>)>, Seq<char>>(cues_view(cues@)),
        decreases blocks.len() - i,
    {
        let block = &blocks[i];
        assert(bv[i as int] == views_of(block@));
        assert(bv.take(i + 1).drop_last() =~= bv.take(i as int));
        assert(bv.take(i + 1).last() == views_of(block@));
        proof {
            assert(bv[i as int].len() > 0) by {
                lemma_blocks_nonempty(views_of(lines@));
            }
        }
        match read_one_block(block) {
            BlockOutcome::Refused(m) => {
                proof {
                    assert(read_blocks(bv.take(i + 1)) == Err::<Seq<(nat, nat, Seq<char>)>, Seq<char>>(m@));
                    lemma_read_blocks_refused(bv, i + 1);
                    assert(bv.take(blocks.len() as int) =~= bv);
                }
                return Err(m);
            },
            BlockOutcome::Cue(c) => {
                let ghost before = cues_view(cues@);
                cues.push(c);
                assert(cues_view(cues@) =~= before.push(cue_view(c)));
            },
            BlockOutcome::Nothing => {},
        }
        i = i + 1;
    }
    assert(bv.take(blocks.len() as int) =~= bv);
    if cues.len() == 0 {
        proof {
            reveal_strlit("El archivo SRT no contiene subtítulos válidos");
        }
        return Err("El archivo SRT no contiene subtítulos válidos".to_string());
    }
    let ghost all = cues_view(cues@);
    let mut sorted: Vec<SrtCue> = Vec::new();
    let mut k: usize = 0;
    assert(all.take(0) =~= Seq::<(nat, nat, Seq<char>)>::empty());
    while k < cues.len()
        invariant
            k <= cues.len(),
            all == cues_view(cues@),
            cues_view(sorted@) == sorted_by_start(all.take(k as int)),
        decreases cues.len() - k,
    {
        let c = SrtCue { start_ms: cues[k].start_ms, end_ms: cues[k].end_ms, text: cues[k].text.clone() };
        let ghost sv = cues_view(sorted@);
        let mut p = sorted.len();
        while p > 0 && sorted[p - 1].start_ms > c.start_ms
            invariant
                p <= sorted.len(),
                sv == cues_view(sorted@),
                forall|j: int| p <= j < sv.len() ==> #[trigger] sv[j].0 > c.start_ms,
            decreases p,
        {
            assert(sv[p - 1] == cue_view(sorted@[p - 1]));
            p = p - 1;
        }
        proof {
            if p > 0 {
                assert(sv[p - 1] == cue_view(sorted@[p - 1]));
            }
            lemma_insert_by_start_at(sv, cue_view(c), p as int);
            assert(all.take(k + 1).drop_last() =~= all.take(k as int));
            assert(all.take(k + 1).last() == all[k as int]);
            assert(all[k as int] == cue_view(cues@[k as int]));
        }
        sorted.insert(p, c);
        assert(cues_view(sorted@) =~= sv.take(p as int).push(cue_view(c)) + sv.skip(p as int));
        k = k + 1;
    }
    assert(all.take(cues.len() as int) =~= all);
    Ok(sorted)
}

/// Every block has a line.
proof fn lemma_blocks_nonempty(lines: Seq<Seq<char>>)
    ensures
        forall|i: int| 0 <= i < blocks_of(lines).len() ==> #[trigger] blocks_of(lines)[i].len() > 0,
{
    lemma_group_runs_nonempty(lines);
    let (closed, open) = group_runs(lines);
    if open.len() > 0 {
        assert forall|i: int| 0 <= i < closed.push(open).len() implies #[trigger] closed.push(open)[i].len() > 0 by {
            if i < closed.len() {
                assert(closed.push(open)[i] == closed[i]);
            }
        }
    }
}

proof fn lemma_group_runs_nonempty(lines: Seq<Seq<char>>)
    ensures
        forall|i: int| 0 <= i < group_runs(lines).0.len() ==> #[trigger] group_runs(lines).0[i].len() > 0,
    decreases lines.len(),
{
    if lines.len() > 0 {
        lemma_group_runs_nonempty(lines.drop_last());
        let (closed, open) = group_runs(lines.drop_last());
        if is_blank(lines.last()) && open.len() > 0 {
            assert forall|i: int| 0 <= i < closed.push(open).len() implies #[trigger] closed.push(open)[i].len() > 0 by {
                if i < closed.len() {
                    assert(closed.push(open)[i] == closed[i]);
                }
            }
        }
    }
}


// ---------------------------------------------------------------------------
// Searching the subtitles of a document
// ---------------------------------------------------------------------------

/// A subtitle anchored to the timeline; its times are doubles (seconds),
/// held by their bits.
#[derive(Debug, Clone, PartialEq, Eq)]
pub struct Subtitle {
    pub start: u64,
    pub end: u64,
    pub text: String,
}

/// A subtitle's text holds the (lowercased) needle, or the needle is empty.
pub open spec fn subtitle_matches(text: Seq<char>, needle: Seq<char>) -> bool {
    needle.len() == 0 || contains_seq(lowercase_of(text), needle)
}

/// Subtitle `a` starts no later than `b` (as `f64::total_cmp` orders them).
pub open spec fn starts_no_later(subs: Seq<Subtitle>) -> spec_fn(usize, usize) -> bool {
    |a: usize, b: usize| total_key(subs[a as int].start) <= total_key(subs[b as int].start)
}

/// The positions of the subtitles whose text holds the query (trimmed and
/// lowercased; an empty query holds everything), in order of start, ties
/// in document order.
pub open spec fn search_of(subs: Seq<Subtitle>, query: Seq<char>) -> Seq<usize> {
    let needle = lowercase_of(trim(query));
    let found = Seq::new(subs.len(), |i: int| i as usize).filter(
        |i: usize| subtitle_matches(subs[i as int].text@, needle),
    );
    stable_sorted(found, starts_no_later(subs))
}

/// Positions into the original document, ordered by time even while
/// filtering.
pub fn search_subtitles(subtitles: &Vec<Subtitle>, query: &str) -> (r: Vec<usize>)
    ensures
        r@ == search_of(subtitles@, query@),
{
    let ghost subs = subtitles@;
    let raw = to_chars(query);
    let trimmed_query = trimmed(&raw);
    let needle = to_chars(to_lowercase_chars(&trimmed_query).as_str());
    let ghost pred = |i: usize| subtitle_matches(subs[i as int].text@, lowercase_of(trim(query@)));
    let ghost all = Seq::new(subs.len(), |i: int| i as usize);
    let mut found: Vec<usize> = Vec::new();
    let mut i: usize = 0;
    assert(all.take(0).filter(pred) =~= Seq::<usize>::empty()) by {
        reveal_with_fuel(Seq::filter, 1);
    }
    while i < subtitles.len()
        invariant
            i <= subtitles.len(),
            subs == subtitles@,
            all == Seq::new(subs.len(), |i: int| i as usize),
            needle@ == lowercase_of(trim(query@)),
            pred == (|i: usize| subtitle_matches(subs[i as int].text@, lowercase_of(trim(query@)))),
            found@ == all.take(i as int).filter(pred),
        decreases subtitles.len() - i,
    {
        assert(all.take(i + 1).drop_last() =~= all.take(i as int));
        assert(all.take(i + 1).last() == i);
        reveal_with_fuel(Seq::filter, 1);
        let matches = if needle.len() == 0 {
            true
        } else {
            let text = to_chars(to_lowercase(subtitles[i].text.as_str()).as_str());
            chars_contain(&text, &needle)
        };
        if matches {
            found.push(i);
        }
        i = i + 1;
    }
    assert(all.take(subtitles.len() as int) =~= all);
    let ghost input = found@;
    assert forall|j: int| 0 <= j < input.len() implies #[trigger] input[j] < subs.len() by {
        all.lemma_filter_pred(pred, j);
        assert(input.contains(input[j]));
        all.lemma_filter_contains_rev(pred, input[j]);
    }
    order_by_start(subtitles, &found)
}

fn to_lowercase_chars(chars: &Vec<char>) -> (r: String)
    ensures
        r@ == lowercase_of(chars@),
{
    to_lowercase(chars_to_string(chars).as_str())
}

/// A search finds exactly the subtitles whose text holds the query, and
/// lists them in order of start.
pub proof fn lemma_search_in_time_order(subs: Seq<Subtitle>, query: Seq<char>)
    ensures
        forall|i: int, j: int|
            0 <= i < j < search_of(subs, query).len() ==> total_key(
                subs[search_of(subs, query)[i] as int].start,
            ) <= total_key(subs[search_of(subs, query)[j] as int].start),
        forall|k: usize|
            search_of(subs, query).contains(k) <==> (k < subs.len() && subtitle_matches(
                subs[k as int].text@,
                lowercase_of(trim(query)),
            )),
{
    broadcast use vstd::seq_lib::group_to_multiset_ensures;
    broadcast use vstd::seq_lib::group_filter_ensures;

    let needle = lowercase_of(trim(query));
    let pred = |i: usize| subtitle_matches(subs[i as int].text@, needle);
    let all = Seq::new(subs.len(), |i: int| i as usize);
    let found = all.filter(pred);
    let le = starts_no_later(subs);
    assert(found == Seq::new(subs.len(), |i: int| i as usize).filter(
        |i: usize| subtitle_matches(subs[i as int].text@, needle),
    ));
    assert(total_preorder(le)) by {
        assert forall|a: usize, b: usize| #[trigger] le(a, b) || le(b, a) by {}
        assert forall|a: usize, b: usize, c: usize| #[trigger] le(a, b) && #[trigger] le(b, c) implies le(a, c) by {}
    }
    lemma_stable_sorted(found, le);
    let r = stable_sorted(found, le);
    assert(r == search_of(subs, query));
    assert forall|i: int, j: int| 0 <= i < j < r.len() implies total_key(subs[r[i] as int].start) <= total_key(
        subs[r[j] as int].start,
    ) by {
        assert(le(r[i], r[j]));
    }
    assert forall|k: usize| r.contains(k) <==> (k < subs.len() && pred(k)) by {
        if r.contains(k) {
            assert(r.to_multiset().count(k) > 0);
            assert(found.to_multiset().count(k) > 0);
            assert(found.contains(k));
            let m = choose|m: int| 0 <= m < found.len() && found[m] == k;
            assert(pred(found[m]));
            all.lemma_filter_contains_rev(pred, k);
            let q = choose|q: int| 0 <= q < all.len() && all[q] == k;
            assert(k < subs.len());
        }
        if k < subs.len() && pred(k) {
            assert(all[k as int] == k);
            all.lemma_filter_contains(pred, k as int);
            assert(found.contains(k));
            let m = choose|m: int| 0 <= m < found.len() && found[m] == k;
            assert(found.to_multiset().count(k) > 0);
            assert(r.to_multiset().count(k) > 0);
        }
    }
}

// ---------------------------------------------------------------------------
// Writing an .srt document
// ---------------------------------------------------------------------------

/// The separator between the two times of a timing line.
pub open spec fn arrow_gap() -> Seq<char> {
    seq![' ', '-', '-', '>', ' ']
}

/// The timing line of a cue: `start --> end`.
pub open spec fn timing_line(start_ms: nat, end_ms: nat) -> Seq<char> {
    srt_text(start_ms) + arrow_gap() + srt_text(end_ms)
}

/// The block of the `n`-th cue: its number, its timing line, its text
/// trimmed, and a blank line.
pub open spec fn srt_block(n: nat, cue: (nat, nat, Seq<char>)) -> Seq<char> {
    decimal(n) + seq!['\n'] + timing_line(cue.0, cue.1) + seq!['\n'] + trim(cue.2) + seq!['\n', '\n']
}

/// The blocks of `cues`, numbered from one.
pub open spec fn srt_blocks(cues: Seq<(nat, nat, Seq<char>)>) -> Seq<char>
    decreases cues.len(),
{
    if cues.len() == 0 {
        Seq::empty()
    } else {
        srt_blocks(cues.drop_last()) + srt_block(cues.len(), cues.last())
    }
}

/// The subtitles `subs`, with their times in milliseconds `millis`, in the
/// order they are written: by start, ties in document order.
pub open spec fn written_cues(subs: Seq<Subtitle>, millis: Seq<(u64, u64)>) -> Seq<(nat, nat, Seq<char>)> {
    stable_sorted(Seq::new(subs.len(), |i: int| i as usize), starts_no_later(subs)).map_values(
        |i: usize| (millis[i as int].0 as nat, millis[i as int].1 as nat, subs[i as int].text@),
    )
}

/// `found` (positions of `subtitles`) in order of start, ties kept in order.
fn order_by_start(subtitles: &Vec<Subtitle>, found: &Vec<usize>) -> (r: Vec<usize>)
    requires
        forall|j: int| 0 <= j < found@.len() ==> #[trigger] found@[j] < subtitles@.len(),
    ensures
        r@ == stable_sorted(found@, starts_no_later(subtitles@)),
        forall|j: int| 0 <= j < r@.len() ==> #[trigger] r@[j] < subtitles@.len(),
{
    let ghost subs = subtitles@;
    let ghost le = starts_no_later(subs);
    let ghost input = found@;
    let mut out: Vec<usize> = Vec::new();
    let mut k: usize = 0;
    assert(input.take(0) =~= Seq::<usize>::empty());
    while k < found.len()
        invariant
            k <= found.len(),
            input == found@,
            subs == subtitles@,
            le == starts_no_later(subs),
            forall|j: int| 0 <= j < input.len() ==> #[trigger] input[j] < subs.len(),
            forall|j: int| 0 <= j < out@.len() ==> #[trigger] out@[j] < subs.len(),
            out@ == stable_sorted(input.take(k as int), le),
        decreases found.len() - k,
    {
        let x = found[k];
        let key = total_key_exec(subtitles[x].start);
        let ghost sv = out@;
        let mut p = out.len();
        while p > 0 && total_key_exec(subtitles[out[p - 1]].start) > key
            invariant
                p <= out.len(),
                sv == out@,
                x < subs.len(),
                subs == subtitles@,
                key == total_key(subs[x as int].start),
                le == starts_no_later(subs),
                forall|j: int| 0 <= j < out@.len() ==> #[trigger] out@[j] < subs.len(),
                forall|j: int| p <= j < sv.len() ==> !le(#[trigger] sv[j], x),
            decreases p,
        {
            p = p - 1;
        }
        proof {
            lemma_insert_sorted_at(sv, x, le, p as int);
            assert(input.take(k + 1).drop_last() =~= input.take(k as int));
            assert(input.take(k + 1).last() == x);
        }
        out.insert(p, x);
        assert(out@ =~= sv.take(p as int).push(x) + sv.skip(p as int));
        k = k + 1;
    }
    assert(input.take(found.len() as int) =~= input);
    out
}

/// Appends the block of the `n`-th cue.
fn push_block(out: &mut Vec<char>, n: u64, start_ms: u64, end_ms: u64, text: &str)
    ensures
        final(out)@ == old(out)@ + srt_block(n as nat, (start_ms as nat, end_ms as nat, text@)),
{
    let ghost before = out@;
    push_decimal(out, n);
    out.push('\n');
    let start = srt_timestamp_millis(start_ms);
    push_str(out, start.as_str());
    proof {
        reveal_strlit(" --> ");
    }
    push_str(out, " --> ");
    let end = srt_timestamp_millis(end_ms);
    push_str(out, end.as_str());
    out.push('\n');
    let t = trimmed(&to_chars(text));
    push_all(out, &t);
    out.push('\n');
    out.push('\n');
    assert(out@ =~= before + srt_block(n as nat, (start_ms as nat, end_ms as nat, text@)));
}

/// Writes an .srt document: the subtitles in order of start (ties in
/// document order), numbered from one, each with the times `millis` gives
/// it in milliseconds and its text trimmed.
pub fn build_srt(subtitles: &Vec<Subtitle>, millis: &Vec<(u64, u64)>) -> (s: String)
    requires
        millis.len() == subtitles.len(),
    ensures
        s@ == srt_blocks(written_cues(subtitles@, millis@)),
{
    let ghost subs = subtitles@;
    let mut all: Vec<usize> = Vec::new();
    let mut i: usize = 0;
    while i < subtitles.len()
        invariant
            i <= subtitles.len(),
            all@ == Seq::new(i as nat, |j: int| j as usize),
        decreases subtitles.len() - i,
    {
        all.push(i);
        i = i + 1;
        assert(all@ =~= Seq::new(i as nat, |j: int| j as usize));
    }
    let order = order_by_start(subtitles, &all);
    let ghost cues = written_cues(subs, millis@);
    proof {
        lemma_stable_sorted_keeps(all@, starts_no_later(subs));
    }
    let mut out: Vec<char> = Vec::new();
    let mut k: usize = 0;
    assert(cues.take(0) =~= Seq::<(nat, nat, Seq<char>)>::empty());
    while k < order.len()
        invariant
            k <= order.len(),
            subs == subtitles@,
            millis.len() == subs.len(),
            order@ == stable_sorted(Seq::new(subs.len(), |j: int| j as usize), starts_no_later(subs)),
            forall|j: int| 0 <= j < order@.len() ==> #[trigger] order@[j] < subs.len(),
            cues == written_cues(subs, millis@),
            cues.len() == order.len(),
            out@ == srt_blocks(cues.take(k as int)),
        decreases order.len() - k,
    {
        let x = order[k];
        assert(cues[k as int] == (millis@[x as int].0 as nat, millis@[x as int].1 as nat, subs[x as int].text@));
        assert(cues.take(k + 1).drop_last() =~= cues.take(k as int));
        assert(cues.take(k + 1).last() == cues[k as int]);
        let (start_ms, end_ms) = millis[x];
        push_block(&mut out, (k + 1) as u64, start_ms, end_ms, subtitles[x].text.as_str());
        k = k + 1;
    }
    assert(cues.take(k as int) =~= cues);
    chars_to_string(&out)
}

// ---------------------------------------------------------------------------
// What is written reads back
// ---------------------------------------------------------------------------

pub open spec fn newline() -> spec_fn(char) -> bool {
    char_separator('\n')
}

/// The text of a cue stays one block: none of its lines, once trimmed, is
/// blank (a blank line would end the block).
pub open spec fn one_block(text: Seq<char>) -> bool {
    forall|k: int|
        0 <= k < split_by(trim(text), newline()).len() ==> !is_blank(
            #[trigger] split_by(trim(text), newline())[k],
        )
}

/// A cue the format carries as it is: it ends after it starts, its hours
/// take at most eight digits, and its trimmed text is one block without a
/// carriage return.
pub open spec fn carried_cue(c: (nat, nat, Seq<char>)) -> bool {
    &&& c.0 < c.1 < 360_000_000_000_000
    &&& one_block(c.2)
    &&& !trim(c.2).contains('\r')
}

/// A character of a timestamp.
pub open spec fn timestamp_char(c: char) -> bool {
    is_ascii_digit(c) || c == ':' || c == ','
}

/// The lines of the block of the `n`-th cue.
pub open spec fn block_lines(n: nat, c: (nat, nat, Seq<char>)) -> Seq<Seq<char>> {
    seq![decimal(n), timing_line(c.0, c.1)] + split_by(trim(c.2), newline())
}

/// The lines of the blocks of `cues`, each followed by a blank line.
pub open spec fn written_lines(cues: Seq<(nat, nat, Seq<char>)>) -> Seq<Seq<char>>
    decreases cues.len(),
{
    if cues.len() == 0 {
        Seq::empty()
    } else {
        written_lines(cues.drop_last()) + block_lines(cues.len(), cues.last()) + seq![Seq::<char>::empty()]
    }
}

/// The blocks of `cues`, as lines.
pub open spec fn written_blocks(cues: Seq<(nat, nat, Seq<char>)>) -> Seq<Seq<Seq<char>>>
    decreases cues.len(),
{
    if cues.len() == 0 {
        Seq::empty()
    } else {
        written_blocks(cues.drop_last()).push(block_lines(cues.len(), cues.last()))
    }
}

/// The cues with their texts trimmed.
pub open spec fn trimmed_cues(cues: Seq<(nat, nat, Seq<char>)>) -> Seq<(nat, nat, Seq<char>)> {
    cues.map_values(|c: (nat, nat, Seq<char>)| (c.0, c.1, trim(c.2)))
}

/// A timestamp is made of digits, `:` and `,`, and starts and ends with a
/// digit.
proof fn lemma_timestamp_chars(t: nat)
    ensures
        srt_text(t).len() > 0,
        is_ascii_digit(srt_text(t)[0]),
        is_ascii_digit(srt_text(t).last()),
        forall|i: int| 0 <= i < srt_text(t).len() ==> timestamp_char(#[trigger] srt_text(t)[i]),
{
    let rest = t / 1000;
    let ms = t % 1000;
    let h = rest / 3600;
    let rem = rest % 3600;
    let m = rem / 60;
    let sec = rem % 60;
    lemma_pad2(h);
    lemma_pad2(m);
    lemma_pad2(sec);
    lemma_pad3(ms);
    let x = srt_text(t);
    let ph = pad2(h);
    let pm = pad2(m);
    let ps = pad2(sec);
    let pf = pad3(ms);
    assert(x == ph + seq![':'] + pm + seq![':'] + ps + seq![','] + pf);
    assert(x[0] == ph[0]);
    assert(x.last() == pf[2]);
    assert forall|i: int| 0 <= i < x.len() implies timestamp_char(#[trigger] x[i]) by {
        let a = ph.len() as int;
        let b = a + 1 + pm.len();
        let c = b + 1 + ps.len();
        if i < a {
            assert(x[i] == ph[i]);
        } else if i == a {
        } else if i < b {
            assert(x[i] == pm[i - a - 1]);
        } else if i == b {
        } else if i < c {
            assert(x[i] == ps[i - b - 1]);
        } else if i == c {
        } else {
            assert(x[i] == pf[i - c - 1]);
        }
    }
}

/// A line that starts with a digit is not blank.
proof fn lemma_digit_line_not_blank(line: Seq<char>)
    requires
        line.len() > 0,
        is_ascii_digit(line[0]),
    ensures
        !is_blank(line),
{
    if is_blank(line) {
        lemma_blank_is_white(line);
        assert(is_white_space(line[0]));
    }
}

/// The block of a cue splits into its lines, then two empty pieces: the
/// blank line after it and what follows its last newline.
proof fn lemma_block_split(n: nat, c: (nat, nat, Seq<char>))
    ensures
        split_by(srt_block(n, c), newline()) == block_lines(n, c) + seq![Seq::<char>::empty(), Seq::<char>::empty()],
{
    let nl = newline();
    let e = Seq::<char>::empty();
    let d = decimal(n);
    let st = srt_text(c.0);
    let et = srt_text(c.1);
    let t = timing_line(c.0, c.1);
    let tt = trim(c.2);
    lemma_decimal_digits(n);
    lemma_timestamp_chars(c.0);
    lemma_timestamp_chars(c.1);
    assert forall|i: int| 0 <= i < d.len() implies !nl(#[trigger] d[i]) by {
        assert(is_ascii_digit(d[i]));
    }
    assert forall|i: int| 0 <= i < t.len() implies !nl(#[trigger] t[i]) by {
        if i < st.len() {
            assert(t[i] == st[i]);
            assert(timestamp_char(st[i]));
        } else if i < st.len() + 5 {
            assert(t[i] == arrow_gap()[i - st.len()]);
        } else {
            assert(t[i] == et[i - st.len() - 5]);
            assert(timestamp_char(et[i - st.len() - 5]));
        }
    }
    lemma_split_by_plain(d, nl);
    lemma_split_by_plain(t, nl);
    let r3 = e.push('\n') + e;
    let r2 = tt.push('\n') + r3;
    let r1 = t.push('\n') + r2;
    assert(srt_block(n, c) =~= d.push('\n') + r1);
    lemma_split_by_join(d, '\n', r1, nl);
    lemma_split_by_join(t, '\n', r2, nl);
    lemma_split_by_join(tt, '\n', r3, nl);
    lemma_split_by_join(e, '\n', e, nl);
    assert(split_by(e, nl) == seq![e]);
    assert(split_by(srt_block(n, c), nl) =~= seq![d] + (seq![t] + (split_by(tt, nl) + (seq![e] + seq![e]))));
    assert(block_lines(n, c) + seq![e, e] =~= seq![d] + (seq![t] + (split_by(tt, nl) + (seq![e] + seq![e]))));
}

/// A written document ends with a newline; it starts with the digit one.
proof fn lemma_blocks_ends(cues: Seq<(nat, nat, Seq<char>)>)
    requires
        cues.len() > 0,
    ensures
        srt_blocks(cues).len() > 0,
        srt_blocks(cues).last() == '\n',
        srt_blocks(cues)[0] == digit_char(1),
    decreases cues.len(),
{
    let p = cues.drop_last();
    let b = srt_block(cues.len(), cues.last());
    if p.len() > 0 {
        lemma_blocks_ends(p);
    } else {
        assert(srt_blocks(p) == Seq::<char>::empty());
        assert(decimal(1) == seq![digit_char(1)]);
        assert(srt_blocks(cues) =~= b);
    }
}

/// The pieces of a written document, split at its newlines: its lines,
/// then the empty piece after the final newline.
proof fn lemma_document_split(cues: Seq<(nat, nat, Seq<char>)>)
    ensures
        split_by(srt_blocks(cues), newline()) == written_lines(cues).push(Seq::<char>::empty()),
    decreases cues.len(),
{
    let nl = newline();
    let e = Seq::<char>::empty();
    if cues.len() == 0 {
        assert(split_by(srt_blocks(cues), nl) == seq![e]);
        assert(written_lines(cues).push(e) =~= seq![e]);
    } else {
        let p = cues.drop_last();
        let c = cues.last();
        let n = cues.len();
        lemma_block_split(n, c);
        let b = srt_block(n, c);
        if p.len() == 0 {
            assert(srt_blocks(p) == Seq::<char>::empty());
            assert(srt_blocks(cues) =~= b);
            assert(written_lines(p) == Seq::<Seq<char>>::empty());
            assert(written_lines(cues).push(e) =~= block_lines(n, c) + seq![e, e]);
        } else {
            lemma_document_split(p);
            lemma_blocks_ends(p);
            let q = srt_blocks(p).drop_last();
            assert(srt_blocks(p) =~= q.push('\n'));
            lemma_split_by_append_sep(q, '\n', nl);
            assert(split_by(q, nl) =~= split_by(q, nl).push(e).drop_last());
            assert(written_lines(p) =~= written_lines(p).push(e).drop_last());
            assert(split_by(q, nl) =~= written_lines(p));
            assert(srt_blocks(cues) =~= q.push('\n') + b);
            lemma_split_by_join(q, '\n', b, nl);
            assert(written_lines(cues).push(e) =~= written_lines(p) + (block_lines(n, c) + seq![e, e]));
        }
    }
}

/// Text without carriage returns keeps its newlines as they are.
proof fn lemma_unified_without_cr(s: Seq<char>)
    requires
        !s.contains('\r'),
    ensures
        unified_newlines(s) == s,
    decreases s.len(),
{
    if s.len() > 0 {
        assert(s[0] != '\r');
        let t = s.drop_first();
        assert(!t.contains('\r')) by {
            if t.contains('\r') {
                let i = choose|i: int| 0 <= i < t.len() && t[i] == '\r';
                assert(s[i + 1] == t[i]);
            }
        }
        lemma_unified_without_cr(t);
        assert(seq![s[0]] + t =~= s);
    }
}

/// A written block holds no carriage return when its text holds none.
proof fn lemma_block_without_cr(n: nat, c: (nat, nat, Seq<char>))
    requires
        !trim(c.2).contains('\r'),
    ensures
        !srt_block(n, c).contains('\r'),
{
    let b = srt_block(n, c);
    let d = decimal(n);
    let st = srt_text(c.0);
    let et = srt_text(c.1);
    let t = timing_line(c.0, c.1);
    let tt = trim(c.2);
    lemma_decimal_digits(n);
    lemma_timestamp_chars(c.0);
    lemma_timestamp_chars(c.1);
    assert forall|i: int| 0 <= i < b.len() implies b[i] != '\r' by {
        let a1 = d.len() as int;
        let a2 = a1 + 1 + t.len();
        let a3 = a2 + 1 + tt.len();
        if i < a1 {
            assert(b[i] == d[i]);
            assert(is_ascii_digit(d[i]));
        } else if i == a1 {
        } else if i < a2 {
            let j = i - a1 - 1;
            assert(b[i] == t[j]);
            if j < st.len() {
                assert(t[j] == st[j]);
                assert(timestamp_char(st[j]));
            } else if j < st.len() + 5 {
                assert(t[j] == arrow_gap()[j - st.len()]);
            } else {
                assert(t[j] == et[j - st.len() - 5]);
                assert(timestamp_char(et[j - st.len() - 5]));
            }
        } else if i == a2 {
        } else if i < a3 {
            assert(b[i] == tt[i - a2 - 1]);
        } else {
        }
    }
}

/// A written document holds no carriage return when no text does.
proof fn lemma_document_without_cr(cues: Seq<(nat, nat, Seq<char>)>)
    requires
        forall|k: int| 0 <= k < cues.len() ==> !trim(#[trigger] cues[k].2).contains('\r'),
    ensures
        !srt_blocks(cues).contains('\r'),
    decreases cues.len(),
{
    if cues.len() > 0 {
        let p = cues.drop_last();
        assert forall|k: int| 0 <= k < p.len() implies !trim(#[trigger] p[k].2).contains('\r') by {
            assert(p[k] == cues[k]);
        }
        lemma_document_without_cr(p);
        assert(!trim(cues[cues.len() - 1].2).contains('\r'));
        lemma_block_without_cr(cues.len(), cues.last());
        let x = srt_blocks(p);
        let b = srt_block(cues.len(), cues.last());
        assert forall|i: int| 0 <= i < srt_blocks(cues).len() implies srt_blocks(cues)[i] != '\r' by {
            if i < x.len() {
                assert(srt_blocks(cues)[i] == x[i]);
            } else {
                assert(srt_blocks(cues)[i] == b[i - x.len()]);
            }
        }
    }
}

/// Adding lines that are not blank after a closed run opens a run of them.
proof fn lemma_runs_open(x: Seq<Seq<char>>, run: Seq<Seq<char>>)
    requires
        group_runs(x).1.len() == 0,
        forall|i: int| 0 <= i < run.len() ==> !is_blank(#[trigger] run[i]),
    ensures
        group_runs(x + run) == (group_runs(x).0, run),
    decreases run.len(),
{
    if run.len() == 0 {
        assert(x + run =~= x);
        assert(run =~= group_runs(x).1);
    } else {
        let r0 = run.drop_last();
        lemma_runs_open(x, r0);
        assert((x + run).drop_last() =~= x + r0);
        assert((x + run).last() == run.last());
        assert(r0.push(run.last()) =~= run);
    }
}

/// The lines of the block of a carried cue are none of them blank.
proof fn lemma_block_lines_not_blank(n: nat, c: (nat, nat, Seq<char>))
    requires
        one_block(c.2),
    ensures
        block_lines(n, c).len() >= 2,
        forall|i: int| 0 <= i < block_lines(n, c).len() ==> !is_blank(#[trigger] block_lines(n, c)[i]),
{
    let l = block_lines(n, c);
    lemma_decimal_digits(n);
    lemma_timestamp_chars(c.0);
    lemma_digit_line_not_blank(decimal(n));
    assert(timing_line(c.0, c.1)[0] == srt_text(c.0)[0]);
    lemma_digit_line_not_blank(timing_line(c.0, c.1));
    let lines = split_by(trim(c.2), newline());
    assert forall|i: int| 0 <= i < l.len() implies !is_blank(#[trigger] l[i]) by {
        if i >= 2 {
            assert(l[i] == lines[i - 2]);
        }
    }
}

/// The lines of a written document group into the blocks written.
proof fn lemma_document_blocks(cues: Seq<(nat, nat, Seq<char>)>)
    requires
        forall|k: int| 0 <= k < cues.len() ==> one_block(#[trigger] cues[k].2),
    ensures
        group_runs(written_lines(cues)) == (written_blocks(cues), Seq::<Seq<char>>::empty()),
        blocks_of(written_lines(cues)) == written_blocks(cues),
    decreases cues.len(),
{
    let e = Seq::<Seq<char>>::empty();
    if cues.len() == 0 {
        assert(written_lines(cues) == e);
    } else {
        let p = cues.drop_last();
        let c = cues.last();
        let n = cues.len();
        assert forall|k: int| 0 <= k < p.len() implies one_block(#[trigger] p[k].2) by {
            assert(p[k] == cues[k]);
        }
        lemma_document_blocks(p);
        assert(one_block(cues[cues.len() - 1].2));
        lemma_block_lines_not_blank(n, c);
        let l = block_lines(n, c);
        lemma_runs_open(written_lines(p), l);
        let y = written_lines(p) + l;
        assert(written_lines(cues) =~= y.push(Seq::<char>::empty()));
        assert(written_lines(cues).drop_last() =~= y);
        assert(is_blank(Seq::<char>::empty()));
    }
}

/// Joining the lines of a text gives the text back.
proof fn lemma_join_split(s: Seq<char>)
    ensures
        joined_lines(split_by(s, newline())) == s,
    decreases s.len(),
{
    let nl = newline();
    if s.len() == 0 {
        assert(split_by(s, nl) == seq![Seq::<char>::empty()]);
    } else {
        let s0 = s.drop_last();
        let d = s.last();
        lemma_join_split(s0);
        lemma_split_by_nonempty(s0, nl);
        let prev = split_by(s0, nl);
        if d == '\n' {
            let ls = prev.push(Seq::<char>::empty());
            assert(split_by(s, nl) == ls);
            assert(ls.drop_last() =~= prev);
            assert(joined_lines(ls) == joined_lines(prev) + seq!['\n'] + Seq::<char>::empty());
            assert(s0 + seq!['\n'] + Seq::<char>::empty() =~= s);
        } else {
            let ls = prev.update(prev.len() - 1, prev.last().push(d));
            assert(split_by(s, nl) == ls);
            if prev.len() == 1 {
                assert(joined_lines(prev) == prev[0]);
                assert(joined_lines(ls) == ls[0]);
                assert(ls[0] =~= s0.push(d));
                assert(s0.push(d) =~= s);
            } else {
                assert(ls.drop_last() =~= prev.drop_last());
                assert(joined_lines(ls) == joined_lines(prev.drop_last()) + seq!['\n'] + prev.last().push(d));
                assert(joined_lines(prev) == joined_lines(prev.drop_last()) + seq!['\n'] + prev.last());
                assert(joined_lines(ls) =~= joined_lines(prev).push(d));
                assert(s0.push(d) =~= s);
            }
        }
    }
}

/// Text that starts and ends with characters that are not white space, with
/// white space after it, trims to itself.
proof fn lemma_trim_before_space(x: Seq<char>)
    requires
        x.len() > 0,
        !is_white_space(x[0]),
        !is_white_space(x.last()),
    ensures
        trim(x.push(' ')) == x,
{
    let y = x.push(' ');
    assert(trim_start(y) == y);
    assert(y.drop_last() =~= x);
    assert(trim_end(y) == trim_end(x));
    assert(trim_end(x) == x);
}

/// In `x --> y`, with no `-` in `x`, the first `-->` is the one after `x`.
proof fn lemma_first_arrow(x: Seq<char>, y: Seq<char>)
    requires
        forall|i: int| 0 <= i < x.len() ==> #[trigger] x[i] != '-',
    ensures
        arrow_at(x + arrow_gap() + y) == Some(x.len() + 1int),
{
    let t = x + arrow_gap() + y;
    let p: int = x.len() + 1int;
    assert(t.subrange(p, p + 3) =~= arrow()) by {
        assert(t[p] == arrow_gap()[1]);
        assert(t[p + 1] == arrow_gap()[2]);
        assert(t[p + 2] == arrow_gap()[3]);
    }
    assert(contains_seq(t, arrow()));
    assert forall|j: int| 0 <= j < p implies #[trigger] t.subrange(j, j + 3) != arrow() by {
        assert(t.subrange(j, j + 3)[0] == t[j]);
        if j < x.len() {
            assert(t[j] == x[j]);
        } else {
            assert(t[j] == ' ');
        }
    }
    let i = choose|i: int|
        0 <= i <= t.len() - 3 && #[trigger] t.subrange(i, i + 3) == arrow() && forall|j: int|
            0 <= j < i ==> #[trigger] t.subrange(j, j + 3) != arrow();
    if i < p {
        assert(t.subrange(i, i + 3) != arrow());
    } else if i > p {
        assert(t.subrange(p, p + 3) != arrow());
    }
}

/// After the arrow, a time without white space is the only word.
proof fn lemma_single_word(y: Seq<char>)
    requires
        y.len() > 0,
        forall|i: int| 0 <= i < y.len() ==> !is_white_space(#[trigger] y[i]),
    ensures
        words(seq![' '] + y) == seq![y],
{
    let ws = white_space_separator();
    let e = Seq::<char>::empty();
    assert forall|i: int| 0 <= i < y.len() implies !ws(#[trigger] y[i]) by {}
    lemma_split_by_plain(y, ws);
    lemma_split_by_join(e, ' ', y, ws);
    assert(e.push(' ') + y =~= seq![' '] + y);
    assert(split_by(e, ws) == seq![e]);
    assert(split_by(seq![' '] + y, ws) =~= seq![e, y]);
    reveal_with_fuel(Seq::filter, 3);
    assert(seq![e, y].drop_last() =~= seq![e]);
    assert(seq![e].drop_last() =~= Seq::<Seq<char>>::empty());
    assert(seq![e, y].filter(non_empty()) =~= seq![y]);
}

/// A timing line `x --> y` whose times read as `a` and `b`, followed by
/// lines that join to a trimmed, non-empty text, reads as a cue when `a`
/// comes before `b`.
proof fn lemma_read_timing(x: Seq<char>, y: Seq<char>, rest: Seq<Seq<char>>, a: nat, b: nat)
    requires
        x.len() > 0,
        !is_white_space(x[0]),
        !is_white_space(x.last()),
        forall|i: int| 0 <= i < x.len() ==> #[trigger] x[i] != '-',
        y.len() > 0,
        forall|i: int| 0 <= i < y.len() ==> !is_white_space(#[trigger] y[i]),
        srt_millis(x) == Some(a),
        srt_millis(y) == Some(b),
        a < b,
        trim(joined_lines(rest)).len() > 0,
    ensures
        read_timed(x + arrow_gap() + y, rest) == BlockRead::Cue(a, b, trim(joined_lines(rest))),
{
    let t = x + arrow_gap() + y;
    lemma_first_arrow(x, y);
    let p: int = x.len() + 1int;
    let before = t.subrange(0, p);
    let after = t.subrange(p + 3, t.len() as int);
    assert(before =~= x.push(' '));
    assert(after =~= seq![' '] + y);
    lemma_trim_before_space(x);
    assert(trim(x) == x) by {
        assert(trim_start(x) == x);
        assert(trim_end(x) == x);
    }
    assert(srt_millis(before) == srt_millis(x));
    lemma_single_word(y);
}

/// The block of a carried cue reads back as that cue, its text trimmed.
proof fn lemma_block_reads_back(n: nat, c: (nat, nat, Seq<char>))
    requires
        carried_cue(c),
    ensures
        read_block(block_lines(n, c)) == BlockRead::Cue(c.0, c.1, trim(c.2)),
{
    let l = block_lines(n, c);
    let d = decimal(n);
    let st = srt_text(c.0);
    let et = srt_text(c.1);
    let tt = trim(c.2);
    let lines = split_by(tt, newline());
    lemma_decimal_digits(n);
    lemma_timestamp_chars(c.0);
    lemma_timestamp_chars(c.1);
    assert(l[0] == d);
    assert(!contains_seq(d, arrow())) by {
        if contains_seq(d, arrow()) {
            let i = choose|i: int| 0 <= i <= d.len() - 3 && #[trigger] d.subrange(i, i + 3) == arrow();
            assert(d.subrange(i, i + 3)[0] == d[i]);
            assert(is_ascii_digit(d[i]));
        }
    }
    assert(l[1] == timing_line(c.0, c.1));
    assert(l.subrange(2, l.len() as int) =~= lines);
    lemma_srt_round_trip(c.0);
    lemma_srt_round_trip(c.1);
    lemma_join_split(tt);
    lemma_trim_twice(c.2);
    assert(tt.len() > 0) by {
        if tt.len() == 0 {
            assert(lines == seq![Seq::<char>::empty()]);
            assert(!is_blank(lines[0]));
        }
    }
    assert forall|i: int| 0 <= i < st.len() implies #[trigger] st[i] != '-' by {
        assert(timestamp_char(st[i]));
    }
    assert forall|i: int| 0 <= i < et.len() implies !is_white_space(#[trigger] et[i]) by {
        assert(timestamp_char(et[i]));
    }
    lemma_read_timing(st, et, lines, c.0, c.1);
}

/// Trimming the texts of cues with one more cue trims that one too.
proof fn lemma_trimmed_push(p: Seq<(nat, nat, Seq<char>)>, c: (nat, nat, Seq<char>))
    ensures
        trimmed_cues(p.push(c)) == trimmed_cues(p).push((c.0, c.1, trim(c.2))),
{
    assert(trimmed_cues(p.push(c)) =~= trimmed_cues(p).push((c.0, c.1, trim(c.2))));
}

/// The written blocks of carried cues read back as those cues, trimmed.
#[verifier::spinoff_prover]
proof fn lemma_blocks_read_back(cues: Seq<(nat, nat, Seq<char>)>)
    requires
        forall|k: int| 0 <= k < cues.len() ==> carried_cue(#[trigger] cues[k]),
    ensures
        read_blocks(written_blocks(cues)) == Ok::<Seq<(nat, nat, Seq<char>)>, Seq<char>>(trimmed_cues(cues)),
    decreases cues.len(),
{
    if cues.len() == 0 {
        assert(trimmed_cues(cues) =~= Seq::<(nat, nat, Seq<char>)>::empty());
    } else {
        let p = cues.drop_last();
        let c = cues.last();
        assert forall|k: int| 0 <= k < p.len() implies carried_cue(#[trigger] p[k]) by {
            assert(p[k] == cues[k]);
        }
        lemma_blocks_read_back(p);
        assert(carried_cue(cues[cues.len() - 1]));
        lemma_block_reads_back(cues.len(), c);
        let wb = written_blocks(cues);
        assert(wb.drop_last() =~= written_blocks(p));
        assert(wb.last() == block_lines(cues.len(), c));
        assert(read_blocks(wb) == Ok::<Seq<(nat, nat, Seq<char>)>, Seq<char>>(
            trimmed_cues(p).push((c.0, c.1, trim(c.2))),
        ));
        assert(p.push(c) =~= cues);
        lemma_trimmed_push(p, c);
    }
}

/// Cues already in order of start stay as they are.
proof fn lemma_sorted_stays(cues: Seq<(nat, nat, Seq<char>)>)
    requires
        forall|i: int, j: int| 0 <= i < j < cues.len() ==> cues[i].0 <= cues[j].0,
    ensures
        sorted_by_start(cues) == cues,
    decreases cues.len(),
{
    if cues.len() > 0 {
        let p = cues.drop_last();
        lemma_sorted_stays(p);
        if p.len() > 0 {
            assert(p.last().0 <= cues.last().0) by {
                assert(p.last() == cues[cues.len() - 2]);
            }
        }
        assert(p.push(cues.last()) =~= cues);
    }
}

/// Cues in order of start, each carried by the format, read back from the
/// document written for them: the same cues in the same order, each text
/// trimmed.
pub proof fn lemma_written_document_reads_back(cues: Seq<(nat, nat, Seq<char>)>)
    requires
        cues.len() > 0,
        forall|k: int| 0 <= k < cues.len() ==> carried_cue(#[trigger] cues[k]),
        forall|i: int, j: int| 0 <= i < j < cues.len() ==> cues[i].0 <= cues[j].0,
    ensures
        srt_document(srt_blocks(cues)) == Ok::<Seq<(nat, nat, Seq<char>)>, Seq<char>>(trimmed_cues(cues)),
{
    let doc = srt_blocks(cues);
    lemma_blocks_ends(cues);
    assert(digit_char(1) == '1');
    assert(without_boms(doc) == doc);
    assert forall|k: int| 0 <= k < cues.len() implies !trim(#[trigger] cues[k].2).contains('\r') by {
        assert(carried_cue(cues[k]));
    }
    lemma_document_without_cr(cues);
    lemma_unified_without_cr(doc);
    lemma_document_split(cues);
    let pieces = split_by(doc, newline());
    assert(pieces.last() == Seq::<char>::empty());
    assert(pieces.drop_last() =~= written_lines(cues));
    assert(lines_of(doc) == written_lines(cues));
    assert forall|k: int| 0 <= k < cues.len() implies one_block(#[trigger] cues[k].2) by {
        assert(carried_cue(cues[k]));
    }
    lemma_document_blocks(cues);
    lemma_blocks_read_back(cues);
    let t = trimmed_cues(cues);
    assert(t.len() > 0);
    assert forall|i: int, j: int| 0 <= i < j < t.len() implies t[i].0 <= t[j].0 by {
        assert(t[i].0 == cues[i].0 && t[j].0 == cues[j].0);
    }
    lemma_sorted_stays(t);
}

/// What `build_srt` writes reads back: the subtitles in order of start
/// (ties in document order), with their times in milliseconds and their
/// texts trimmed. This holds when each subtitle is carried by the format
/// and the milliseconds keep the order of the starts (as rounding the
/// times does).
pub proof fn lemma_built_srt_reads_back(subs: Seq<Subtitle>, millis: Seq<(u64, u64)>)
    requires
        subs.len() > 0,
        millis.len() == subs.len(),
        forall|i: int|
            0 <= i < subs.len() ==> carried_cue(
                (millis[i].0 as nat, millis[i].1 as nat, #[trigger] subs[i].text@),
            ),
        forall|i: int, j: int|
            0 <= i < subs.len() && 0 <= j < subs.len() && total_key(#[trigger] subs[i].start)
                <= total_key(#[trigger] subs[j].start) ==> millis[i].0 <= millis[j].0,
    ensures
        srt_document(srt_blocks(written_cues(subs, millis))) == Ok::<Seq<(nat, nat, Seq<char>)>, Seq<char>>(
            trimmed_cues(written_cues(subs, millis)),
        ),
{
    broadcast use vstd::seq_lib::group_to_multiset_ensures;

    let le = starts_no_later(subs);
    let all = Seq::new(subs.len(), |i: int| i as usize);
    let order = stable_sorted(all, le);
    assert(total_preorder(le)) by {
        assert forall|a: usize, b: usize| #[trigger] le(a, b) || le(b, a) by {}
        assert forall|a: usize, b: usize, c: usize| #[trigger] le(a, b) && #[trigger] le(b, c) implies le(a, c) by {}
    }
    lemma_stable_sorted(all, le);
    assert forall|k: int| 0 <= k < order.len() implies (#[trigger] order[k]) < subs.len() by {
        assert(order.to_multiset().count(order[k]) > 0);
        assert(all.to_multiset().count(order[k]) > 0);
        assert(all.contains(order[k]));
    }
    let cues = written_cues(subs, millis);
    assert(cues.len() == subs.len());
    assert forall|k: int| 0 <= k < cues.len() implies carried_cue(#[trigger] cues[k]) by {
        let x = order[k] as int;
        assert(cues[k] == (millis[x].0 as nat, millis[x].1 as nat, subs[x].text@));
    }
    assert forall|i: int, j: int| 0 <= i < j < cues.len() implies cues[i].0 <= cues[j].0 by {
        let x = order[i] as int;
        let y = order[j] as int;
        assert(le(order[i], order[j]));
        assert(total_key(subs[x].start) <= total_key(subs[y].start));
    }
    lemma_written_document_reads_back(cues);
}

} // verus!
