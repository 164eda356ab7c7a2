//! CMX 3600 edit decision lists: their channels, the reels of their media
//! and the text of the list written for a set of cuts. Speeds are the bits
//! of doubles; what a change of speed writes (the span it takes of the
//! source, its rate) is worked out in floating point by the caller.
use vstd::prelude::*;
use crate::text::{
    chars_equal, chars_le, chars_less_eq, chars_to_string, contains_seq, decimal, lemma_decimal_digits, pad3, parse_usize,
    parse_usize_chars, push_decimal, push_decimal_wide, push_pad3, push_str, slice_of, string_views, to_chars,
    trim, trimmed, views_of, i64_max,
};
use crate::timebase::{clamp_frame, label_of, lemma_timecode_of, nominal_fps_of, timecode_of, writable, Timebase};
use crate::media_browser::{insert_sorted, lemma_insert_sorted_at, lemma_stable_sorted_keeps, stable_sorted};
use vstd::relations::injective_on;
use vstd::set_lib::{lemma_int_range, lemma_len_subset, lemma_map_size, set_int_range};

verus! {

/// The channel of an EDL event.
#[derive(Debug, Clone, Copy, PartialEq, Eq, Structural)]
pub enum Channel {
    Video,
    /// `A1` is `Audio(1)`. Channel zero does not exist in an EDL.
    Audio(usize),
    /// `B`: video and audio of one shot, travelling linked.
    Both,
}

/// How an EDL writes a channel: `V`, `A` and its number (at least one), `B`.
pub open spec fn channel_label(c: Channel) -> Seq<char> {
    match c {
        Channel::Video => seq!['V'],
        Channel::Audio(i) => seq!['A'] + decimal(if i < 1 {
            1nat
        } else {
            i as nat
        }),
        Channel::Both => seq!['B'],
    }
}

/// How an EDL channel field reads: `V`; `B`, `VA`, `AV`; `A`, `A1`, `AA`,
/// `A1A2` (first audio); `NONE` and anything else, nothing; otherwise `A`
/// and a number from 1 to 16.
pub open spec fn channel_of(text: Seq<char>) -> Option<Channel> {
    if text == "V"@ {
        Some(Channel::Video)
    } else if text == "B"@ || text == "VA"@ || text == "AV"@ {
        Some(Channel::Both)
    } else if text == "A"@ || text == "A1"@ || text == "AA"@ || text == "A1A2"@ {
        Some(Channel::Audio(1))
    } else if text == "NONE"@ {
        None
    } else if text.len() > 0 && text[0] == 'A' {
        match parse_usize(text.drop_first()) {
            Some(n) => if 1 <= n <= 16 {
                Some(Channel::Audio(n as usize))
            } else {
                None
            },
            None => None,
        }
    } else {
        None
    }
}

fn is_text(chars: &Vec<char>, lit: &str) -> (b: bool)
    ensures
        b == (chars@ == lit@),
{
    let l = to_chars(lit);
    chars_equal(chars, &l)
}

impl Channel {
    /// The channel as an EDL writes it.
    pub fn label(self) -> (s: String)
        ensures
            s@ == channel_label(self),
    {
        let mut out: Vec<char> = Vec::new();
        match self {
            Channel::Video => out.push('V'),
            Channel::Audio(index) => {
                out.push('A');
                push_decimal(&mut out, if index < 1 { 1 } else { index as u64 });
            },
            Channel::Both => out.push('B'),
        }
        assert(out@ =~= channel_label(self));
        crate::text::chars_to_string(&out)
    }

    /// Reads a channel field of an EDL (in uppercase).
    pub fn parse(text: &str) -> (r: Option<Channel>)
        ensures
            r == channel_of(text@),
    {
        let c = to_chars(text);
        if is_text(&c, "V") {
            Some(Channel::Video)
        } else if is_text(&c, "B") || is_text(&c, "VA") || is_text(&c, "AV") {
            Some(Channel::Both)
        } else if is_text(&c, "A") || is_text(&c, "A1") || is_text(&c, "AA") || is_text(&c, "A1A2") {
            Some(Channel::Audio(1))
        } else if is_text(&c, "NONE") {
            None
        } else if c.len() > 0 && c[0] == 'A' {
            let rest = crate::text::slice_of(&c, 1, c.len());
            assert(rest@ =~= c@.drop_first());
            match parse_usize_chars(&rest) {
                Some(n) => if 1 <= n && n <= 16 {
                    Some(Channel::Audio(n))
                } else {
                    None
                },
                None => None,
            }
        } else {
            None
        }
    }
}


/// A channel an EDL can carry: video, both, or audio 1 to 16.
pub open spec fn representable(c: Channel) -> bool {
    match c {
        Channel::Audio(i) => 1 <= i <= 16,
        _ => true,
    }
}

/// Every channel an EDL can carry reads back from its label.
pub proof fn lemma_channel_round_trip(c: Channel)
    requires
        representable(c),
    ensures
        channel_of(channel_label(c)) == Some(c),
{
    reveal_strlit("V");
    reveal_strlit("B");
    reveal_strlit("VA");
    reveal_strlit("AV");
    reveal_strlit("A");
    reveal_strlit("A1");
    reveal_strlit("AA");
    reveal_strlit("A1A2");
    reveal_strlit("NONE");
    let t = channel_label(c);
    match c {
        Channel::Audio(i) => {
            crate::text::lemma_decimal_digits(i as nat);
            let d = decimal(i as nat);
            assert(t.drop_first() =~= d);
            assert(d[0] != '+');
            if i < 10 {
                assert(d.len() == 1);
            } else {
                assert(decimal(i as nat / 10).len() == 1);
                assert(d.len() == 2);
                assert(t.len() == 3);
                assert(d[0] == '1');
            }
            assert(t[0] == 'A');
            assert(t.len() >= 2);
            assert(crate::text::is_ascii_digit(t[1])) by {
                assert(t[1] == d[0]);
            }
            assert(t != "V"@ && t != "B"@ && t != "VA"@ && t != "NONE"@ && t != "A"@);
            assert(t != "AV"@) by {
                if t.len() == 2 {
                    assert(t[1] != 'V');
                }
            }
            assert(crate::text::parse_usize(t.drop_first()) == Some(i as int));
            if i == 1 {
                assert(t =~= "A1"@);
                assert(t == "A1"@);
                assert(channel_of(t) == Some(Channel::Audio(1)));
                assert(channel_of(t) == Some(c));
            } else {
                assert(t != "A1"@) by {
                    if t.len() == 2 {
                        assert(t[1] != '1');
                    }
                }
                assert(t != "A1A2"@) by {
                    if t.len() == 4 {
                        assert(false);
                    }
                }
                assert(t != "AA"@) by {
                    if t.len() == 2 {
                        assert(crate::text::is_ascii_digit(t[1]));
                    }
                }
                assert(1 <= i <= 16);
                assert(channel_of(t) == Some(Channel::Audio((i as int) as usize)));
                assert((i as int) as usize == i);
                assert(channel_of(t) == Some(c));
            }
            assert(channel_of(channel_label(c)) == Some(c));
        },
        Channel::Video => {
            assert(t =~= "V"@);
            assert(channel_of(t) == Some(c));
        },
        Channel::Both => {
            assert(t =~= "B"@);
            assert(t[0] != "V"@[0]);
            assert(channel_of(t) == Some(c));
        },
    }
}


// ---------------------------------------------------------------------------
// Reels
// ---------------------------------------------------------------------------

pub open spec fn is_ascii_alphanumeric(c: char) -> bool {
    ('0' <= c && c <= '9') || ('A' <= c && c <= 'Z') || ('a' <= c && c <= 'z')
}

/// The letters and digits of a stem, uppercased, that a reel may take.
pub open spec fn reel_raw(stem: Seq<char>) -> Seq<char> {
    upper(stem).filter(|c: char| is_ascii_alphanumeric(c))
}

/// The first seven of them, or `AX` when there are none.
pub open spec fn first_reel(raw: Seq<char>) -> Seq<char> {
    if raw.len() == 0 {
        "AX"@
    } else if raw.len() <= 7 {
        raw
    } else {
        raw.take(7)
    }
}

/// `s` cut to its first `n` characters.
pub open spec fn cut(s: Seq<char>, n: nat) -> Seq<char> {
    if s.len() <= n {
        s
    } else {
        s.take(n as int)
    }
}

/// The reel numbered `n` from `candidate`: as many of its first characters
/// as leave room for the number within seven, then the number.
pub open spec fn numbered(candidate: Seq<char>, n: nat) -> Seq<char> {
    let d = decimal(n);
    if d.len() >= 7 {
        d
    } else {
        cut(candidate, (7 - d.len()) as nat) + d
    }
}

/// The least number from 2 on whose numbered reel is not taken.
pub open spec fn free_number(candidate: Seq<char>, used: Seq<Seq<char>>) -> nat {
    choose|n: nat|
        2 <= n && !used.contains(numbered(candidate, n)) && forall|m: nat|
            2 <= m < n ==> used.contains(#[trigger] numbered(candidate, m))
}

/// The reel of a medium whose stem gives `raw`, with `used` already taken:
/// its first seven letters and digits (`AX` without any), or, when those are
/// taken, the first of them numbered from 2 on that is not taken, the number
/// taking the place of its last characters so that the reel keeps seven.
pub open spec fn reel_for(raw: Seq<char>, used: Seq<Seq<char>>) -> Seq<char> {
    let candidate = first_reel(raw);
    if !used.contains(candidate) {
        candidate
    } else {
        numbered(candidate, free_number(candidate, used))
    }
}

/// The reels given to `sources` in order (`stems[i]` is the stem of
/// `sources[i]`): one per distinct source, at its first appearance.
pub open spec fn reels_of(sources: Seq<Seq<char>>, stems: Seq<Seq<char>>) -> Seq<(Seq<char>, Seq<char>)>
    decreases sources.len(),
{
    if sources.len() == 0 || stems.len() != sources.len() {
        Seq::empty()
    } else {
        let prev = reels_of(sources.drop_last(), stems.drop_last());
        let source = sources.last();
        if prev.map_values(|p: (Seq<char>, Seq<char>)| p.0).contains(source) {
            prev
        } else {
            prev.push(
                (
                    source,
                    reel_for(reel_raw(stems.last()), prev.map_values(|p: (Seq<char>, Seq<char>)| p.1)),
                ),
            )
        }
    }
}

/// What `str::to_uppercase` returns for text that is not all ASCII: the
/// Unicode uppercase mapping of every character, in order.
pub uninterp spec fn uppercase_of(s: Seq<char>) -> Seq<char>;

/// Every character of `s` is ASCII.
pub open spec fn all_ascii(s: Seq<char>) -> bool {
    forall|i: int| 0 <= i < s.len() ==> (#[trigger] s[i] as u32) < 0x80
}

/// The capital of an ASCII letter; any other character as it is.
pub open spec fn ascii_upper_char(c: char) -> char {
    if 'a' <= c && c <= 'z' {
        ((c as u32) - 32) as char
    } else {
        c
    }
}

/// `s` with its ASCII letters in capitals.
pub open spec fn ascii_upper(s: Seq<char>) -> Seq<char> {
    s.map_values(|c: char| ascii_upper_char(c))
}

/// The uppercase of `s`: for ASCII text its letters in capitals (the Unicode
/// mapping of ASCII), otherwise `uppercase_of`.
pub open spec fn upper(s: Seq<char>) -> Seq<char> {
    if all_ascii(s) {
        ascii_upper(s)
    } else {
        uppercase_of(s)
    }
}

/// `str::to_uppercase` of std. On ASCII text the Unicode mapping takes `a`
/// to `z` to their capitals and leaves every other character; beyond ASCII
/// the mapping comes from std's Unicode tables (some characters map to
/// several, such as `ß` to `SS`), and only its name is stated.
#[verifier::external_body]
pub(crate) fn to_uppercase(s: &str) -> (r: String)
    ensures
        r@ == upper(s@),
        !all_ascii(s@) ==> r@ == uppercase_of(s@),
{
    s.to_uppercase()
}

/// What follows the last `c` in `s`; all of `s` when it holds none.
pub open spec fn after_last(s: Seq<char>, c: char) -> Seq<char>
    decreases s.len(),
{
    if s.len() == 0 {
        s
    } else if s.last() == c {
        Seq::empty()
    } else {
        after_last(s.drop_last(), c).push(s.last())
    }
}

/// The last component of a path written with `/`: what follows its last `/`.
pub open spec fn last_part(path: Seq<char>) -> Seq<char> {
    after_last(path, '/')
}

/// A path whose file name is its last part on every platform: it holds no
/// `\` or `:` (so no Windows prefix and no other separator), it does not
/// start with `//` (no network share), and its last part is not empty, `.`
/// or `..`.
pub open spec fn plain_path(path: Seq<char>) -> bool {
    &&& !path.contains('\\')
    &&& !path.contains(':')
    &&& !(path.len() >= 2 && path[0] == '/' && path[1] == '/')
    &&& last_part(path).len() > 0
    &&& last_part(path) != seq!['.']
    &&& last_part(path) != seq!['.', '.']
}

/// The stem of a file name, as `Path::file_stem` documents it: the name
/// before its last `.`; the whole name when it has no `.`, or when its only
/// `.` is its first character.
pub open spec fn stem_of_name(name: Seq<char>) -> Seq<char> {
    let dot = name.len() - after_last(name, '.').len() - 1;
    if dot > 0 {
        name.take(dot)
    } else {
        name
    }
}

/// `stem` is the stem that `source` gives a reel: the stem of its file name
/// where the path is plain; otherwise a piece of the path without `/`, or
/// the whole path.
pub open spec fn stem_of_source(source: Seq<char>, stem: Seq<char>) -> bool {
    &&& plain_path(source) ==> stem == stem_of_name(last_part(source))
    &&& stem == source || (contains_seq(source, stem) && !stem.contains('/'))
}

/// `Path::file_stem` of std, as text. For a plain path the file name is the
/// last part and the stem is what std documents for it. Otherwise the stem
/// is still a part of the file name, the last component of the path, so it
/// occurs in the path and holds no `/`, which separates components on every
/// platform; which part it is then depends on the platform and is not
/// stated.
#[verifier::external_body]
pub(crate) fn path_stem(path: &str) -> (r: Option<String>)
    ensures
        r matches Some(s) ==> contains_seq(path@, s@) && !s@.contains('/'),
        plain_path(path@) ==> r is Some && r->0@ == stem_of_name(last_part(path@)),
{
    std::path::Path::new(path).file_stem().and_then(|stem| stem.to_str()).map(|stem| stem.to_owned())
}

/// Ten to the power `d`.
pub open spec fn pow10(d: nat) -> nat
    decreases d,
{
    if d == 0 {
        1
    } else {
        10 * pow10((d - 1) as nat)
    }
}

proof fn lemma_pow10_grows(d: nat)
    ensures
        pow10(d) >= d + 1,
    decreases d,
{
    if d > 0 {
        lemma_pow10_grows((d - 1) as nat);
    }
}

/// A number from `10^(d-1)` to below `10^d` has `d` digits.
proof fn lemma_decimal_len(n: nat, d: nat)
    requires
        d >= 1,
        pow10((d - 1) as nat) <= n < pow10(d),
    ensures
        decimal(n).len() == d,
    decreases d,
{
    if d > 1 {
        lemma_pow10_grows((d - 2) as nat);
        assert(pow10((d - 1) as nat) == 10 * pow10((d - 2) as nat));
        lemma_decimal_len(n / 10, (d - 1) as nat);
    }
}

/// A number below `10^d` has at most `d` digits.
proof fn lemma_decimal_len_at_most(n: nat, d: nat)
    requires
        d >= 1,
        n < pow10(d),
    ensures
        decimal(n).len() <= d,
    decreases d,
{
    if n >= 10 {
        assert(d > 1) by {
            if d == 1 {
                assert(pow10(1) == 10);
            }
        }
        lemma_decimal_len_at_most(n / 10, (d - 1) as nat);
    }
}

/// Numbers with as many digits give different reels from one candidate.
proof fn lemma_numbered_differ(candidate: Seq<char>, a: nat, b: nat)
    requires
        decimal(a).len() == decimal(b).len(),
        numbered(candidate, a) == numbered(candidate, b),
    ensures
        a == b,
{
    let x = numbered(candidate, a);
    let da = decimal(a);
    let db = decimal(b);
    assert(x.subrange(x.len() - da.len(), x.len() as int) =~= da);
    assert(numbered(candidate, b).subrange(x.len() - db.len(), x.len() as int) =~= db);
    lemma_decimal_digits(a);
    lemma_decimal_digits(b);
}

/// The numbers of `d` digits (from 2 on) are no more than the taken reels
/// when all of their reels are taken.
proof fn lemma_class_bounded(candidate: Seq<char>, used: Seq<Seq<char>>, d: nat)
    requires
        d >= 1,
        forall|m: nat|
            (if d == 1 { 2 } else { pow10((d - 1) as nat) }) <= m < pow10(d) ==> used.contains(
                #[trigger] numbered(candidate, m),
            ),
    ensures
        pow10(d) - (if d == 1 { 2 } else { pow10((d - 1) as nat) }) <= used.len(),
{
    let lo: int = if d == 1 { 2 } else { pow10((d - 1) as nat) as int };
    let hi: int = pow10(d) as int;
    lemma_pow10_grows((d - 1) as nat);
    assert(pow10(d) == 10 * pow10((d - 1) as nat));
    let range = set_int_range(lo, hi);
    lemma_int_range(lo, hi);
    let f = |m: int| numbered(candidate, m as nat);
    assert(injective_on(f, range)) by {
        assert forall|x: int, y: int| range.contains(x) && range.contains(y) && #[trigger] f(x) == #[trigger] f(
            y,
        ) implies x == y by {
            if d == 1 {
                assert(pow10(0) == 1);
            }
            lemma_decimal_len(x as nat, d);
            lemma_decimal_len(y as nat, d);
            lemma_numbered_differ(candidate, x as nat, y as nat);
        }
    }
    let image = range.map(f);
    lemma_map_size(range, image, f);
    assert(image.subset_of(used.to_set())) by {
        assert forall|t: Seq<char>| image.contains(t) implies used.to_set().contains(t) by {
            let x = choose|x: int| range.contains(x) && t == f(x);
            assert(used.contains(numbered(candidate, x as nat)));
        }
    }
    lemma_len_subset(image, used.to_set());
    used.lemma_cardinality_of_set();
}

/// The first number of digits `d` or more whose numbers outnumber `m`, and
/// the bound it keeps.
proof fn lemma_roomy_class(m: nat, d: nat) -> (r: nat)
    requires
        d >= 1,
        d == 1 || 8 * pow10((d - 2) as nat) <= m,
    ensures
        r >= 1,
        8 * pow10((r - 1) as nat) > m,
        pow10(r) <= 13 * m + 10,
    decreases m + 1 - d,
{
    lemma_pow10_grows((d - 1) as nat);
    if d >= 2 {
        lemma_pow10_grows((d - 2) as nat);
    }
    if 8 * pow10((d - 1) as nat) > m {
        if d >= 2 {
            assert(pow10(d) == 10 * pow10((d - 1) as nat));
            assert(pow10((d - 1) as nat) == 10 * pow10((d - 2) as nat));
        } else {
            assert(pow10(1) == 10);
        }
        d
    } else {
        lemma_roomy_class(m, d + 1)
    }
}

/// Some number from 2 on, below `13 * used.len() + 10`, gives a reel not
/// taken.
proof fn lemma_free_number_exists(candidate: Seq<char>, used: Seq<Seq<char>>) -> (w: nat)
    ensures
        2 <= w < 13 * used.len() + 10,
        !used.contains(numbered(candidate, w)),
{
    let m = used.len();
    let d = lemma_roomy_class(m, 1);
    let lo: nat = if d == 1 { 2 } else { pow10((d - 1) as nat) };
    lemma_pow10_grows((d - 1) as nat);
    assert(pow10(d) == 10 * pow10((d - 1) as nat));
    if d == 1 {
        assert(pow10(0) == 1);
    }
    if forall|k: nat| lo <= k < pow10(d) ==> used.contains(#[trigger] numbered(candidate, k)) {
        lemma_class_bounded(candidate, used, d);
        assert(false);
    }
    let w = choose|k: nat| lo <= k < pow10(d) && !used.contains(#[trigger] numbered(candidate, k));
    w
}

/// The least free number from `lo` on, found at `w` at the latest.
proof fn lemma_first_free(candidate: Seq<char>, used: Seq<Seq<char>>, lo: nat, w: nat) -> (n: nat)
    requires
        2 <= lo <= w,
        !used.contains(numbered(candidate, w)),
        forall|m: nat| 2 <= m < lo ==> used.contains(#[trigger] numbered(candidate, m)),
    ensures
        lo <= n <= w,
        !used.contains(numbered(candidate, n)),
        forall|m: nat| 2 <= m < n ==> used.contains(#[trigger] numbered(candidate, m)),
    decreases w - lo,
{
    if !used.contains(numbered(candidate, lo)) {
        lo
    } else {
        assert forall|m: nat| 2 <= m < lo + 1 implies used.contains(#[trigger] numbered(candidate, m)) by {}
        lemma_first_free(candidate, used, lo + 1, w)
    }
}

/// The free number `free_number` names is the least one.
proof fn lemma_free_number(candidate: Seq<char>, used: Seq<Seq<char>>, n: nat)
    requires
        2 <= n,
        !used.contains(numbered(candidate, n)),
        forall|m: nat| 2 <= m < n ==> used.contains(#[trigger] numbered(candidate, m)),
    ensures
        free_number(candidate, used) == n,
{
    let k = free_number(candidate, used);
    assert(2 <= k && !used.contains(numbered(candidate, k)) && forall|m: nat|
        2 <= m < k ==> used.contains(#[trigger] numbered(candidate, m)));
    if k < n {
        assert(used.contains(numbered(candidate, k)));
    } else if n < k {
        assert(used.contains(numbered(candidate, n)));
    }
}

/// A reel is never one already taken, and its number, when it has one, is
/// below `13 * used.len() + 10`.
pub proof fn lemma_reel_is_new(raw: Seq<char>, used: Seq<Seq<char>>)
    ensures
        !used.contains(reel_for(raw, used)),
        used.contains(first_reel(raw)) ==> 2 <= free_number(first_reel(raw), used) < 13 * used.len() + 10,
{
    let candidate = first_reel(raw);
    if used.contains(candidate) {
        let w = lemma_free_number_exists(candidate, used);
        let n = lemma_first_free(candidate, used, 2, w);
        lemma_free_number(candidate, used, n);
    }
}

/// A reel has from one to seven characters while fewer than 700 000 reels
/// are taken.
pub proof fn lemma_reel_fits(raw: Seq<char>, used: Seq<Seq<char>>)
    requires
        used.len() <= 700_000,
    ensures
        1 <= reel_for(raw, used).len() <= 7,
{
    reveal_strlit("AX");
    let candidate = first_reel(raw);
    assert(1 <= candidate.len() <= 7);
    if used.contains(candidate) {
        lemma_reel_is_new(raw, used);
        let n = free_number(candidate, used);
        assert(pow10(7) == 10_000_000) by {
            reveal_with_fuel(pow10, 8);
        }
        lemma_decimal_len_at_most(n, 7);
        lemma_decimal_digits(n);
    }
}

/// Every reel has from one to seven characters, for up to 700 001 sources.
pub proof fn lemma_reels_fit(sources: Seq<Seq<char>>, stems: Seq<Seq<char>>)
    requires
        sources.len() == stems.len(),
        sources.len() <= 700_001,
    ensures
        reels_of(sources, stems).len() <= sources.len(),
        forall|i: int|
            0 <= i < reels_of(sources, stems).len() ==> 1 <= (#[trigger] reels_of(sources, stems)[i]).1.len()
                <= 7,
    decreases sources.len(),
{
    if sources.len() > 0 {
        let ps = sources.drop_last();
        let pt = stems.drop_last();
        lemma_reels_fit(ps, pt);
        let prev = reels_of(ps, pt);
        let used = prev.map_values(|p: (Seq<char>, Seq<char>)| p.1);
        let names = prev.map_values(|p: (Seq<char>, Seq<char>)| p.0);
        if !names.contains(sources.last()) {
            lemma_reel_fits(reel_raw(stems.last()), used);
            let all = reels_of(sources, stems);
            assert(all == prev.push((sources.last(), reel_for(reel_raw(stems.last()), used))));
            assert forall|i: int| 0 <= i < all.len() implies 1 <= (#[trigger] all[i]).1.len() <= 7 by {
                if i < prev.len() {
                    assert(all[i] == prev[i]);
                }
            }
        }
    }
}

/// Each source appears once among the reels, every source has one, and no
/// two sources share a reel.
pub proof fn lemma_reels_are_unique(sources: Seq<Seq<char>>, stems: Seq<Seq<char>>)
    requires
        sources.len() == stems.len(),
    ensures
        reels_of(sources, stems).map_values(|p: (Seq<char>, Seq<char>)| p.0).no_duplicates(),
        reels_of(sources, stems).map_values(|p: (Seq<char>, Seq<char>)| p.1).no_duplicates(),
        forall|i: int| 0 <= i < sources.len() ==> reels_of(sources, stems).map_values(
            |p: (Seq<char>, Seq<char>)| p.0,
        ).contains(#[trigger] sources[i]),
    decreases sources.len(),
{
    if sources.len() > 0 {
        let ps = sources.drop_last();
        let pt = stems.drop_last();
        lemma_reels_are_unique(ps, pt);
        let prev = reels_of(ps, pt);
        let names = prev.map_values(|p: (Seq<char>, Seq<char>)| p.0);
        let used = prev.map_values(|p: (Seq<char>, Seq<char>)| p.1);
        let source = sources.last();
        let all = reels_of(sources, stems);
        if !names.contains(source) {
            let reel = reel_for(reel_raw(stems.last()), used);
            lemma_reel_is_new(reel_raw(stems.last()), used);
            assert(all == prev.push((source, reel)));
            assert(all.map_values(|p: (Seq<char>, Seq<char>)| p.0) =~= names.push(source));
            assert(all.map_values(|p: (Seq<char>, Seq<char>)| p.1) =~= used.push(reel));
        }
        assert forall|i: int| 0 <= i < sources.len() implies all.map_values(
            |p: (Seq<char>, Seq<char>)| p.0,
        ).contains(#[trigger] sources[i]) by {
            if i < sources.len() - 1 {
                assert(ps[i] == sources[i]);
                let j = choose|j: int| 0 <= j < names.len() && names[j] == ps[i];
                assert(all.map_values(|p: (Seq<char>, Seq<char>)| p.0)[j] == names[j]);
            } else if names.contains(source) {
                assert(all == prev);
            } else {
                assert(all.map_values(|p: (Seq<char>, Seq<char>)| p.0)[names.len() as int] == source);
            }
        }
    }
}

pub open spec fn pairs_view(v: Seq<(String, String)>) -> Seq<(Seq<char>, Seq<char>)> {
    v.map_values(|p: (String, String)| (p.0@, p.1@))
}

fn contains_text(list: &Vec<Vec<char>>, t: &Vec<char>) -> (b: bool)
    ensures
        b == views_of(list@).contains(t@),
{
    let mut i: usize = 0;
    while i < list.len()
        invariant
            i <= list.len(),
            forall|j: int| 0 <= j < i ==> list@[j]@ != t@,
        decreases list.len() - i,
    {
        if chars_equal(&list[i], t) {
            assert(views_of(list@)[i as int] == t@);
            return true;
        }
        i = i + 1;
    }
    assert forall|j: int| 0 <= j < views_of(list@).len() implies views_of(list@)[j] != t@ by {
        assert(views_of(list@)[j] == list@[j]@);
    }
    false
}

/// The reel of a medium whose stem is `stem`, with the reels `used` taken.
fn reel_exec(stem: &str, used: &Vec<Vec<char>>) -> (r: Vec<char>)
    ensures
        r@ == reel_for(reel_raw(stem@), views_of(used@)),
{
    let capitals = to_chars(to_uppercase(stem).as_str());
    let mut raw: Vec<char> = Vec::new();
    let mut i: usize = 0;
    let ghost keep = |c: char| is_ascii_alphanumeric(c);
    assert(capitals@.take(0).filter(keep) =~= Seq::<char>::empty()) by {
        reveal_with_fuel(Seq::filter, 1);
    }
    while i < capitals.len()
        invariant
            i <= capitals.len(),
            capitals@ == upper(stem@),
            keep == (|c: char| is_ascii_alphanumeric(c)),
            raw@ == capitals@.take(i as int).filter(keep),
        decreases capitals.len() - i,
    {
        let c = capitals[i];
        assert(capitals@.take(i + 1).drop_last() =~= capitals@.take(i as int));
        reveal_with_fuel(Seq::filter, 1);
        if ('0' <= c && c <= '9') || ('A' <= c && c <= 'Z') || ('a' <= c && c <= 'z') {
            raw.push(c);
        }
        i = i + 1;
    }
    assert(capitals@.take(capitals.len() as int) =~= capitals@);
    let candidate: Vec<char> = if raw.len() == 0 {
        let mut ax: Vec<char> = Vec::new();
        ax.push('A');
        ax.push('X');
        proof {
            reveal_strlit("AX");
        }
        assert(ax@ =~= "AX"@);
        ax
    } else if raw.len() <= 7 {
        raw
    } else {
        let t = slice_of(&raw, 0, 7);
        assert(t@ =~= raw@.take(7));
        t
    };
    assert(candidate@ == first_reel(reel_raw(stem@)));
    if !contains_text(used, &candidate) {
        return candidate;
    }
    let ghost uv = views_of(used@);
    let ghost first = first_reel(reel_raw(stem@));
    let count = used.len();
    assert(uv.len() == count);
    let ghost w = lemma_free_number_exists(first, uv);
    let mut suffix: u128 = 2;
    loop
        invariant
            2 <= suffix <= w,
            w < 13 * uv.len() + 10,
            !uv.contains(numbered(first, w)),
            uv == views_of(used@),
            uv.len() == count,
            first == first_reel(reel_raw(stem@)),
            candidate@ == first,
            uv.contains(first),
            forall|m: nat| 2 <= m < suffix ==> uv.contains(#[trigger] numbered(first, m)),
        decreases w - suffix,
    {
        let mut digits: Vec<char> = Vec::new();
        push_decimal_wide(&mut digits, suffix);
        assert(digits@ =~= decimal(suffix as nat));
        let name = if digits.len() >= 7 {
            digits
        } else {
            let keep = 7 - digits.len();
            let mut name = if candidate.len() <= keep {
                slice_of(&candidate, 0, candidate.len())
            } else {
                slice_of(&candidate, 0, keep)
            };
            assert(name@ =~= cut(first, keep as nat));
            push_decimal_wide(&mut name, suffix);
            name
        };
        assert(name@ =~= numbered(first, suffix as nat));
        if !contains_text(used, &name) {
            proof {
                lemma_free_number(first, uv, suffix as nat);
            }
            return name;
        }
        proof {
            assert forall|m: nat| 2 <= m < suffix + 1 implies uv.contains(#[trigger] numbered(first, m)) by {}
        }
        suffix = suffix + 1;
    }
}

/// The reels of `sources` given their stems: one per distinct source, in
/// order of first appearance.
pub fn reels_from_stems(sources: &Vec<String>, stems: &Vec<String>) -> (reels: Vec<(String, String)>)
    requires
        sources.len() == stems.len(),
    ensures
        pairs_view(reels@) == reels_of(string_views(sources@), string_views(stems@)),
{
    let ghost sv = string_views(sources@);
    let ghost tv = string_views(stems@);
    let mut reels: Vec<(String, String)> = Vec::new();
    let mut names: Vec<Vec<char>> = Vec::new();
    let mut used: Vec<Vec<char>> = Vec::new();
    let mut i: usize = 0;
    assert(pairs_view(reels@) =~= reels_of(sv.take(0), tv.take(0)));
    while i < sources.len()
        invariant
            i <= sources.len() == stems.len(),
            sv == string_views(sources@),
            tv == string_views(stems@),
            pairs_view(reels@) == reels_of(sv.take(i as int), tv.take(i as int)),
            views_of(names@) == pairs_view(reels@).map_values(|p: (Seq<char>, Seq<char>)| p.0),
            views_of(used@) == pairs_view(reels@).map_values(|p: (Seq<char>, Seq<char>)| p.1),
            reels@.len() <= i,
        decreases sources.len() - i,
    {
        let ghost prev = pairs_view(reels@);
        assert(sv.take(i + 1).drop_last() =~= sv.take(i as int));
        assert(tv.take(i + 1).drop_last() =~= tv.take(i as int));
        assert(sv.take(i + 1).last() == sources@[i as int]@);
        assert(tv.take(i + 1).last() == stems@[i as int]@);
        let source = to_chars(sources[i].as_str());
        if !contains_text(&names, &source) {
            let reel = reel_exec(stems[i].as_str(), &used);
            let ghost r = reel@;
            let ghost old_names = names@;
            let ghost old_used = used@;
            reels.push((sources[i].clone(), chars_to_string(&reel)));
            names.push(source);
            used.push(reel);
            assert(pairs_view(reels@) =~= prev.push((sources@[i as int]@, r)));
            assert(views_of(names@) =~= views_of(old_names).push(sources@[i as int]@));
            assert(views_of(used@) =~= views_of(old_used).push(r));
            assert(prev.push((sources@[i as int]@, r)).map_values(|p: (Seq<char>, Seq<char>)| p.0)
                =~= prev.map_values(|p: (Seq<char>, Seq<char>)| p.0).push(sources@[i as int]@));
            assert(prev.push((sources@[i as int]@, r)).map_values(|p: (Seq<char>, Seq<char>)| p.1)
                =~= prev.map_values(|p: (Seq<char>, Seq<char>)| p.1).push(r));
        }
        i = i + 1;
    }
    assert(sv.take(sources.len() as int) =~= sv);
    assert(tv.take(sources.len() as int) =~= tv);
    reels
}

/// The reel of every medium of an EDL, by its source path: seven letters and
/// digits of its file stem (of the whole path when it has none), stable and
/// never repeated. The reels come as a list of `(source, reel)` pairs, each
/// source once, rather than a map by source: text keys have no hashing whose behaviour the contracts can speak of, while a list is a plain sequence of values, so the pairs are proved
/// unique. Reels are proved to keep at most seven characters for up to
/// 700 001 sources (`lemma_reels_fit`); past that bound nothing is proved of
/// their length, and a number of eight digits or more makes a longer reel.
pub fn assign_reels(sources: &Vec<String>) -> (reels: Vec<(String, String)>)
    ensures
        exists|stems: Seq<Seq<char>>|
            stems.len() == sources@.len() && #[trigger] pairs_view(reels@) == reels_of(
                string_views(sources@),
                stems,
            ) && forall|i: int| 0 <= i < stems.len() ==> stem_of_source(sources@[i]@, #[trigger] stems[i]),
        pairs_view(reels@).map_values(|p: (Seq<char>, Seq<char>)| p.0).no_duplicates(),
        pairs_view(reels@).map_values(|p: (Seq<char>, Seq<char>)| p.1).no_duplicates(),
        sources@.len() <= 700_001 ==> forall|i: int|
            0 <= i < reels@.len() ==> 1 <= (#[trigger] reels@[i]).1@.len() <= 7,
        forall|i: int|
            0 <= i < sources@.len() ==> pairs_view(reels@).map_values(
                |p: (Seq<char>, Seq<char>)| p.0,
            ).contains(#[trigger] sources@[i]@),
{
    let mut stems: Vec<String> = Vec::new();
    let mut i: usize = 0;
    while i < sources.len()
        invariant
            i <= sources.len(),
            stems@.len() == i,
            forall|k: int| 0 <= k < i ==> stem_of_source(sources@[k]@, #[trigger] stems@[k]@),
        decreases sources.len() - i,
    {
        let stem = match path_stem(sources[i].as_str()) {
            Some(s) => s,
            None => {
                let whole = copy_text(&sources[i]);
                assert(whole@ == sources@[i as int]@);
                whole
            },
        };
        assert(stem_of_source(sources@[i as int]@, stem@));
        stems.push(stem);
        i = i + 1;
    }
    let reels = reels_from_stems(sources, &stems);
    proof {
        lemma_reels_are_unique(string_views(sources@), string_views(stems@));
        if sources@.len() <= 700_001 {
            lemma_reels_fit(string_views(sources@), string_views(stems@));
            assert forall|i: int| 0 <= i < reels@.len() implies 1 <= (#[trigger] reels@[i]).1@.len() <= 7 by {
                assert(pairs_view(reels@)[i].1 == reels@[i].1@);
            }
        }
        assert forall|i: int| 0 <= i < string_views(stems@).len() implies stem_of_source(
            sources@[i]@,
            #[trigger] string_views(stems@)[i],
        ) by {
            assert(string_views(stems@)[i] == stems@[i]@);
        }
        assert forall|i: int| 0 <= i < sources@.len() implies pairs_view(reels@).map_values(
            |p: (Seq<char>, Seq<char>)| p.0,
        ).contains(#[trigger] sources@[i]@) by {
            assert(string_views(sources@)[i] == sources@[i]@);
        }
    }
    reels
}

// ---------------------------------------------------------------------------
// Writing a list
// ---------------------------------------------------------------------------

/// A cut, in frames of the edit. `source` decides the reel; `speed` is the
/// bits of a double, one for normal speed.
#[derive(Debug, Clone)]
pub struct EdlClip {
    pub source: String,
    pub name: String,
    pub channel: Channel,
    pub source_in: i64,
    pub record_in: i64,
    pub duration: i64,
    pub speed: u64,
}

/// The rate line of a change of speed: the rate in frames per second of the
/// source as it is printed (one decimal), and the speed in percent.
#[derive(Debug, Clone)]
pub struct Motion {
    pub rate: String,
    pub percent: i64,
}

/// What the speed of a cut writes: the frames it takes of the source, and
/// the rate lines when its speed is not normal.
#[derive(Debug, Clone)]
pub struct Retime {
    pub source_span: i64,
    pub motion: Option<Motion>,
}

/// A cut with what its speed writes.
pub struct EventView {
    pub source: Seq<char>,
    pub name: Seq<char>,
    pub channel: Channel,
    pub source_in: i64,
    pub record_in: i64,
    pub duration: i64,
    pub span: i64,
    pub motion: Option<(Seq<char>, i64)>,
}

pub open spec fn motion_view(m: Option<Motion>) -> Option<(Seq<char>, i64)> {
    match m {
        Some(x) => Some((x.rate@, x.percent)),
        None => None,
    }
}

pub open spec fn event_view(c: EdlClip, r: Retime) -> EventView {
    EventView {
        source: c.source@,
        name: c.name@,
        channel: c.channel,
        source_in: c.source_in,
        record_in: c.record_in,
        duration: c.duration,
        span: r.source_span,
        motion: motion_view(r.motion),
    }
}

pub open spec fn events_view(clips: Seq<EdlClip>, retimes: Seq<Retime>) -> Seq<EventView> {
    Seq::new(clips.len(), |i: int| event_view(clips[i], retimes[i]))
}

/// Events in order of record in, then of channel label.
pub open spec fn event_order() -> spec_fn(EventView, EventView) -> bool {
    |a: EventView, b: EventView|
        a.record_in < b.record_in || (a.record_in == b.record_in && chars_le(
            channel_label(a.channel),
            channel_label(b.channel),
        ))
}

/// The reel of `source`: the first pair for it, `AX` when there is none.
pub open spec fn reel_in(reels: Seq<(Seq<char>, Seq<char>)>, source: Seq<char>) -> Seq<char>
    decreases reels.len(),
{
    if reels.len() == 0 {
        "AX"@
    } else if reels[0].0 == source {
        reels[0].1
    } else {
        reel_in(reels.drop_first(), source)
    }
}

/// `s` followed by spaces up to `w` characters.
pub open spec fn left_aligned(s: Seq<char>, w: nat) -> Seq<char> {
    if s.len() >= w {
        s
    } else {
        s + Seq::new((w - s.len()) as nat, |_i: int| ' ')
    }
}

/// `s` after spaces up to `w` characters.
pub open spec fn right_aligned(s: Seq<char>, w: nat) -> Seq<char> {
    if s.len() >= w {
        s
    } else {
        Seq::new((w - s.len()) as nat, |_i: int| ' ') + s
    }
}

/// `x` in decimal, with `-` when negative.
pub open spec fn signed_decimal(x: int) -> Seq<char> {
    if x < 0 {
        seq!['-'] + decimal((-x) as nat)
    } else {
        decimal(x as nat)
    }
}

/// The cut line of the `n`-th event: number, reel, channel, then source in
/// and out and record in and out.
pub open spec fn cut_line(n: nat, e: EventView, reel: Seq<char>, tb: Timebase) -> Seq<char> {
    pad3(n) + "  "@ + left_aligned(reel, 7) + "   "@ + left_aligned(channel_label(e.channel), 3) + "  C      "@
        + timecode_of(tb, e.source_in as int) + " "@ + timecode_of(tb, e.source_in + e.span) + " "@
        + timecode_of(tb, e.record_in as int) + " "@ + timecode_of(tb, e.record_in + e.duration)
}

/// The clip name line: the trimmed name, the reel when it is empty.
pub open spec fn name_line(e: EventView, reel: Seq<char>) -> Seq<char> {
    "* FROM CLIP NAME: "@ + (if trim(e.name).len() == 0 {
        reel
    } else {
        trim(e.name)
    })
}

/// The motion line of a change of speed.
pub open spec fn rate_line(e: EventView, reel: Seq<char>, rate: Seq<char>, tb: Timebase) -> Seq<char> {
    "M2   "@ + left_aligned(reel, 7) + " "@ + right_aligned(rate, 9) + "    "@ + timecode_of(tb, e.source_in as int)
}

/// The comment with the speed in percent.
pub open spec fn percent_line(percent: i64) -> Seq<char> {
    "* SPEED CHANGE RATE: "@ + signed_decimal(percent as int)
}

/// The lines of the `n`-th event of a list, and a blank line.
pub open spec fn event_lines(n: nat, e: EventView, reel: Seq<char>, tb: Timebase) -> Seq<Seq<char>> {
    match e.motion {
        Some((rate, percent)) => seq![
            cut_line(n, e, reel, tb),
            name_line(e, reel),
            rate_line(e, reel, rate, tb),
            percent_line(percent),
            Seq::empty(),
        ],
        None => seq![cut_line(n, e, reel, tb), name_line(e, reel), Seq::empty()],
    }
}

/// The lines of the events, numbered from one.
pub open spec fn all_event_lines(events: Seq<EventView>, reels: Seq<(Seq<char>, Seq<char>)>, tb: Timebase) -> Seq<
    Seq<char>,
>
    decreases events.len(),
{
    if events.len() == 0 {
        Seq::empty()
    } else {
        all_event_lines(events.drop_last(), reels, tb) + event_lines(
            events.len() as nat,
            events.last(),
            reel_in(reels, events.last().source),
            tb,
        )
    }
}

/// The title, the frame count mode and a blank line.
pub open spec fn header_lines(title: Seq<char>, tb: Timebase) -> Seq<Seq<char>> {
    seq![
        "TITLE: "@ + title,
        "FCM: "@ + (if tb.drop_frame {
            "DROP FRAME"@
        } else {
            "NON-DROP FRAME"@
        }),
        Seq::empty(),
    ]
}

/// Lines, each ended by a line feed.
pub open spec fn lines_text(lines: Seq<Seq<char>>) -> Seq<char>
    decreases lines.len(),
{
    if lines.len() == 0 {
        Seq::empty()
    } else {
        lines_text(lines.drop_last()) + lines.last() + seq!['\n']
    }
}

/// The list: its header, then the events in order of record in and
/// channel, each with its reel.
pub open spec fn edl_text(
    title: Seq<char>,
    tb: Timebase,
    events: Seq<EventView>,
    reels: Seq<(Seq<char>, Seq<char>)>,
) -> Seq<char> {
    lines_text(header_lines(title, tb) + all_event_lines(stable_sorted(events, event_order()), reels, tb))
}

/// The label of `frames` names a time below a hundred hours.
pub open spec fn under_hundred_hours(tb: Timebase, frames: int) -> bool {
    0 <= label_of(tb, clamp_frame(frames)) < 360_000 * nominal_fps_of(tb)
}

/// `n` written with at least two digits has two below a hundred.
proof fn lemma_pad2_len(n: nat)
    requires
        n < 100,
    ensures
        crate::text::pad2(n).len() == 2,
{
    if n >= 10 {
        assert(pow10(2) == 100 && pow10(1) == 10) by {
            reveal_with_fuel(pow10, 3);
        }
        lemma_decimal_len(n, 2);
    }
}

/// A timecode below a hundred hours, at a rate of at most a hundred frames
/// per second, has eleven characters.
proof fn lemma_timecode_len(tb: Timebase, x: int)
    requires
        1 <= nominal_fps_of(tb) <= 100,
        under_hundred_hours(tb, x),
    ensures
        timecode_of(tb, x).len() == 11,
{
    lemma_timecode_of(tb, x);
    let fps = nominal_fps_of(tb) as int;
    let label = label_of(tb, clamp_frame(x));
    let total_seconds = label / fps;
    let frame = label % fps;
    assert(total_seconds < 360_000) by (nonlinear_arith)
        requires
            0 <= label < 360_000 * fps,
            fps >= 1,
            total_seconds == label / fps,
    ;
    assert(0 <= total_seconds) by (nonlinear_arith)
        requires
            0 <= label,
            fps >= 1,
            total_seconds == label / fps,
    ;
    let hours = total_seconds / 3600;
    let minutes = (total_seconds / 60) % 60;
    let seconds = total_seconds % 60;
    lemma_pad2_len(hours as nat);
    lemma_pad2_len(minutes as nat);
    lemma_pad2_len(seconds as nat);
    lemma_pad2_len(frame as nat);
}

/// A cut line has at most 80 columns when its number has at most six
/// digits, its reel at most seven characters, its channel label at most
/// three (audio up to 99), the rate at most a hundred frames per second and
/// its four times lie below a hundred hours.
pub proof fn lemma_cut_line_width(n: nat, e: EventView, reel: Seq<char>, tb: Timebase)
    requires
        n < 1_000_000,
        reel.len() <= 7,
        e.channel matches Channel::Audio(i) ==> i <= 99,
        1 <= nominal_fps_of(tb) <= 100,
        under_hundred_hours(tb, e.source_in as int),
        under_hundred_hours(tb, e.source_in + e.span),
        under_hundred_hours(tb, e.record_in as int),
        under_hundred_hours(tb, e.record_in + e.duration),
    ensures
        cut_line(n, e, reel, tb).len() <= 80,
{
    reveal_strlit("  ");
    reveal_strlit("   ");
    reveal_strlit("  C      ");
    reveal_strlit(" ");
    lemma_timecode_len(tb, e.source_in as int);
    lemma_timecode_len(tb, e.source_in + e.span);
    lemma_timecode_len(tb, e.record_in as int);
    lemma_timecode_len(tb, e.record_in + e.duration);
    assert(pow10(6) == 1_000_000 && pow10(2) == 100) by {
        reveal_with_fuel(pow10, 7);
    }
    lemma_decimal_len_at_most(n, 6);
    let label = channel_label(e.channel);
    if let Channel::Audio(i) = e.channel {
        lemma_decimal_len_at_most(if i < 1 { 1nat } else { i as nat }, 2);
    }
    assert(label.len() <= 3);
    assert(crate::text::pad3(n).len() <= 6) by {
        assert(pow10(1) == 10) by {
            reveal_with_fuel(pow10, 2);
        }
        if n < 10 {
            lemma_decimal_len_at_most(n, 1);
        } else if n < 100 {
            lemma_decimal_len_at_most(n, 2);
        }
    }
    assert(left_aligned(reel, 7).len() == 7);
    assert(left_aligned(label, 3).len() == 3);
}

/// The timecodes of an event can be written: its out points stay inside
/// `i64` and every time names a label inside `i64`.
pub open spec fn event_fits(e: EventView, tb: Timebase) -> bool {
    &&& i64::MIN <= e.source_in + e.span <= i64::MAX
    &&& i64::MIN <= e.record_in + e.duration <= i64::MAX
    &&& writable(tb, e.source_in as int)
    &&& writable(tb, e.source_in + e.span)
    &&& writable(tb, e.record_in as int)
    &&& writable(tb, e.record_in + e.duration)
}

/// Writing lines one after another writes their texts one after another.
proof fn lemma_lines_text_append(a: Seq<Seq<char>>, b: Seq<Seq<char>>)
    ensures
        lines_text(a + b) == lines_text(a) + lines_text(b),
    decreases b.len(),
{
    if b.len() == 0 {
        assert(a + b =~= a);
    } else {
        lemma_lines_text_append(a, b.drop_last());
        assert((a + b).drop_last() =~= a + b.drop_last());
    }
}

/// A cut with what its speed writes, held together to be ordered.
struct Event {
    source: String,
    name: String,
    channel: Channel,
    source_in: i64,
    record_in: i64,
    duration: i64,
    span: i64,
    motion: Option<(String, i64)>,
}

spec fn event_of(e: Event) -> EventView {
    EventView {
        source: e.source@,
        name: e.name@,
        channel: e.channel,
        source_in: e.source_in,
        record_in: e.record_in,
        duration: e.duration,
        span: e.span,
        motion: match e.motion {
            Some((rate, percent)) => Some((rate@, percent)),
            None => None,
        },
    }
}

spec fn events_of(v: Seq<Event>) -> Seq<EventView> {
    v.map_values(|e: Event| event_of(e))
}

fn copy_text(s: &String) -> (r: String)
    ensures
        r@ == s@,
{
    let chars = to_chars(s.as_str());
    chars_to_string(&chars)
}

fn event_le_exec(a: &Event, b: &Event) -> (r: bool)
    ensures
        r == event_order()(event_of(*a), event_of(*b)),
{
    if a.record_in < b.record_in {
        return true;
    }
    if a.record_in > b.record_in {
        return false;
    }
    let la = to_chars(a.channel.label().as_str());
    let lb = to_chars(b.channel.label().as_str());
    chars_less_eq(&la, &lb)
}

/// The events in order of record in and channel (a stable sort).
fn sort_events(events: Vec<Event>) -> (r: Vec<Event>)
    ensures
        events_of(r@) == stable_sorted(events_of(events@), event_order()),
{
    let ghost le = event_order();
    let ghost input = events@;
    let count = events.len();
    let mut rest = events;
    let mut reversed: Vec<Event> = Vec::new();
    while rest.len() > 0
        invariant
            input == rest@ + reversed@.reverse(),
        decreases rest.len(),
    {
        let ghost before = rest@;
        let ghost rb = reversed@;
        let x = rest.pop().unwrap();
        reversed.push(x);
        assert(reversed@.reverse() =~= seq![x] + rb.reverse());
        assert(before =~= rest@.push(x));
        assert(input =~= rest@ + reversed@.reverse());
    }
    assert(reversed@.reverse() =~= input);
    let mut out: Vec<Event> = Vec::new();
    let mut k: usize = 0;
    assert(events_of(input).take(0) =~= Seq::<EventView>::empty());
    while reversed.len() > 0
        invariant
            le == event_order(),
            k + reversed@.len() == input.len(),
            input.len() == count,
            reversed@.reverse() == input.skip(k as int),
            events_of(out@) == stable_sorted(events_of(input).take(k as int), le),
        decreases reversed.len(),
    {
        let ghost rb = reversed@;
        let x = reversed.pop().unwrap();
        assert(input[k as int] == x) by {
            assert(rb.reverse()[0] == rb[rb.len() - 1]);
            assert(input.skip(k as int)[0] == input[k as int]);
        }
        assert(reversed@.reverse() =~= rb.reverse().skip(1));
        assert(input.skip(k + 1) =~= input.skip(k as int).skip(1));
        let ghost sv = events_of(out@);
        let mut p = out.len();
        while p > 0 && !event_le_exec(&out[p - 1], &x)
            invariant
                p <= out.len(),
                sv == events_of(out@),
                le == event_order(),
                forall|j: int| p <= j < sv.len() ==> !le(#[trigger] sv[j], event_of(x)),
            decreases p,
        {
            assert(sv[p - 1] == event_of(out@[p - 1]));
            p = p - 1;
        }
        proof {
            if p > 0 {
                assert(sv[p - 1] == event_of(out@[p - 1]));
            }
            lemma_insert_sorted_at(sv, event_of(x), le, p as int);
            assert(events_of(input).take(k + 1).drop_last() =~= events_of(input).take(k as int));
            assert(events_of(input).take(k + 1).last() == event_of(x));
        }
        out.insert(p, x);
        assert(events_of(out@) =~= sv.take(p as int).push(event_of(x)) + sv.skip(p as int));
        k = k + 1;
    }
    assert(events_of(input).take(count as int) =~= events_of(input));
    out
}

fn push_chars(out: &mut Vec<char>, s: &Vec<char>)
    ensures
        final(out)@ == old(out)@ + s@,
{
    crate::text::push_all(out, s);
}

fn push_left_aligned(out: &mut Vec<char>, s: &Vec<char>, w: usize)
    ensures
        final(out)@ == old(out)@ + left_aligned(s@, w as nat),
{
    let ghost start = out@;
    push_chars(out, s);
    let mut n = s.len();
    while n < w
        invariant
            s.len() <= n <= w || (n == s.len() && n >= w),
            out@ == start + s@ + Seq::new((n - s.len()) as nat, |_i: int| ' '),
        decreases w - n,
    {
        out.push(' ');
        n = n + 1;
        assert(out@ =~= start + s@ + Seq::new((n - s.len()) as nat, |_i: int| ' '));
    }
    assert(s.len() >= w ==> out@ =~= start + s@);
}

fn push_right_aligned(out: &mut Vec<char>, s: &Vec<char>, w: usize)
    ensures
        final(out)@ == old(out)@ + right_aligned(s@, w as nat),
{
    let ghost start = out@;
    let mut n = s.len();
    while n < w
        invariant
            s.len() <= n <= w || (n == s.len() && n >= w),
            out@ == start + Seq::new((n - s.len()) as nat, |_i: int| ' '),
        decreases w - n,
    {
        out.push(' ');
        n = n + 1;
        assert(out@ =~= start + Seq::new((n - s.len()) as nat, |_i: int| ' '));
    }
    push_chars(out, s);
    assert(s.len() >= w ==> out@ =~= start + s@);
}

fn push_signed(out: &mut Vec<char>, x: i64)
    ensures
        final(out)@ == old(out)@ + signed_decimal(x as int),
{
    if x < 0 {
        out.push('-');
        let magnitude: u64 = if x == i64::MIN {
            0x8000_0000_0000_0000
        } else {
            (-x) as u64
        };
        push_decimal(out, magnitude);
    } else {
        push_decimal(out, x as u64);
    }
}

fn push_timecode(out: &mut Vec<char>, tb: Timebase, frames: i64)
    requires
        writable(tb, frames as int),
    ensures
        final(out)@ == old(out)@ + timecode_of(tb, frames as int),
{
    proof {
        lemma_timecode_of(tb, frames as int);
    }
    let t = tb.timecode(frames);
    push_str(out, t.as_str());
}

/// The reel of `source` among `reels`.
fn reel_lookup(reels: &Vec<(String, String)>, source: &String) -> (r: Vec<char>)
    ensures
        r@ == reel_in(pairs_view(reels@), source@),
{
    let ghost pv = pairs_view(reels@);
    let wanted = to_chars(source.as_str());
    let mut i: usize = 0;
    assert(pv.skip(0) =~= pv);
    while i < reels.len()
        invariant
            i <= reels.len(),
            pv == pairs_view(reels@),
            wanted@ == source@,
            reel_in(pv, source@) == reel_in(pv.skip(i as int), source@),
        decreases reels.len() - i,
    {
        let ghost rest = pv.skip(i as int);
        assert(rest[0] == (reels@[i as int].0@, reels@[i as int].1@));
        let key = to_chars(reels[i].0.as_str());
        if chars_equal(&key, &wanted) {
            return to_chars(reels[i].1.as_str());
        }
        assert(rest.drop_first() =~= pv.skip(i + 1));
        i = i + 1;
    }
    assert(pv.skip(i as int) =~= Seq::<(Seq<char>, Seq<char>)>::empty());
    let ax = to_chars("AX");
    ax
}

fn push_cut_line(out: &mut Vec<char>, n: u64, e: &Event, reel: &Vec<char>, tb: Timebase)
    requires
        event_fits(event_of(*e), tb),
    ensures
        final(out)@ == old(out)@ + cut_line(n as nat, event_of(*e), reel@, tb),
{
    let ghost start = out@;
    let ghost ev = event_of(*e);
    let ghost t1 = timecode_of(tb, ev.source_in as int);
    let ghost t2 = timecode_of(tb, ev.source_in + ev.span);
    let ghost t3 = timecode_of(tb, ev.record_in as int);
    let ghost t4 = timecode_of(tb, ev.record_in + ev.duration);
    let ghost head = pad3(n as nat) + "  "@ + left_aligned(reel@, 7) + "   "@ + left_aligned(channel_label(ev.channel), 3)
        + "  C      "@;
    let out_in = e.source_in + e.span;
    let record_out = e.record_in + e.duration;
    push_pad3(out, n);
    push_str(out, "  ");
    push_left_aligned(out, reel, 7);
    push_str(out, "   ");
    let label = to_chars(e.channel.label().as_str());
    push_left_aligned(out, &label, 3);
    push_str(out, "  C      ");
    assert(out@ =~= start + head);
    push_timecode(out, tb, e.source_in);
    push_str(out, " ");
    push_timecode(out, tb, out_in);
    push_str(out, " ");
    assert(out@ =~= start + head + t1 + " "@ + t2 + " "@);
    push_timecode(out, tb, e.record_in);
    push_str(out, " ");
    push_timecode(out, tb, record_out);
    assert(out@ =~= start + (head + t1 + " "@ + t2 + " "@ + t3 + " "@ + t4));
}

fn push_name_line(out: &mut Vec<char>, e: &Event, reel: &Vec<char>)
    ensures
        final(out)@ == old(out)@ + name_line(event_of(*e), reel@),
{
    let ghost start = out@;
    push_str(out, "* FROM CLIP NAME: ");
    let name = trimmed(&to_chars(e.name.as_str()));
    if name.len() == 0 {
        push_chars(out, reel);
    } else {
        push_chars(out, &name);
    }
    assert(out@ =~= start + name_line(event_of(*e), reel@));
}

fn push_rate_line(out: &mut Vec<char>, e: &Event, reel: &Vec<char>, rate: &String, tb: Timebase)
    requires
        event_fits(event_of(*e), tb),
    ensures
        final(out)@ == old(out)@ + rate_line(event_of(*e), reel@, rate@, tb),
{
    let ghost start = out@;
    push_str(out, "M2   ");
    push_left_aligned(out, reel, 7);
    push_str(out, " ");
    let rate_chars = to_chars(rate.as_str());
    push_right_aligned(out, &rate_chars, 9);
    push_str(out, "    ");
    push_timecode(out, tb, e.source_in);
    assert(out@ =~= start + rate_line(event_of(*e), reel@, rate@, tb));
}

fn push_percent_line(out: &mut Vec<char>, percent: i64)
    ensures
        final(out)@ == old(out)@ + percent_line(percent),
{
    let ghost start = out@;
    push_str(out, "* SPEED CHANGE RATE: ");
    push_signed(out, percent);
    assert(out@ =~= start + percent_line(percent));
}

/// Writing one more line adds its text and a line feed.
proof fn lemma_lines_text_push(lines: Seq<Seq<char>>, line: Seq<char>)
    ensures
        lines_text(lines.push(line)) == lines_text(lines) + line + seq!['\n'],
{
    assert(lines.push(line).drop_last() =~= lines);
}

/// Writes the lines of the `n`-th event.
fn push_event(out: &mut Vec<char>, n: u64, e: &Event, reel: &Vec<char>, tb: Timebase)
    requires
        event_fits(event_of(*e), tb),
    ensures
        final(out)@ == old(out)@ + lines_text(event_lines(n as nat, event_of(*e), reel@, tb)),
{
    let ghost start = out@;
    let ghost ev = event_of(*e);
    let ghost a = cut_line(n as nat, ev, reel@, tb);
    let ghost b = name_line(ev, reel@);
    let ghost l0 = Seq::<Seq<char>>::empty();
    let ghost l2 = l0.push(a).push(b);
    proof {
        lemma_lines_text_push(l0, a);
        lemma_lines_text_push(l0.push(a), b);
        assert(lines_text(l0) =~= Seq::<char>::empty());
    }
    push_cut_line(out, n, e, reel, tb);
    out.push('\n');
    push_name_line(out, e, reel);
    out.push('\n');
    assert(out@ =~= start + lines_text(l2));
    match &e.motion {
        Some((rate, percent)) => {
            let ghost c = rate_line(ev, reel@, rate@, tb);
            let ghost d = percent_line(*percent);
            push_rate_line(out, e, reel, rate, tb);
            out.push('\n');
            push_percent_line(out, *percent);
            out.push('\n');
            out.push('\n');
            proof {
                let l5 = l2.push(c).push(d).push(Seq::<char>::empty());
                lemma_lines_text_push(l2, c);
                lemma_lines_text_push(l2.push(c), d);
                lemma_lines_text_push(l2.push(c).push(d), Seq::<char>::empty());
                assert(event_lines(n as nat, ev, reel@, tb) =~= l5);
                assert(out@ =~= start + lines_text(l5));
            }
        },
        None => {
            out.push('\n');
            proof {
                let l3 = l2.push(Seq::<char>::empty());
                lemma_lines_text_push(l2, Seq::<char>::empty());
                assert(event_lines(n as nat, ev, reel@, tb) =~= l3);
                assert(out@ =~= start + lines_text(l3));
            }
        },
    }
}

/// Whether the timecodes of a cut can be written (`event_fits`), which
/// `write_edl` and `to_edl` ask of every cut.
pub fn cut_fits(clip: &EdlClip, retime: &Retime, tb: Timebase) -> (b: bool)
    ensures
        b == event_fits(event_view(*clip, *retime), tb),
{
    let source_out = match clip.source_in.checked_add(retime.source_span) {
        Some(x) => x,
        None => {
            return false;
        },
    };
    let record_out = match clip.record_in.checked_add(clip.duration) {
        Some(x) => x,
        None => {
            return false;
        },
    };
    tb.timecode_writable(clip.source_in) && tb.timecode_writable(source_out) && tb.timecode_writable(
        clip.record_in,
    ) && tb.timecode_writable(record_out)
}

/// The sources of the cuts.
pub open spec fn clip_sources(clips: Seq<EdlClip>) -> Seq<Seq<char>> {
    clips.map_values(|c: EdlClip| c.source@)
}

/// The list titled `title`, in `tb`, of the cuts `clips` with what their
/// speeds write (`retimes`, one for each cut), given the reel of each
/// source: a `TITLE:` line, an `FCM:` line and a blank line, then every cut
/// in order of record in and channel label (a stable order), numbered from
/// one, each ended by a blank line.
pub fn write_edl(
    title: &str,
    tb: Timebase,
    clips: &Vec<EdlClip>,
    retimes: &Vec<Retime>,
    reels: &Vec<(String, String)>,
) -> (r: String)
    requires
        clips.len() == retimes.len(),
        forall|i: int| 0 <= i < clips.len() ==> event_fits(#[trigger] events_view(clips@, retimes@)[i], tb),
    ensures
        r@ == edl_text(title@, tb, events_view(clips@, retimes@), pairs_view(reels@)),
{
    let ghost evs = events_view(clips@, retimes@);
    let ghost rv = pairs_view(reels@);
    let mut events: Vec<Event> = Vec::new();
    let mut i: usize = 0;
    while i < clips.len()
        invariant
            i <= clips.len() == retimes.len(),
            evs == events_view(clips@, retimes@),
            events_of(events@) == evs.take(i as int),
        decreases clips.len() - i,
    {
        let c = &clips[i];
        let t = &retimes[i];
        let motion = match &t.motion {
            Some(m) => Some((copy_text(&m.rate), m.percent)),
            None => None,
        };
        let event = Event {
            source: copy_text(&c.source),
            name: copy_text(&c.name),
            channel: c.channel,
            source_in: c.source_in,
            record_in: c.record_in,
            duration: c.duration,
            span: t.source_span,
            motion,
        };
        assert(event_of(event) == evs[i as int]);
        let ghost prev = events@;
        events.push(event);
        assert(events@ == prev.push(event));
        assert(events_of(events@) =~= events_of(prev).push(event_of(event)));
        assert(evs.take(i + 1) =~= evs.take(i as int).push(evs[i as int]));
        i = i + 1;
    }
    assert(evs.take(i as int) =~= evs);
    let sorted = sort_events(events);
    let ghost sv = events_of(sorted@);
    proof {
        broadcast use vstd::seq_lib::group_to_multiset_ensures;

        lemma_stable_sorted_keeps(evs, event_order());
        assert forall|j: int| 0 <= j < sv.len() implies event_fits(#[trigger] sv[j], tb) by {
            assert(sv.to_multiset().count(sv[j]) > 0);
            assert(evs.to_multiset().count(sv[j]) > 0);
            let k = choose|k: int| 0 <= k < evs.len() && evs[k] == sv[j];
            assert(event_fits(evs[k], tb));
        }
    }
    let mut out: Vec<char> = Vec::new();
    push_str(&mut out, "TITLE: ");
    push_str(&mut out, title);
    out.push('\n');
    push_str(&mut out, "FCM: ");
    if tb.drop_frame {
        push_str(&mut out, "DROP FRAME");
    } else {
        push_str(&mut out, "NON-DROP FRAME");
    }
    out.push('\n');
    out.push('\n');
    let ghost header = header_lines(title@, tb);
    proof {
        let l0 = Seq::<Seq<char>>::empty();
        lemma_lines_text_push(l0, header[0]);
        lemma_lines_text_push(l0.push(header[0]), header[1]);
        lemma_lines_text_push(l0.push(header[0]).push(header[1]), header[2]);
        assert(header =~= l0.push(header[0]).push(header[1]).push(header[2]));
        assert(lines_text(l0) =~= Seq::<char>::empty());
        assert(out@ =~= lines_text(header));
        assert(header + all_event_lines(sv.take(0), rv, tb) =~= header);
    }
    let mut k: usize = 0;
    while k < sorted.len()
        invariant
            k <= sorted.len(),
            sv == events_of(sorted@),
            rv == pairs_view(reels@),
            header == header_lines(title@, tb),
            forall|j: int| 0 <= j < sv.len() ==> event_fits(#[trigger] sv[j], tb),
            out@ == lines_text(header + all_event_lines(sv.take(k as int), rv, tb)),
        decreases sorted.len() - k,
    {
        let e = &sorted[k];
        assert(sv[k as int] == event_of(*e));
        let reel = reel_lookup(reels, &e.source);
        let ghost before = all_event_lines(sv.take(k as int), rv, tb);
        let ghost added = event_lines((k + 1) as nat, sv[k as int], reel@, tb);
        push_event(&mut out, (k + 1) as u64, e, &reel, tb);
        proof {
            let t = sv.take(k + 1);
            assert(t.drop_last() =~= sv.take(k as int));
            assert(t.last() == sv[k as int]);
            assert(all_event_lines(t, rv, tb) == before + added);
            lemma_lines_text_append(header + before, added);
            assert(header + (before + added) =~= (header + before) + added);
        }
        k = k + 1;
    }
    assert(sv.take(k as int) =~= sv);
    chars_to_string(&out)
}

/// The list titled `title`, in `tb`, of the cuts `clips` with what their
/// speeds write (`retimes`, one for each cut). The reel of each source comes
/// from its file stem (`assign_reels`): for a plain path the stem of its
/// file name, otherwise a piece of the path without `/` that the platform
/// decides, or the whole path. Its cut lines keep within 80 columns under
/// the conditions of `lemma_cut_line_width` (reels of at most seven
/// characters, which `lemma_reels_fit` gives for up to 700 001 sources).
pub fn to_edl(title: &str, tb: Timebase, clips: &Vec<EdlClip>, retimes: &Vec<Retime>) -> (r: String)
    requires
        clips.len() == retimes.len(),
        forall|i: int| 0 <= i < clips.len() ==> event_fits(#[trigger] events_view(clips@, retimes@)[i], tb),
    ensures
        exists|stems: Seq<Seq<char>>|
            stems.len() == clips@.len() && r@ == #[trigger] edl_text(
                title@,
                tb,
                events_view(clips@, retimes@),
                reels_of(clip_sources(clips@), stems),
            ) && forall|i: int| 0 <= i < stems.len() ==> stem_of_source(clips@[i].source@, #[trigger] stems[i]),
{
    let mut sources: Vec<String> = Vec::new();
    let mut i: usize = 0;
    while i < clips.len()
        invariant
            i <= clips.len(),
            string_views(sources@) == clip_sources(clips@).take(i as int),
        decreases clips.len() - i,
    {
        let source = copy_text(&clips[i].source);
        let ghost prev = sources@;
        sources.push(source);
        assert(string_views(sources@) =~= string_views(prev).push(source@));
        assert(clip_sources(clips@).take(i + 1) =~= clip_sources(clips@).take(i as int).push(clips@[i as int].source@));
        i = i + 1;
    }
    assert(clip_sources(clips@).take(i as int) =~= clip_sources(clips@));
    let reels = assign_reels(&sources);
    let text = write_edl(title, tb, clips, retimes, &reels);
    proof {
        let stems = choose|stems: Seq<Seq<char>>|
            stems.len() == sources@.len() && #[trigger] pairs_view(reels@) == reels_of(string_views(sources@), stems)
                && forall|i: int| 0 <= i < stems.len() ==> stem_of_source(sources@[i]@, #[trigger] stems[i]);
        assert forall|i: int| 0 <= i < stems.len() implies stem_of_source(clips@[i].source@, #[trigger] stems[i]) by {
            assert(string_views(sources@)[i] == sources@[i]@);
            assert(clip_sources(clips@)[i] == clips@[i].source@);
        }
        assert(text@ == edl_text(title@, tb, events_view(clips@, retimes@), reels_of(clip_sources(clips@), stems)));
    }
    text
}

/// Every standard channel field of a CMX list names a channel: `V` video;
/// `B`, `VA` and `AV` video and audio together; `A`, `AA` and `A1A2` the
/// first audio channel; `A` and a number from 1 to 16 that audio channel.
pub proof fn lemma_standard_channel_fields(n: usize)
    requires
        1 <= n <= 16,
    ensures
        channel_of(seq!['V']) == Some(Channel::Video),
        channel_of(seq!['B']) == Some(Channel::Both),
        channel_of(seq!['V', 'A']) == Some(Channel::Both),
        channel_of(seq!['A', 'V']) == Some(Channel::Both),
        channel_of(seq!['A']) == Some(Channel::Audio(1)),
        channel_of(seq!['A', 'A']) == Some(Channel::Audio(1)),
        channel_of(seq!['A', '1', 'A', '2']) == Some(Channel::Audio(1)),
        channel_of(seq!['A'] + decimal(n as nat)) == Some(Channel::Audio(n)),
{
    reveal_strlit("V");
    reveal_strlit("B");
    reveal_strlit("VA");
    reveal_strlit("AV");
    reveal_strlit("A");
    reveal_strlit("A1");
    reveal_strlit("AA");
    reveal_strlit("A1A2");
    assert(seq!['V'] =~= "V"@);
    assert(seq!['B'] =~= "B"@);
    assert(seq!['V', 'A'] =~= "VA"@);
    assert(seq!['A', 'V'] =~= "AV"@);
    assert(seq!['A'] =~= "A"@);
    assert(seq!['A', 'A'] =~= "AA"@);
    assert(seq!['A', '1', 'A', '2'] =~= "A1A2"@);
    assert(seq!['B'] != "V"@) by {
        assert(seq!['B'][0] != "V"@[0]);
    }
    assert(seq!['V', 'A'] != "V"@);
    assert(seq!['A', 'V'] != "V"@ && seq!['A', 'V'] != "B"@ && seq!['A', 'V'] != "VA"@) by {
        assert(seq!['A', 'V'][0] != "VA"@[0]);
    }
    assert(seq!['A'] != "V"@ && seq!['A'] != "B"@) by {
        assert(seq!['A'][0] != "V"@[0]);
        assert(seq!['A'][0] != "B"@[0]);
    }
    assert(seq!['A', 'A'] != "VA"@ && seq!['A', 'A'] != "AV"@) by {
        assert(seq!['A', 'A'][0] != "VA"@[0]);
        assert(seq!['A', 'A'][1] != "AV"@[1]);
    }
    lemma_channel_round_trip(Channel::Audio(n));
    assert(channel_label(Channel::Audio(n)) == seq!['A'] + decimal(n as nat));
}

} // verus!
