//! Character-level building blocks shared by the formats of the library:
//! decimal numbers, Unicode white space, trimming and field splitting.
use vstd::prelude::*;

verus! {

// ---------------------------------------------------------------------------
// Strings and character vectors
// ---------------------------------------------------------------------------

/// The characters of a string slice, in order.
pub fn to_chars(s: &str) -> (out: Vec<char>)
    ensures
        out@ == s@,
{
    let mut out: Vec<char> = Vec::new();
    for c in it: s.chars()
        invariant
            out@ == it.seq().take(it.index() as int),
            it.seq() == s@,
    {
        out.push(c);
    }
    out
}

/// Collects characters into an owned string (`FromIterator<char>` of std).
#[verifier::external_body]
pub(crate) fn chars_to_string(chars: &Vec<char>) -> (s: String)
    ensures
        s@ == chars@,
{
    chars.iter().collect()
}

/// Appends every character of `text` to `out`.
pub fn push_str(out: &mut Vec<char>, text: &str)
    ensures
        final(out)@ == old(out)@ + text@,
{
    let chars = to_chars(text);
    push_all(out, &chars);
}

/// Appends every character of `chars` to `out`.
pub fn push_all(out: &mut Vec<char>, chars: &Vec<char>)
    ensures
        final(out)@ == old(out)@ + chars@,
{
    let ghost start = out@;
    let mut i: usize = 0;
    while i < chars.len()
        invariant
            i <= chars.len(),
            out@ == start + chars@.take(i as int),
        decreases chars.len() - i,
    {
        out.push(chars[i]);
        i = i + 1;
        assert(out@ == start + chars@.take(i as int));
    }
    assert(chars@.take(chars.len() as int) == chars@);
}

// ---------------------------------------------------------------------------
// Decimal numbers
// ---------------------------------------------------------------------------

pub open spec fn is_ascii_digit(c: char) -> bool {
    c == '0' || c == '1' || c == '2' || c == '3' || c == '4' || c == '5' || c == '6' || c == '7'
        || c == '8' || c == '9'
}

pub open spec fn digit_char(d: nat) -> char
    recommends
        d < 10,
{
    if d == 0 {
        '0'
    } else if d == 1 {
        '1'
    } else if d == 2 {
        '2'
    } else if d == 3 {
        '3'
    } else if d == 4 {
        '4'
    } else if d == 5 {
        '5'
    } else if d == 6 {
        '6'
    } else if d == 7 {
        '7'
    } else if d == 8 {
        '8'
    } else {
        '9'
    }
}

/// The value of an ASCII digit.
pub open spec fn digit_value(c: char) -> int {
    if c == '1' {
        1
    } else if c == '2' {
        2
    } else if c == '3' {
        3
    } else if c == '4' {
        4
    } else if c == '5' {
        5
    } else if c == '6' {
        6
    } else if c == '7' {
        7
    } else if c == '8' {
        8
    } else if c == '9' {
        9
    } else {
        0
    }
}

/// The shortest decimal representation of `n`.
pub open spec fn decimal(n: nat) -> Seq<char>
    decreases n,
{
    if n < 10 {
        seq![digit_char(n)]
    } else {
        decimal(n / 10).push(digit_char(n % 10))
    }
}

/// `n` written with at least two digits, as `{:02}` writes it.
pub open spec fn pad2(n: nat) -> Seq<char> {
    if n < 10 {
        seq!['0'].add(decimal(n))
    } else {
        decimal(n)
    }
}

/// `n` written with at least three digits, as `{:03}` writes it.
pub open spec fn pad3(n: nat) -> Seq<char> {
    if n < 10 {
        seq!['0', '0'].add(decimal(n))
    } else if n < 100 {
        seq!['0'].add(decimal(n))
    } else {
        decimal(n)
    }
}

/// The value of a run of decimal digits, read left to right.
pub open spec fn digits_value(s: Seq<char>) -> int
    decreases s.len(),
{
    if s.len() == 0 {
        0
    } else {
        digits_value(s.drop_last()) * 10 + digit_value(s.last())
    }
}

pub open spec fn all_digits(s: Seq<char>) -> bool {
    forall|i: int| 0 <= i < s.len() ==> is_ascii_digit(#[trigger] s[i])
}

pub proof fn lemma_decimal_digits(n: nat)
    ensures
        all_digits(decimal(n)),
        decimal(n).len() >= 1,
        digits_value(decimal(n)) == n,
    decreases n,
{
    lemma_digit_char_value((n % 10) as nat);
    if n >= 10 {
        lemma_decimal_digits(n / 10);
        let s = decimal(n);
        assert(s.drop_last() == decimal(n / 10));
        assert(s.last() == digit_char(n % 10));
        assert(digits_value(s) == digits_value(s.drop_last()) * 10 + digit_value(s.last()));
        assert(forall|i: int| 0 <= i < s.len() ==> is_ascii_digit(#[trigger] s[i])) by {
            assert forall|i: int| 0 <= i < s.len() implies is_ascii_digit(#[trigger] s[i]) by {
                if i < s.len() - 1 {
                    assert(s[i] == decimal(n / 10)[i]);
                }
            }
        }
    } else {
        let s = decimal(n);
        assert(s.drop_last() =~= Seq::<char>::empty());
        assert(digits_value(s.drop_last()) == 0);
        assert(digits_value(s) == digits_value(s.drop_last()) * 10 + digit_value(s.last()));
    }
}

pub proof fn lemma_digit_char_value(d: nat)
    requires
        d < 10,
    ensures
        digit_value(digit_char(d)) == d,
        is_ascii_digit(digit_char(d)),
{
}

pub proof fn lemma_leading_zero(s: Seq<char>)
    ensures
        digits_value(seq!['0'].add(s)) == digits_value(s),
    decreases s.len(),
{
    let t = seq!['0'].add(s);
    if s.len() > 0 {
        lemma_leading_zero(s.drop_last());
        assert(t.drop_last() =~= seq!['0'].add(s.drop_last()));
        assert(t.last() == s.last());
        assert(digits_value(t) == digits_value(t.drop_last()) * 10 + digit_value(t.last()));
        assert(digits_value(s) == digits_value(s.drop_last()) * 10 + digit_value(s.last()));
    } else {
        assert(t.drop_last() =~= Seq::<char>::empty());
        assert(t.last() == '0');
        assert(digits_value(t.drop_last()) == 0);
        assert(digits_value(t) == digits_value(t.drop_last()) * 10 + digit_value(t.last()));
    }
}

pub proof fn lemma_pad2(n: nat)
    ensures
        all_digits(pad2(n)),
        pad2(n).len() >= 2,
        digits_value(pad2(n)) == n,
{
    lemma_decimal_digits(n);
    if n < 10 {
        lemma_leading_zero(decimal(n));
        assert(all_digits(pad2(n)));
    } else {
        lemma_decimal_digits(n / 10);
    }
}

/// Appends the decimal representation of `n`.
pub fn push_decimal(out: &mut Vec<char>, n: u64)
    ensures
        final(out)@ == old(out)@ + decimal(n as nat),
    decreases n,
{
    if n >= 10 {
        push_decimal(out, n / 10);
    }
    out.push(digit_of(n % 10));
    proof {
        if n >= 10 {
            assert(decimal(n as nat) == decimal((n / 10) as nat).push(digit_char((n % 10) as nat)));
        }
    }
}

/// Appends the decimal representation of a wide `n`.
pub fn push_decimal_wide(out: &mut Vec<char>, n: u128)
    ensures
        final(out)@ == old(out)@ + decimal(n as nat),
    decreases n,
{
    if n >= 10 {
        push_decimal_wide(out, n / 10);
    }
    out.push(digit_of((n % 10) as u64));
    proof {
        if n >= 10 {
            assert(decimal(n as nat) == decimal((n / 10) as nat).push(digit_char((n % 10) as nat)));
        }
    }
}

/// The ASCII digit for `d`.
pub fn digit_of(d: u64) -> (c: char)
    requires
        d < 10,
    ensures
        c == digit_char(d as nat),
        is_ascii_digit(c),
{
    match d {
        0 => '0',
        1 => '1',
        2 => '2',
        3 => '3',
        4 => '4',
        5 => '5',
        6 => '6',
        7 => '7',
        8 => '8',
        _ => '9',
    }
}

/// Appends `n` with at least two digits.
pub fn push_pad2(out: &mut Vec<char>, n: u64)
    ensures
        final(out)@ == old(out)@ + pad2(n as nat),
{
    if n < 10 {
        out.push('0');
        let ghost mid = out@;
        push_decimal(out, n);
        assert(out@ == old(out)@ + pad2(n as nat));
    } else {
        push_decimal(out, n);
    }
}

/// Appends `n` with at least three digits.
pub fn push_pad3(out: &mut Vec<char>, n: u64)
    ensures
        final(out)@ == old(out)@ + pad3(n as nat),
{
    if n < 10 {
        out.push('0');
        out.push('0');
        push_decimal(out, n);
        assert(out@ == old(out)@ + pad3(n as nat));
    } else if n < 100 {
        out.push('0');
        push_decimal(out, n);
        assert(out@ == old(out)@ + pad3(n as nat));
    } else {
        push_decimal(out, n);
    }
}


// ---------------------------------------------------------------------------
// White space and trimming
// ---------------------------------------------------------------------------

/// The Unicode `White_Space` property, which `char::is_whitespace` tests.
pub open spec fn is_white_space(c: char) -> bool {
    ('\u{9}' <= c && c <= '\u{d}') || c == ' ' || c == '\u{85}' || c == '\u{a0}' || c == '\u{1680}'
        || ('\u{2000}' <= c && c <= '\u{200a}') || c == '\u{2028}' || c == '\u{2029}' || c
        == '\u{202f}' || c == '\u{205f}' || c == '\u{3000}'
}

/// Whether `c` has the Unicode `White_Space` property.
pub fn white_space(c: char) -> (b: bool)
    ensures
        b == is_white_space(c),
{
    ('\u{9}' <= c && c <= '\u{d}') || c == ' ' || c == '\u{85}' || c == '\u{a0}' || c == '\u{1680}'
        || ('\u{2000}' <= c && c <= '\u{200a}') || c == '\u{2028}' || c == '\u{2029}' || c
        == '\u{202f}' || c == '\u{205f}' || c == '\u{3000}'
}

/// `s` without its leading white space.
pub open spec fn trim_start(s: Seq<char>) -> Seq<char>
    decreases s.len(),
{
    if s.len() > 0 && is_white_space(s[0]) {
        trim_start(s.drop_first())
    } else {
        s
    }
}

/// `s` without its trailing white space.
pub open spec fn trim_end(s: Seq<char>) -> Seq<char>
    decreases s.len(),
{
    if s.len() > 0 && is_white_space(s.last()) {
        trim_end(s.drop_last())
    } else {
        s
    }
}

/// `s` without white space at either end, as `str::trim` leaves it.
pub open spec fn trim(s: Seq<char>) -> Seq<char> {
    trim_end(trim_start(s))
}

/// The bounds of `s` once trimmed: `s[lo..hi]` is `trim(s)`.
pub fn trim_bounds(s: &Vec<char>) -> (r: (usize, usize))
    ensures
        r.0 <= r.1 <= s.len(),
        s@.subrange(r.0 as int, r.1 as int) == trim(s@),
{
    let n = s.len();
    let mut i: usize = 0;
    assert(s@.subrange(0, n as int) =~= s@);
    while i < n && white_space(s[i])
        invariant
            i <= n == s.len(),
            trim_start(s@) == trim_start(s@.subrange(i as int, n as int)),
        decreases n - i,
    {
        assert(s@.subrange(i as int, n as int).drop_first() =~= s@.subrange(i + 1, n as int));
        i = i + 1;
    }
    let mut j: usize = n;
    while j > i && white_space(s[j - 1])
        invariant
            i <= j <= n == s.len(),
            trim_end(s@.subrange(i as int, n as int)) == trim_end(s@.subrange(i as int, j as int)),
            i == n || !is_white_space(s@[i as int]),
        decreases j - i,
    {
        assert(s@.subrange(i as int, j as int).drop_last() =~= s@.subrange(i as int, j - 1));
        j = j - 1;
    }
    (i, j)
}

/// The elements `v[lo..hi]` as a new vector.
pub fn slice_of(v: &Vec<char>, lo: usize, hi: usize) -> (out: Vec<char>)
    requires
        lo <= hi <= v.len(),
    ensures
        out@ == v@.subrange(lo as int, hi as int),
{
    let mut out: Vec<char> = Vec::new();
    let mut k = lo;
    while k < hi
        invariant
            lo <= k <= hi <= v.len(),
            out@ == v@.subrange(lo as int, k as int),
        decreases hi - k,
    {
        out.push(v[k]);
        k = k + 1;
        assert(out@ =~= v@.subrange(lo as int, k as int));
    }
    out
}

/// `s` trimmed of white space at both ends.
pub fn trimmed(s: &Vec<char>) -> (out: Vec<char>)
    ensures
        out@ == trim(s@),
{
    let (lo, hi) = trim_bounds(s);
    slice_of(s, lo, hi)
}

// ---------------------------------------------------------------------------
// Signed integers as `i64::from_str` reads them
// ---------------------------------------------------------------------------

pub open spec fn i64_max() -> int {
    0x7fff_ffff_ffff_ffff
}

/// An optional `+` or `-` followed by at least one ASCII digit, inside the
/// range of `i64`; anything else is refused.
pub open spec fn parse_i64(s: Seq<char>) -> Option<int> {
    if s.len() > 0 && (s[0] == '-' || s[0] == '+') {
        let d = s.drop_first();
        if d.len() > 0 && all_digits(d) {
            if s[0] == '-' && digits_value(d) <= i64_max() + 1 {
                Some(-digits_value(d))
            } else if s[0] == '+' && digits_value(d) <= i64_max() {
                Some(digits_value(d))
            } else {
                None
            }
        } else {
            None
        }
    } else if s.len() > 0 && all_digits(s) && digits_value(s) <= i64_max() {
        Some(digits_value(s))
    } else {
        None
    }
}

/// The value of the digit `c`, when it is one.
pub fn digit_value_of(c: char) -> (r: Option<u8>)
    ensures
        r is Some <==> is_ascii_digit(c),
        r matches Some(d) ==> d == digit_value(c) && d < 10,
{
    match c {
        '0' => Some(0),
        '1' => Some(1),
        '2' => Some(2),
        '3' => Some(3),
        '4' => Some(4),
        '5' => Some(5),
        '6' => Some(6),
        '7' => Some(7),
        '8' => Some(8),
        '9' => Some(9),
        _ => None,
    }
}

pub open spec fn min_int(a: int, b: int) -> int {
    if a <= b {
        a
    } else {
        b
    }
}

/// The value of `s[lo..]` when it is a non-empty run of digits, capped at `cap`.
pub fn digits_capped(s: &Vec<char>, lo: usize, cap: u128) -> (r: Option<u128>)
    requires
        lo <= s.len(),
        cap <= u128::MAX / 16,
    ensures
        r is Some <==> (s.len() > lo && all_digits(s@.subrange(lo as int, s.len() as int))),
        r matches Some(v) ==> v == min_int(digits_value(s@.subrange(lo as int, s.len() as int)), cap as int),
{
    if lo >= s.len() {
        return None;
    }
    let mut acc: u128 = 0;
    let mut k = lo;
    while k < s.len()
        invariant
            lo <= k <= s.len(),
            cap <= u128::MAX / 16,
            all_digits(s@.subrange(lo as int, k as int)),
            acc == min_int(digits_value(s@.subrange(lo as int, k as int)), cap as int),
            digits_value(s@.subrange(lo as int, k as int)) >= 0,
        decreases s.len() - k,
    {
        let ghost prev = s@.subrange(lo as int, k as int);
        let ghost next = s@.subrange(lo as int, k + 1);
        assert(next.drop_last() =~= prev);
        assert(next.last() == s@[k as int]);
        match digit_value_of(s[k]) {
            None => {
                assert(!all_digits(s@.subrange(lo as int, s.len() as int))) by {
                    assert(s@.subrange(lo as int, s.len() as int)[k - lo] == s@[k as int]);
                }
                return None;
            },
            Some(d) => {
                let grown = acc * 10 + d as u128;
                acc = if grown < cap { grown } else { cap };
                k = k + 1;
                assert(all_digits(next)) by {
                    assert forall|i: int| 0 <= i < next.len() implies is_ascii_digit(#[trigger] next[i]) by {
                        if i < prev.len() {
                            assert(next[i] == prev[i]);
                        }
                    }
                }
            },
        }
    }
    assert(s@.subrange(lo as int, s.len() as int) == s@.subrange(lo as int, k as int));
    Some(acc)
}

/// Reads an `i64` as `str::parse::<i64>` does, from the characters `s`.
pub fn parse_i64_chars(s: &Vec<char>) -> (r: Option<i64>)
    ensures
        r matches Some(v) ==> parse_i64(s@) == Some(v as int),
        r is None ==> parse_i64(s@) is None,
{
    let cap: u128 = 0x8000_0000_0000_0001;
    if s.len() > 0 && (s[0] == '-' || s[0] == '+') {
        let ghost d = s@.drop_first();
        assert(s@.subrange(1, s.len() as int) =~= d);
        match digits_capped(s, 1, cap) {
            None => None,
            Some(v) => {
                if s[0] == '-' {
                    if v <= 0x8000_0000_0000_0000 {
                        if v == 0x8000_0000_0000_0000 {
                            Some(i64::MIN)
                        } else {
                            Some(-(v as i64))
                        }
                    } else {
                        None
                    }
                } else if v <= 0x7fff_ffff_ffff_ffff {
                    Some(v as i64)
                } else {
                    None
                }
            },
        }
    } else {
        assert(s@.subrange(0, s.len() as int) =~= s@);
        match digits_capped(s, 0, cap) {
            None => None,
            Some(v) => {
                if v <= 0x7fff_ffff_ffff_ffff {
                    Some(v as i64)
                } else {
                    None
                }
            },
        }
    }
}


// ---------------------------------------------------------------------------
// Splitting into fields
// ---------------------------------------------------------------------------

/// The fields of `s` between the characters that `sep` accepts, as
/// `str::split` yields them: `n` separators give `n + 1` fields, empty ones
/// included.
pub open spec fn split_by(s: Seq<char>, sep: spec_fn(char) -> bool) -> Seq<Seq<char>>
    decreases s.len(),
{
    if s.len() == 0 {
        seq![Seq::<char>::empty()]
    } else {
        let prev = split_by(s.drop_last(), sep);
        if sep(s.last()) {
            prev.push(Seq::<char>::empty())
        } else {
            prev.update(prev.len() - 1, prev.last().push(s.last()))
        }
    }
}

pub proof fn lemma_split_by_nonempty(s: Seq<char>, sep: spec_fn(char) -> bool)
    ensures
        split_by(s, sep).len() >= 1,
    decreases s.len(),
{
    if s.len() > 0 {
        lemma_split_by_nonempty(s.drop_last(), sep);
    }
}

/// Appending characters that are not separators extends the last field.
pub proof fn lemma_split_by_append_plain(p: Seq<char>, y: Seq<char>, sep: spec_fn(char) -> bool)
    requires
        forall|i: int| 0 <= i < y.len() ==> !sep(#[trigger] y[i]),
    ensures
        split_by(p + y, sep) == split_by(p, sep).update(
            split_by(p, sep).len() - 1,
            split_by(p, sep).last() + y,
        ),
    decreases y.len(),
{
    lemma_split_by_nonempty(p, sep);
    if y.len() == 0 {
        assert(p + y =~= p);
        assert(split_by(p, sep).last() + y =~= split_by(p, sep).last());
        assert(split_by(p, sep).update(split_by(p, sep).len() - 1, split_by(p, sep).last())
            =~= split_by(p, sep));
    } else {
        let y0 = y.drop_last();
        lemma_split_by_append_plain(p, y0, sep);
        assert((p + y).drop_last() =~= p + y0);
        assert((p + y).last() == y.last());
        assert(!sep(y[y.len() - 1]));
        let prev = split_by(p + y0, sep);
        lemma_split_by_nonempty(p + y0, sep);
        let sp = split_by(p, sep);
        assert(prev.len() == sp.len());
        assert(prev.last() == sp.last() + y0);
        assert(prev.last().push(y.last()) =~= sp.last() + y);
        assert(split_by(p + y, sep) == prev.update(prev.len() - 1, prev.last().push(y.last())));
        assert(split_by(p + y, sep) =~= split_by(p, sep).update(
            split_by(p, sep).len() - 1,
            split_by(p, sep).last() + y,
        ));
    }
}

/// Appending a separator opens a new, empty field.
pub proof fn lemma_split_by_append_sep(p: Seq<char>, c: char, sep: spec_fn(char) -> bool)
    requires
        sep(c),
    ensures
        split_by(p.push(c), sep) == split_by(p, sep).push(Seq::<char>::empty()),
{
    assert(p.push(c).drop_last() =~= p);
}

/// Characters separating the fields of a timecode.
pub open spec fn timecode_separator() -> spec_fn(char) -> bool {
    |c: char| c == ':' || c == ';'
}

pub open spec fn views_of(v: Seq<Vec<char>>) -> Seq<Seq<char>> {
    v.map_values(|x: Vec<char>| x@)
}

/// The fields of `s` between `:` and `;`.
pub fn split_timecode_fields(s: &Vec<char>) -> (fields: Vec<Vec<char>>)
    ensures
        views_of(fields@) == split_by(s@, timecode_separator()),
{
    let mut fields: Vec<Vec<char>> = Vec::new();
    let mut cur: Vec<char> = Vec::new();
    let mut i: usize = 0;
    assert(s@.take(0) =~= Seq::<char>::empty());
    assert(views_of(fields@).push(cur@) =~= seq![Seq::<char>::empty()]);
    while i < s.len()
        invariant
            i <= s.len(),
            views_of(fields@).push(cur@) == split_by(s@.take(i as int), timecode_separator()),
        decreases s.len() - i,
    {
        let c = s[i];
        let ghost before = s@.take(i as int);
        assert(s@.take(i + 1) =~= before.push(c));
        assert(s@.take(i + 1).drop_last() =~= before);
        if c == ':' || c == ';' {
            fields.push(cur);
            cur = Vec::new();
            assert(views_of(fields@).push(cur@) =~= split_by(before, timecode_separator()).push(
                Seq::<char>::empty(),
            ));
        } else {
            let ghost old_cur = cur@;
            cur.push(c);
            assert(views_of(fields@).push(cur@) =~= split_by(before, timecode_separator()).update(
                split_by(before, timecode_separator()).len() - 1,
                old_cur.push(c),
            ));
        }
        i = i + 1;
    }
    assert(s@.take(s.len() as int) =~= s@);
    fields.push(cur);
    assert(views_of(fields@) =~= split_by(s@, timecode_separator()));
    fields
}


// ---------------------------------------------------------------------------
// Unicode classes that std computes from its tables
// ---------------------------------------------------------------------------

/// What `char::is_alphanumeric` answers: the Unicode `Alphabetic` or
/// `Numeric` property of `c`.
pub uninterp spec fn char_is_alphanumeric(c: char) -> bool;

/// `char::is_alphanumeric` of std: whether `c` is alphabetic or numeric in
/// Unicode. For an ASCII character that is a letter or a digit; beyond ASCII
/// the tables are std's and only the name is stated.
#[verifier::external_body]
pub(crate) fn alphanumeric(c: char) -> (b: bool)
    ensures
        b == char_is_alphanumeric(c),
        (c as u32) < 0x80 ==> (b <==> crate::edl::is_ascii_alphanumeric(c)),
{
    c.is_alphanumeric()
}

/// `s` with its ASCII capitals in small letters.
pub open spec fn ascii_lowered(s: Seq<char>) -> Seq<char> {
    s.map_values(|c: char| ascii_lower(c))
}

/// What `str::to_lowercase` returns for `s`: the Unicode lowercase mapping
/// of its characters, where a capital sigma that ends a word becomes a
/// final sigma.
pub uninterp spec fn lowercase_of(s: Seq<char>) -> Seq<char>;

/// `str::to_lowercase` of std. On ASCII text the Unicode mapping takes `A`
/// to `Z` to their small letters and leaves every other character; beyond
/// ASCII the mapping comes from std's Unicode tables (some characters map
/// to several) and only its name is stated.
#[verifier::external_body]
pub(crate) fn to_lowercase(s: &str) -> (r: String)
    ensures
        r@ == lowercase_of(s@),
        crate::edl::all_ascii(s@) ==> r@ == ascii_lowered(s@),
{
    s.to_lowercase()
}

// ---------------------------------------------------------------------------
// Hexadecimal
// ---------------------------------------------------------------------------

pub open spec fn hex_char(d: nat) -> char {
    if d < 10 {
        digit_char(d)
    } else if d == 10 {
        'a'
    } else if d == 11 {
        'b'
    } else if d == 12 {
        'c'
    } else if d == 13 {
        'd'
    } else if d == 14 {
        'e'
    } else {
        'f'
    }
}

/// `x` in lowercase hexadecimal with exactly `n` digits (the low `n` nibbles).
pub open spec fn hex_digits(x: nat, n: nat) -> Seq<char>
    decreases n,
{
    if n == 0 {
        Seq::empty()
    } else {
        hex_digits(x / 16, (n - 1) as nat).push(hex_char(x % 16))
    }
}

/// Appends the low `n` nibbles of `x` in lowercase hexadecimal.
pub fn push_hex(out: &mut Vec<char>, x: u64, n: u32)
    ensures
        final(out)@ == old(out)@ + hex_digits(x as nat, n as nat),
    decreases n,
{
    if n > 0 {
        push_hex(out, x / 16, n - 1);
        let d = x % 16;
        let c = if d < 10 {
            digit_of(d)
        } else if d == 10 {
            'a'
        } else if d == 11 {
            'b'
        } else if d == 12 {
            'c'
        } else if d == 13 {
            'd'
        } else if d == 14 {
            'e'
        } else {
            'f'
        };
        out.push(c);
    } else {
        assert(old(out)@ + hex_digits(x as nat, 0) =~= old(out)@);
    }
}

// ---------------------------------------------------------------------------
// Prefixes, suffixes and order
// ---------------------------------------------------------------------------

pub open spec fn starts_with(s: Seq<char>, p: Seq<char>) -> bool {
    p.len() <= s.len() && s.subrange(0, p.len() as int) == p
}

pub open spec fn ends_with(s: Seq<char>, p: Seq<char>) -> bool {
    p.len() <= s.len() && s.subrange(s.len() - p.len(), s.len() as int) == p
}

/// Whether `p` is a prefix of `s`.
pub fn chars_start_with(s: &Vec<char>, p: &Vec<char>) -> (b: bool)
    ensures
        b == starts_with(s@, p@),
{
    if p.len() > s.len() {
        return false;
    }
    let mut i: usize = 0;
    while i < p.len()
        invariant
            i <= p.len() <= s.len(),
            forall|j: int| 0 <= j < i ==> s@[j] == p@[j],
        decreases p.len() - i,
    {
        if s[i] != p[i] {
            assert(s@.subrange(0, p.len() as int)[i as int] != p@[i as int]);
            return false;
        }
        i = i + 1;
    }
    assert(s@.subrange(0, p.len() as int) =~= p@);
    true
}

/// Whether `p` is a suffix of `s`.
pub fn chars_end_with(s: &Vec<char>, p: &Vec<char>) -> (b: bool)
    ensures
        b == ends_with(s@, p@),
{
    if p.len() > s.len() {
        return false;
    }
    let off = s.len() - p.len();
    let mut i: usize = 0;
    while i < p.len()
        invariant
            i <= p.len() <= s.len(),
            off == s.len() - p.len(),
            forall|j: int| 0 <= j < i ==> s@[off + j] == p@[j],
        decreases p.len() - i,
    {
        if s[off + i] != p[i] {
            assert(s@.subrange(off as int, s.len() as int)[i as int] != p@[i as int]);
            return false;
        }
        i = i + 1;
    }
    assert(s@.subrange(off as int, s.len() as int) =~= p@);
    true
}

/// `a` comes no later than `b` in lexicographic order of code points.
pub open spec fn chars_le(a: Seq<char>, b: Seq<char>) -> bool
    decreases a.len(),
{
    if a.len() == 0 {
        true
    } else if b.len() == 0 {
        false
    } else if a[0] != b[0] {
        a[0] < b[0]
    } else {
        chars_le(a.drop_first(), b.drop_first())
    }
}

pub proof fn lemma_chars_le_total(a: Seq<char>, b: Seq<char>)
    ensures
        chars_le(a, b) || chars_le(b, a),
        chars_le(a, b) && chars_le(b, a) ==> a == b,
    decreases a.len(),
{
    if a.len() > 0 && b.len() > 0 && a[0] == b[0] {
        lemma_chars_le_total(a.drop_first(), b.drop_first());
        if chars_le(a, b) && chars_le(b, a) {
            assert(a =~= seq![a[0]] + a.drop_first());
            assert(b =~= seq![b[0]] + b.drop_first());
        }
    }
    if a.len() == 0 && b.len() == 0 {
        assert(a =~= b);
    }
}

pub proof fn lemma_chars_le_transitive(a: Seq<char>, b: Seq<char>, c: Seq<char>)
    requires
        chars_le(a, b),
        chars_le(b, c),
    ensures
        chars_le(a, c),
    decreases a.len(),
{
    if a.len() > 0 && b.len() > 0 && c.len() > 0 && a[0] == b[0] && b[0] == c[0] {
        lemma_chars_le_transitive(a.drop_first(), b.drop_first(), c.drop_first());
    }
}

/// Lexicographic order of code points (the order of UTF-8 bytes).
pub fn chars_less_eq(a: &Vec<char>, b: &Vec<char>) -> (r: bool)
    ensures
        r == chars_le(a@, b@),
{
    let mut i: usize = 0;
    assert(a@.skip(0) =~= a@);
    assert(b@.skip(0) =~= b@);
    while i < a.len() && i < b.len() && a[i] == b[i]
        invariant
            i <= a.len(),
            i <= b.len(),
            chars_le(a@, b@) == chars_le(a@.skip(i as int), b@.skip(i as int)),
        decreases a.len() - i,
    {
        assert(a@.skip(i as int).drop_first() =~= a@.skip(i + 1));
        assert(b@.skip(i as int).drop_first() =~= b@.skip(i + 1));
        i = i + 1;
    }
    if i == a.len() {
        true
    } else if i == b.len() {
        false
    } else {
        a[i] < b[i]
    }
}

/// Whether two character sequences are equal.
pub fn chars_equal(a: &Vec<char>, b: &Vec<char>) -> (r: bool)
    ensures
        r == (a@ == b@),
{
    if a.len() != b.len() {
        return false;
    }
    let mut i: usize = 0;
    while i < a.len()
        invariant
            i <= a.len() == b.len(),
            forall|j: int| 0 <= j < i ==> a@[j] == b@[j],
        decreases a.len() - i,
    {
        if a[i] != b[i] {
            return false;
        }
        i = i + 1;
    }
    assert(a@ =~= b@);
    true
}


/// `a` comes no later than `b` in lexicographic order of their components,
/// each compared by code points (the order of `Path::cmp` for paths made of
/// plain components).
pub open spec fn components_le(a: Seq<Seq<char>>, b: Seq<Seq<char>>) -> bool
    decreases a.len(),
{
    if a.len() == 0 {
        true
    } else if b.len() == 0 {
        false
    } else if a[0] != b[0] {
        chars_le(a[0], b[0])
    } else {
        components_le(a.drop_first(), b.drop_first())
    }
}

pub proof fn lemma_components_le_total(a: Seq<Seq<char>>, b: Seq<Seq<char>>)
    ensures
        components_le(a, b) || components_le(b, a),
    decreases a.len(),
{
    if a.len() > 0 && b.len() > 0 {
        if a[0] == b[0] {
            lemma_components_le_total(a.drop_first(), b.drop_first());
        } else {
            lemma_chars_le_total(a[0], b[0]);
        }
    }
}

/// Paths that come no later than each other are the same path.
pub proof fn lemma_components_le_antisymmetric(a: Seq<Seq<char>>, b: Seq<Seq<char>>)
    requires
        components_le(a, b),
        components_le(b, a),
    ensures
        a == b,
    decreases a.len(),
{
    if a.len() == 0 {
        assert(b.len() == 0);
        assert(a =~= b);
    } else {
        assert(b.len() > 0);
        if a[0] != b[0] {
            lemma_chars_le_total(a[0], b[0]);
        } else {
            lemma_components_le_antisymmetric(a.drop_first(), b.drop_first());
            assert(a =~= seq![a[0]] + a.drop_first());
            assert(b =~= seq![b[0]] + b.drop_first());
        }
    }
}

pub proof fn lemma_components_le_transitive(a: Seq<Seq<char>>, b: Seq<Seq<char>>, c: Seq<Seq<char>>)
    requires
        components_le(a, b),
        components_le(b, c),
    ensures
        components_le(a, c),
    decreases a.len(),
{
    if a.len() > 0 && b.len() > 0 && c.len() > 0 {
        if a[0] == b[0] && b[0] == c[0] {
            lemma_components_le_transitive(a.drop_first(), b.drop_first(), c.drop_first());
        } else if a[0] == b[0] {
        } else if b[0] == c[0] {
        } else {
            lemma_chars_le_transitive(a[0], b[0], c[0]);
            lemma_chars_le_total(a[0], c[0]);
            if a[0] == c[0] {
                lemma_chars_le_total(a[0], b[0]);
            }
        }
    }
}

/// The strings of a vector as character sequences.
pub open spec fn string_views(v: Seq<String>) -> Seq<Seq<char>> {
    v.map_values(|x: String| x@)
}

/// Lexicographic order of two component lists.
pub fn components_less_eq(a: &Vec<String>, b: &Vec<String>) -> (r: bool)
    ensures
        r == components_le(string_views(a@), string_views(b@)),
{
    let ghost va = string_views(a@);
    let ghost vb = string_views(b@);
    let mut i: usize = 0;
    assert(va.skip(0) =~= va);
    assert(vb.skip(0) =~= vb);
    while i < a.len() && i < b.len() && a[i] == b[i]
        invariant
            i <= a.len(),
            i <= b.len(),
            va == string_views(a@),
            vb == string_views(b@),
            components_le(va, vb) == components_le(va.skip(i as int), vb.skip(i as int)),
        decreases a.len() - i,
    {
        assert(va.skip(i as int).drop_first() =~= va.skip(i + 1));
        assert(vb.skip(i as int).drop_first() =~= vb.skip(i + 1));
        i = i + 1;
    }
    if i == a.len() {
        true
    } else if i == b.len() {
        false
    } else {
        assert(va.skip(i as int)[0] == a@[i as int]@);
        assert(vb.skip(i as int)[0] == b@[i as int]@);
        let x = to_chars(a[i].as_str());
        let y = to_chars(b[i].as_str());
        chars_less_eq(&x, &y)
    }
}


/// Separators of `str::split_whitespace`.
pub open spec fn white_space_separator() -> spec_fn(char) -> bool {
    |c: char| is_white_space(c)
}

pub open spec fn non_empty() -> spec_fn(Seq<char>) -> bool {
    |f: Seq<char>| f.len() > 0
}

/// The words of `s` as `str::split_whitespace` yields them: the non-empty
/// runs between white space.
pub open spec fn words(s: Seq<char>) -> Seq<Seq<char>> {
    split_by(s, white_space_separator()).filter(non_empty())
}

/// The words of `s`.
pub fn split_words(s: &Vec<char>) -> (out: Vec<Vec<char>>)
    ensures
        views_of(out@) == words(s@),
        2 * out.len() <= s.len() + 2,
{
    let mut out: Vec<Vec<char>> = Vec::new();
    let mut cur: Vec<char> = Vec::new();
    let mut i: usize = 0;
    let ghost sep = white_space_separator();
    assert(s@.take(0) =~= Seq::<char>::empty());
    assert(split_by(s@.take(0), sep).drop_last() =~= Seq::<Seq<char>>::empty());
    assert(Seq::<Seq<char>>::empty().filter(non_empty()) =~= Seq::<Seq<char>>::empty());
    assert(views_of(out@) =~= Seq::<Seq<char>>::empty());
    while i < s.len()
        invariant
            i <= s.len(),
            sep == white_space_separator(),
            views_of(out@) == split_by(s@.take(i as int), sep).drop_last().filter(non_empty()),
            cur@ == split_by(s@.take(i as int), sep).last(),
            2 * out.len() + (if cur.len() > 0 { 1int } else { 0int }) <= i + 1,
        decreases s.len() - i,
    {
        let c = s[i];
        let ghost before = s@.take(i as int);
        let ghost prev = split_by(before, sep);
        proof {
            lemma_split_by_nonempty(before, sep);
        }
        assert(s@.take(i + 1) =~= before.push(c));
        assert(s@.take(i + 1).drop_last() =~= before);
        if white_space(c) {
            let ghost old_out = out@;
            let ghost old_cur = cur@;
            assert(split_by(s@.take(i + 1), sep) == prev.push(Seq::<char>::empty()));
            assert(split_by(s@.take(i + 1), sep).drop_last() =~= prev);
            assert(prev =~= prev.drop_last().push(old_cur));
            reveal_with_fuel(Seq::filter, 1);
            if cur.len() > 0 {
                out.push(cur);
                assert(views_of(out@) =~= views_of(old_out).push(old_cur));
            }
            cur = Vec::new();
        } else {
            let ghost old_cur = cur@;
            cur.push(c);
            assert(split_by(s@.take(i + 1), sep) == prev.update(prev.len() - 1, old_cur.push(c)));
            assert(split_by(s@.take(i + 1), sep).drop_last() =~= prev.drop_last());
        }
        i = i + 1;
    }
    assert(s@.take(s.len() as int) =~= s@);
    let ghost all = split_by(s@, sep);
    proof {
        lemma_split_by_nonempty(s@, sep);
        assert(all =~= all.drop_last().push(cur@));
        reveal_with_fuel(Seq::filter, 1);
    }
    let ghost old_out = out@;
    if cur.len() > 0 {
        out.push(cur);
        assert(views_of(out@) =~= views_of(old_out).push(all.last()));
    }
    out
}

/// `t` occurs in `s`.
pub open spec fn contains_seq(s: Seq<char>, t: Seq<char>) -> bool {
    exists|i: int| 0 <= i <= s.len() - t.len() && #[trigger] s.subrange(i, i + t.len()) == t
}

/// Whether `t` occurs in `s`.
pub fn chars_contain(s: &Vec<char>, t: &Vec<char>) -> (b: bool)
    ensures
        b == contains_seq(s@, t@),
{
    if t.len() > s.len() {
        return false;
    }
    let mut i: usize = 0;
    while i <= s.len() - t.len()
        invariant
            t.len() <= s.len(),
            i <= s.len() - t.len() + 1,
            forall|k: int| 0 <= k < i ==> #[trigger] s@.subrange(k, k + t.len()) != t@,
        decreases s.len() - t.len() + 1 - i,
    {
        let mut j: usize = 0;
        let mut same = true;
        while j < t.len()
            invariant
                t.len() <= s.len(),
                i <= s.len() - t.len(),
                j <= t.len(),
                same == forall|m: int| 0 <= m < j ==> s@[i + m] == t@[m],
            decreases t.len() - j,
        {
            if s[i + j] != t[j] {
                same = false;
            }
            j = j + 1;
        }
        if same {
            assert(s@.subrange(i as int, i + t.len()) =~= t@);
            return true;
        }
        assert(s@.subrange(i as int, i + t.len()) != t@) by {
            let m = choose|m: int| 0 <= m < t.len() && s@[i + m] != t@[m];
            assert(s@.subrange(i as int, i + t.len())[m] == s@[i + m]);
        }
        i = i + 1;
    }
    false
}


/// The separator `sep` alone.
pub open spec fn char_separator(sep: char) -> spec_fn(char) -> bool {
    |c: char| c == sep
}

/// The fields of `s` between the characters `sep`, as `str::split(sep)`.
pub fn split_at_char(s: &Vec<char>, sep: char) -> (fields: Vec<Vec<char>>)
    ensures
        views_of(fields@) == split_by(s@, char_separator(sep)),
{
    let mut fields: Vec<Vec<char>> = Vec::new();
    let mut cur: Vec<char> = Vec::new();
    let mut i: usize = 0;
    let ghost f = char_separator(sep);
    assert(s@.take(0) =~= Seq::<char>::empty());
    assert(views_of(fields@).push(cur@) =~= seq![Seq::<char>::empty()]);
    while i < s.len()
        invariant
            i <= s.len(),
            f == char_separator(sep),
            views_of(fields@).push(cur@) == split_by(s@.take(i as int), f),
        decreases s.len() - i,
    {
        let c = s[i];
        let ghost before = s@.take(i as int);
        assert(s@.take(i + 1) =~= before.push(c));
        assert(s@.take(i + 1).drop_last() =~= before);
        if c == sep {
            fields.push(cur);
            cur = Vec::new();
            assert(views_of(fields@).push(cur@) =~= split_by(before, f).push(Seq::<char>::empty()));
        } else {
            let ghost old_cur = cur@;
            cur.push(c);
            assert(views_of(fields@).push(cur@) =~= split_by(before, f).update(
                split_by(before, f).len() - 1,
                old_cur.push(c),
            ));
        }
        i = i + 1;
    }
    assert(s@.take(s.len() as int) =~= s@);
    fields.push(cur);
    assert(views_of(fields@) =~= split_by(s@, f));
    fields
}


/// An optional `+` followed by at least one ASCII digit, inside the range of
/// `usize`, as `str::parse::<usize>` reads it; anything else is refused.
pub open spec fn parse_usize(s: Seq<char>) -> Option<int> {
    let d = if s.len() > 0 && s[0] == '+' {
        s.drop_first()
    } else {
        s
    };
    if d.len() > 0 && all_digits(d) && digits_value(d) <= usize::MAX {
        Some(digits_value(d))
    } else {
        None
    }
}

/// Reads a `usize` as `str::parse::<usize>` does.
pub fn parse_usize_chars(s: &Vec<char>) -> (r: Option<usize>)
    ensures
        r matches Some(x) ==> parse_usize(s@) == Some(x as int),
        r is None ==> parse_usize(s@) is None,
{
    let lo: usize = if s.len() > 0 && s[0] == '+' {
        1
    } else {
        0
    };
    assert(s@.subrange(lo as int, s.len() as int) =~= (if s.len() > 0 && s@[0] == '+' {
        s@.drop_first()
    } else {
        s@
    }));
    match digits_capped(s, lo, 0x1_0000_0000_0000_0000) {
        None => None,
        Some(v) => {
            if v <= usize::MAX as u128 {
                Some(v as usize)
            } else {
                None
            }
        },
    }
}


/// `c` with ASCII uppercase letters lowered, as `char::to_ascii_lowercase`.
pub open spec fn ascii_lower(c: char) -> char {
    if c == 'A' {
        'a'
    } else if c == 'B' {
        'b'
    } else if c == 'C' {
        'c'
    } else if c == 'D' {
        'd'
    } else if c == 'E' {
        'e'
    } else if c == 'F' {
        'f'
    } else if c == 'G' {
        'g'
    } else if c == 'H' {
        'h'
    } else if c == 'I' {
        'i'
    } else if c == 'J' {
        'j'
    } else if c == 'K' {
        'k'
    } else if c == 'L' {
        'l'
    } else if c == 'M' {
        'm'
    } else if c == 'N' {
        'n'
    } else if c == 'O' {
        'o'
    } else if c == 'P' {
        'p'
    } else if c == 'Q' {
        'q'
    } else if c == 'R' {
        'r'
    } else if c == 'S' {
        's'
    } else if c == 'T' {
        't'
    } else if c == 'U' {
        'u'
    } else if c == 'V' {
        'v'
    } else if c == 'W' {
        'w'
    } else if c == 'X' {
        'x'
    } else if c == 'Y' {
        'y'
    } else if c == 'Z' {
        'z'
    } else {
        c
    }
}

/// `char::to_ascii_lowercase`.
pub fn to_ascii_lower(c: char) -> (r: char)
    ensures
        r == ascii_lower(c),
{
    match c {
        'A' => 'a',
        'B' => 'b',
        'C' => 'c',
        'D' => 'd',
        'E' => 'e',
        'F' => 'f',
        'G' => 'g',
        'H' => 'h',
        'I' => 'i',
        'J' => 'j',
        'K' => 'k',
        'L' => 'l',
        'M' => 'm',
        'N' => 'n',
        'O' => 'o',
        'P' => 'p',
        'Q' => 'q',
        'R' => 'r',
        'S' => 's',
        'T' => 't',
        'U' => 'u',
        'V' => 'v',
        'W' => 'w',
        'X' => 'x',
        'Y' => 'y',
        'Z' => 'z',
        _ => c,
    }
}

/// `a` and `b` are equal once ASCII letters are lowered, as
/// `str::eq_ignore_ascii_case` compares.
pub open spec fn eq_ignore_ascii_case(a: Seq<char>, b: Seq<char>) -> bool {
    a.len() == b.len() && forall|i: int| 0 <= i < a.len() ==> ascii_lower(#[trigger] a[i]) == ascii_lower(b[i])
}

/// Whether `a` and `b` are equal ignoring ASCII case.
pub fn chars_eq_ignore_ascii_case(a: &Vec<char>, b: &Vec<char>) -> (r: bool)
    ensures
        r == eq_ignore_ascii_case(a@, b@),
{
    if a.len() != b.len() {
        return false;
    }
    let mut i: usize = 0;
    while i < a.len()
        invariant
            i <= a.len() == b.len(),
            forall|j: int| 0 <= j < i ==> ascii_lower(#[trigger] a@[j]) == ascii_lower(b@[j]),
        decreases a.len() - i,
    {
        if to_ascii_lower(a[i]) != to_ascii_lower(b[i]) {
            return false;
        }
        i = i + 1;
    }
    true
}


// ---------------------------------------------------------------------------
// Where trimmed text and words sit in a text
// ---------------------------------------------------------------------------

/// `trim_start(s)` is `s` without a run of white space at its front.
pub proof fn lemma_trim_start_shape(s: Seq<char>) -> (a: int)
    ensures
        0 <= a <= s.len(),
        trim_start(s) == s.subrange(a, s.len() as int),
        forall|i: int| 0 <= i < a ==> is_white_space(#[trigger] s[i]),
        a < s.len() ==> !is_white_space(s[a]),
    decreases s.len(),
{
    if s.len() > 0 && is_white_space(s[0]) {
        let rest = s.drop_first();
        let a1 = lemma_trim_start_shape(rest);
        assert(rest.subrange(a1, rest.len() as int) =~= s.subrange(a1 + 1, s.len() as int));
        assert forall|i: int| 0 <= i < a1 + 1 implies is_white_space(#[trigger] s[i]) by {
            if i > 0 {
                assert(s[i] == rest[i - 1]);
            }
        }
        if a1 + 1 < s.len() {
            assert(s[a1 + 1] == rest[a1]);
        }
        a1 + 1
    } else {
        assert(s.subrange(0, s.len() as int) =~= s);
        0
    }
}

/// `trim_end(s)` is `s` without a run of white space at its end.
pub proof fn lemma_trim_end_shape(s: Seq<char>) -> (b: int)
    ensures
        0 <= b <= s.len(),
        trim_end(s) == s.subrange(0, b),
        forall|i: int| b <= i < s.len() ==> is_white_space(#[trigger] s[i]),
        b > 0 ==> !is_white_space(s[b - 1]),
    decreases s.len(),
{
    if s.len() > 0 && is_white_space(s.last()) {
        let rest = s.drop_last();
        let b1 = lemma_trim_end_shape(rest);
        assert(rest.subrange(0, b1) =~= s.subrange(0, b1));
        assert forall|i: int| b1 <= i < s.len() implies is_white_space(#[trigger] s[i]) by {
            if i < s.len() - 1 {
                assert(s[i] == rest[i]);
            }
        }
        if b1 > 0 {
            assert(s[b1 - 1] == rest[b1 - 1]);
        }
        b1
    } else {
        assert(s.subrange(0, s.len() as int) =~= s);
        s.len() as int
    }
}

/// `trim(s)` is `s[a..b]`, with only white space outside.
pub proof fn lemma_trim_shape(s: Seq<char>) -> (r: (int, int))
    ensures
        0 <= r.0 <= r.1 <= s.len(),
        trim(s) == s.subrange(r.0, r.1),
        forall|i: int| 0 <= i < r.0 ==> is_white_space(#[trigger] s[i]),
        forall|i: int| r.1 <= i < s.len() ==> is_white_space(#[trigger] s[i]),
        r.0 < r.1 ==> !is_white_space(s[r.0]) && !is_white_space(s[r.1 - 1]),
{
    let a = lemma_trim_start_shape(s);
    let t = s.subrange(a, s.len() as int);
    let b = lemma_trim_end_shape(t);
    assert(t.subrange(0, b) =~= s.subrange(a, a + b));
    assert forall|i: int| a + b <= i < s.len() implies is_white_space(#[trigger] s[i]) by {
        assert(s[i] == t[i - a]);
    }
    if b > 0 {
        assert(s[a] == t[0]);
        assert(s[a + b - 1] == t[b - 1]);
    }
    (a, a + b)
}

/// Occurrence carries over: what occurs in `t` occurs in anything `t` occurs in.
pub proof fn lemma_contains_transitive(s: Seq<char>, t: Seq<char>, u: Seq<char>)
    requires
        contains_seq(s, t),
        contains_seq(t, u),
    ensures
        contains_seq(s, u),
{
    let i = choose|i: int| 0 <= i <= s.len() - t.len() && #[trigger] s.subrange(i, i + t.len()) == t;
    let j = choose|j: int| 0 <= j <= t.len() - u.len() && #[trigger] t.subrange(j, j + u.len()) == u;
    assert(s.subrange(i + j, i + j + u.len()) =~= u) by {
        assert forall|k: int| 0 <= k < u.len() implies s.subrange(i + j, i + j + u.len())[k] == u[k] by {
            assert(s.subrange(i, i + t.len())[j + k] == s[i + j + k]);
            assert(t.subrange(j, j + u.len())[k] == t[j + k]);
        }
    }
}

/// No character of `f` is accepted by `sep`.
pub open spec fn free_of(f: Seq<char>, sep: spec_fn(char) -> bool) -> bool {
    forall|k: int| 0 <= k < f.len() ==> !sep(#[trigger] f[k])
}

/// Every field of `split_by(s, sep)` occurs in `s` and holds no separator;
/// the last one ends `s`.
#[verifier::spinoff_prover]
pub proof fn lemma_split_fields(s: Seq<char>, sep: spec_fn(char) -> bool)
    ensures
        forall|k: int|
            0 <= k < split_by(s, sep).len() ==> contains_seq(s, #[trigger] split_by(s, sep)[k])
                && free_of(split_by(s, sep)[k], sep),
        split_by(s, sep).len() >= 1,
        ends_with(s, split_by(s, sep).last()),
    decreases s.len(),
{
    lemma_split_by_nonempty(s, sep);
    let all = split_by(s, sep);
    if s.len() == 0 {
        assert(s.subrange(0, 0) =~= Seq::<char>::empty());
        assert(all[0] == Seq::<char>::empty());
    } else {
        let p = s.drop_last();
        let c = s.last();
        lemma_split_fields(p, sep);
        let prev = split_by(p, sep);
        assert forall|k: int| 0 <= k < prev.len() - 1 implies contains_seq(s, prev[k]) by {
            let i = choose|i: int| 0 <= i <= p.len() - prev[k].len() && #[trigger] p.subrange(i, i + prev[k].len()) == prev[k];
            assert(s.subrange(i, i + prev[k].len()) =~= p.subrange(i, i + prev[k].len()));
        }
        if sep(c) {
            assert(all == prev.push(Seq::<char>::empty()));
            let e = Seq::<char>::empty();
            assert(s.subrange(s.len() as int, s.len() as int + e.len()) =~= e);
            assert(contains_seq(s, e));
            let l = prev.last();
            let i = choose|i: int| 0 <= i <= p.len() - l.len() && #[trigger] p.subrange(i, i + l.len()) == l;
            assert(s.subrange(i, i + l.len()) =~= p.subrange(i, i + l.len()));
            assert(contains_seq(s, all[prev.len() - 1]));
            assert forall|k: int| 0 <= k < all.len() implies contains_seq(s, #[trigger] all[k]) && free_of(all[k], sep) by {
                if k < prev.len() {
                    assert(all[k] == prev[k]);
                }
            }
        } else {
            let l = prev.last();
            let nl = l.push(c);
            assert(all == prev.update(prev.len() - 1, nl));
            assert(p.subrange(p.len() - l.len(), p.len() as int) == l);
            assert(s.subrange(s.len() - nl.len(), s.len() as int) =~= nl) by {
                assert forall|k: int| 0 <= k < nl.len() implies s.subrange(s.len() - nl.len(), s.len() as int)[k] == nl[k] by {
                    if k < l.len() {
                        assert(p.subrange(p.len() - l.len(), p.len() as int)[k] == p[p.len() - l.len() + k]);
                    }
                }
            }
            assert(s.subrange(s.len() - nl.len(), s.len() - nl.len() + nl.len()) == nl);
            assert(contains_seq(s, nl));
            assert(free_of(nl, sep)) by {
                assert forall|k: int| 0 <= k < nl.len() implies !sep(#[trigger] nl[k]) by {
                    if k < l.len() {
                        assert(nl[k] == l[k]);
                    }
                }
            }
            assert forall|k: int| 0 <= k < all.len() implies contains_seq(s, #[trigger] all[k]) && free_of(all[k], sep) by {
                if k < prev.len() - 1 {
                    assert(all[k] == prev[k]);
                }
            }
        }
    }
}

/// Every word of `s` is non-empty, holds no white space and occurs in `s`.
pub proof fn lemma_words_occur(s: Seq<char>)
    ensures
        forall|k: int|
            0 <= k < words(s).len() ==> #[trigger] words(s)[k].len() > 0 && contains_seq(s, words(s)[k])
                && free_of(words(s)[k], white_space_separator()),
{
    let all = split_by(s, white_space_separator());
    lemma_split_fields(s, white_space_separator());
    assert forall|k: int| 0 <= k < words(s).len() implies #[trigger] words(s)[k].len() > 0 && contains_seq(s, words(s)[k])
        && free_of(words(s)[k], white_space_separator()) by {
        let w = words(s)[k];
        all.lemma_filter_pred(non_empty(), k);
        assert(words(s).contains(w));
        all.lemma_filter_contains_rev(non_empty(), w);
        let j = choose|j: int| 0 <= j < all.len() && all[j] == w;
        assert(contains_seq(s, all[j]));
    }
}

/// A word of `s` occurs in `s` trimmed.
pub proof fn lemma_word_in_trim(s: Seq<char>, w: Seq<char>)
    requires
        w.len() > 0,
        contains_seq(s, w),
        free_of(w, white_space_separator()),
    ensures
        contains_seq(trim(s), w),
{
    let (a, b) = lemma_trim_shape(s);
    let i = choose|i: int| 0 <= i <= s.len() - w.len() && #[trigger] s.subrange(i, i + w.len()) == w;
    assert(s[i] == w[0]) by {
        assert(s.subrange(i, i + w.len())[0] == s[i]);
    }
    assert(!is_white_space(w[0]));
    let last = w.len() - 1;
    assert(s[i + last] == w[last]) by {
        assert(s.subrange(i, i + w.len())[last] == s[i + last]);
    }
    assert(!is_white_space(w[last]));
    assert(a <= i);
    assert(i + w.len() <= b);
    let t = trim(s);
    assert(t.subrange(i - a, i - a + w.len()) =~= w) by {
        assert forall|k: int| 0 <= k < w.len() implies t.subrange(i - a, i - a + w.len())[k] == w[k] by {
            assert(s.subrange(i, i + w.len())[k] == s[i + k]);
        }
    }
}

// ---------------------------------------------------------------------------
// Facts about splitting and trimming
// ---------------------------------------------------------------------------

/// Text with no separator is one field.
pub proof fn lemma_split_by_plain(x: Seq<char>, sep: spec_fn(char) -> bool)
    requires
        forall|i: int| 0 <= i < x.len() ==> !sep(#[trigger] x[i]),
    ensures
        split_by(x, sep) == seq![x],
{
    let e = Seq::<char>::empty();
    lemma_split_by_append_plain(e, x, sep);
    assert(e + x =~= x);
    assert(split_by(e, sep) == seq![e]);
    assert(seq![e].update(0, e + x) =~= seq![x]);
}

/// Text joined at a separator splits into the fields of each side.
pub proof fn lemma_split_by_join(x: Seq<char>, c: char, y: Seq<char>, sep: spec_fn(char) -> bool)
    requires
        sep(c),
    ensures
        split_by(x.push(c) + y, sep) == split_by(x, sep) + split_by(y, sep),
    decreases y.len(),
{
    if y.len() == 0 {
        assert(x.push(c) + y =~= x.push(c));
        lemma_split_by_append_sep(x, c, sep);
        assert(split_by(y, sep) == seq![Seq::<char>::empty()]);
        assert(split_by(x, sep).push(Seq::<char>::empty()) =~= split_by(x, sep) + seq![Seq::<char>::empty()]);
    } else {
        let y0 = y.drop_last();
        let d = y.last();
        lemma_split_by_join(x, c, y0, sep);
        lemma_split_by_nonempty(y0, sep);
        let z = x.push(c) + y;
        assert(z.drop_last() =~= x.push(c) + y0);
        assert(z.last() == d);
        let prev = split_by(x.push(c) + y0, sep);
        let sx = split_by(x, sep);
        let sy0 = split_by(y0, sep);
        assert(y.drop_last() =~= y0);
        if sep(d) {
            assert(split_by(z, sep) == prev.push(Seq::<char>::empty()));
            assert(split_by(y, sep) == sy0.push(Seq::<char>::empty()));
            assert(prev.push(Seq::<char>::empty()) =~= sx + sy0.push(Seq::<char>::empty()));
        } else {
            assert(split_by(z, sep) == prev.update(prev.len() - 1, prev.last().push(d)));
            assert(split_by(y, sep) == sy0.update(sy0.len() - 1, sy0.last().push(d)));
            assert(prev.last() == sy0.last());
            assert(prev.update(prev.len() - 1, prev.last().push(d)) =~= sx + sy0.update(
                sy0.len() - 1,
                sy0.last().push(d),
            ));
        }
    }
}

/// Text that trims to nothing holds only white space.
pub proof fn lemma_blank_is_white(s: Seq<char>)
    requires
        trim(s).len() == 0,
    ensures
        forall|i: int| 0 <= i < s.len() ==> is_white_space(#[trigger] s[i]),
{
    let (a, b) = lemma_trim_shape(s);
    assert(a == b);
}

/// Trimmed text starts and ends with characters that are not white space.
pub proof fn lemma_trim_ends(s: Seq<char>)
    ensures
        trim(s).len() > 0 ==> !is_white_space(trim(s)[0]) && !is_white_space(trim(s).last()),
{
    let (a, b) = lemma_trim_shape(s);
    if a < b {
        assert(trim(s)[0] == s[a]);
        assert(trim(s).last() == s[b - 1]);
    }
}

/// Trimming twice trims once.
pub proof fn lemma_trim_twice(s: Seq<char>)
    ensures
        trim(trim(s)) == trim(s),
{
    lemma_trim_ends(s);
    let w = trim(s);
    assert(trim_start(w) == w);
    assert(trim_end(w) == w);
}

/// White space before text adds no word.
pub proof fn lemma_words_after_white(sp: Seq<char>, rest: Seq<char>)
    requires
        forall|i: int| 0 <= i < sp.len() ==> is_white_space(#[trigger] sp[i]),
    ensures
        words(sp + rest) == words(rest),
    decreases sp.len(),
{
    if sp.len() == 0 {
        assert(sp + rest =~= rest);
    } else {
        let ws = white_space_separator();
        let e = Seq::<char>::empty();
        let sp1 = sp.drop_first();
        assert(sp + rest =~= e.push(sp[0]) + (sp1 + rest));
        lemma_split_by_join(e, sp[0], sp1 + rest, ws);
        assert(split_by(e, ws) == seq![e]);
        Seq::filter_distributes_over_add(seq![e], split_by(sp1 + rest, ws), non_empty());
        assert(seq![e].filter(non_empty()) =~= Seq::<Seq<char>>::empty()) by {
            reveal_with_fuel(Seq::filter, 2);
        }
        assert forall|i: int| 0 <= i < sp1.len() implies is_white_space(#[trigger] sp1[i]) by {
            assert(sp1[i] == sp[i + 1]);
        }
        lemma_words_after_white(sp1, rest);
        assert(Seq::<Seq<char>>::empty() + words(sp1 + rest) =~= words(sp1 + rest));
    }
}

/// A word, white space, then more text: the word comes first.
pub proof fn lemma_words_word_then(w: Seq<char>, sp: Seq<char>, rest: Seq<char>)
    requires
        w.len() > 0,
        forall|i: int| 0 <= i < w.len() ==> !is_white_space(#[trigger] w[i]),
        sp.len() > 0,
        forall|i: int| 0 <= i < sp.len() ==> is_white_space(#[trigger] sp[i]),
    ensures
        words(w + sp + rest) == seq![w] + words(rest),
{
    let ws = white_space_separator();
    let sp1 = sp.drop_first();
    assert(w + sp + rest =~= w.push(sp[0]) + (sp1 + rest));
    lemma_split_by_join(w, sp[0], sp1 + rest, ws);
    assert forall|i: int| 0 <= i < w.len() implies !ws(#[trigger] w[i]) by {}
    lemma_split_by_plain(w, ws);
    Seq::filter_distributes_over_add(seq![w], split_by(sp1 + rest, ws), non_empty());
    assert(seq![w].filter(non_empty()) =~= seq![w]) by {
        reveal_with_fuel(Seq::filter, 2);
    }
    assert forall|i: int| 0 <= i < sp1.len() implies is_white_space(#[trigger] sp1[i]) by {
        assert(sp1[i] == sp[i + 1]);
    }
    lemma_words_after_white(sp1, rest);
}

/// A word alone is the only word.
pub proof fn lemma_words_word(w: Seq<char>)
    requires
        w.len() > 0,
        forall|i: int| 0 <= i < w.len() ==> !is_white_space(#[trigger] w[i]),
    ensures
        words(w) == seq![w],
{
    let ws = white_space_separator();
    assert forall|i: int| 0 <= i < w.len() implies !ws(#[trigger] w[i]) by {}
    lemma_split_by_plain(w, ws);
    assert(seq![w].filter(non_empty()) =~= seq![w]) by {
        reveal_with_fuel(Seq::filter, 2);
    }
}

} // verus!
