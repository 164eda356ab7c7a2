//! Reading a CMX 3600 list: its title, its frame count mode, its cut lines
//! with their clip names, and the texts that give a cut its speed (a rate
//! line, a percent comment), which are numbers with a fraction and are read
//! by the caller. What the format cannot carry is reported, not invented.
use vstd::prelude::*;
use crate::edl::{
    all_ascii, all_event_lines, ascii_upper, ascii_upper_char, channel_label, channel_of, cut_line, edl_text,
    event_fits, event_lines, event_order, header_lines, left_aligned, lemma_channel_round_trip, lines_text,
    name_line, percent_line, rate_line, reel_in, representable, right_aligned, signed_decimal, to_uppercase,
    upper, Channel, EventView,
};
use crate::media_browser::stable_sorted;
use crate::text::{
    all_digits, char_separator, chars_contain, chars_start_with, contains_seq, i64_max, is_ascii_digit,
    parse_i64, parse_i64_chars, slice_of, split_by, split_words, starts_with, to_chars, trim, trimmed,
    views_of, words, chars_to_string,
};
use crate::timebase::{
    clamp_frame, frames_from_timecode_spec, label_of, lemma_timecode_of, lemma_timecode_round_trip, reduce_divisor,
    timecode_fits, timecode_of, timecode_text, writable, Timebase,
};

verus! {

// ---------------------------------------------------------------------------
// Text measured in bytes
// ---------------------------------------------------------------------------

/// The bytes UTF-8 takes for `c`.
pub open spec fn utf8_width(c: char) -> nat {
    if (c as u32) < 0x80 {
        1
    } else if (c as u32) < 0x800 {
        2
    } else if (c as u32) < 0x10000 {
        3
    } else {
        4
    }
}

/// The bytes UTF-8 takes for `s`: its length as a `str`.
pub open spec fn utf8_bytes(s: Seq<char>) -> nat
    decreases s.len(),
{
    if s.len() == 0 {
        0
    } else {
        utf8_width(s[0]) + utf8_bytes(s.drop_first())
    }
}

/// The end of `s` that takes `n` bytes, when `n` bytes before the end of
/// `s` fall between two characters; slicing a `str` there is otherwise
/// refused.
pub open spec fn byte_suffix(s: Seq<char>, n: nat) -> Option<Seq<char>>
    decreases s.len(),
{
    if utf8_bytes(s) == n {
        Some(s)
    } else if s.len() == 0 {
        None
    } else {
        byte_suffix(s.drop_first(), n)
    }
}

/// The start of `s` that takes `n` bytes, when the `n`-th byte ends a
/// character.
pub open spec fn byte_prefix(s: Seq<char>, n: nat) -> Option<Seq<char>>
    decreases s.len(),
{
    if n == 0 {
        Some(Seq::empty())
    } else if s.len() == 0 || utf8_width(s[0]) > n {
        None
    } else {
        match byte_prefix(s.drop_first(), (n - utf8_width(s[0])) as nat) {
            Some(p) => Some(seq![s[0]] + p),
            None => None,
        }
    }
}

fn width_of(c: char) -> (w: usize)
    ensures
        w == utf8_width(c),
{
    let v = c as u32;
    if v < 0x80 {
        1
    } else if v < 0x800 {
        2
    } else if v < 0x10000 {
        3
    } else {
        4
    }
}

proof fn lemma_bytes_bound(s: Seq<char>)
    ensures
        utf8_bytes(s) <= 4 * s.len(),
        utf8_bytes(s) >= s.len(),
    decreases s.len(),
{
    if s.len() > 0 {
        lemma_bytes_bound(s.drop_first());
    }
}

/// The bytes `s[from..]` takes.
fn bytes_from(s: &Vec<char>, from: usize) -> (n: u128)
    requires
        from <= s.len(),
    ensures
        n == utf8_bytes(s@.subrange(from as int, s.len() as int)),
{
    let mut total: u128 = 0;
    let mut k: usize = s.len();
    assert(s@.subrange(k as int, s.len() as int) =~= Seq::<char>::empty());
    while k > from
        invariant
            from <= k <= s.len(),
            total == utf8_bytes(s@.subrange(k as int, s.len() as int)),
            total <= 4 * (s.len() - k),
        decreases k - from,
    {
        let w = width_of(s[k - 1]);
        assert(s@.subrange(k - 1, s.len() as int).drop_first() =~= s@.subrange(k as int, s.len() as int));
        assert(s@.subrange(k - 1, s.len() as int)[0] == s@[k - 1]);
        total = total + w as u128;
        k = k - 1;
    }
    total
}

/// The end of `s` that takes `n` bytes, when it exists.
fn suffix_of_bytes(s: &Vec<char>, n: u128) -> (r: Option<Vec<char>>)
    ensures
        match byte_suffix(s@, n as nat) {
            Some(x) => r matches Some(v) && v@ == x,
            None => r is None,
        },
{
    let mut k: usize = 0;
    assert(s@.subrange(0, s.len() as int) =~= s@);
    while k < s.len()
        invariant
            k <= s.len(),
            byte_suffix(s@, n as nat) == byte_suffix(s@.subrange(k as int, s.len() as int), n as nat),
        decreases s.len() - k,
    {
        let b = bytes_from(s, k);
        if b == n {
            return Some(slice_of(s, k, s.len()));
        }
        assert(s@.subrange(k as int, s.len() as int).drop_first() =~= s@.subrange(k + 1, s.len() as int));
        k = k + 1;
    }
    assert(s@.subrange(k as int, s.len() as int) =~= Seq::<char>::empty());
    if n == 0 {
        Some(Vec::new())
    } else {
        None
    }
}

/// The start of `s` that takes `n` bytes, when it exists.
fn prefix_of_bytes(s: &Vec<char>, n: usize) -> (r: Option<Vec<char>>)
    ensures
        match byte_prefix(s@, n as nat) {
            Some(x) => r matches Some(v) && v@ == x,
            None => r is None,
        },
{
    let mut out: Vec<char> = Vec::new();
    let mut left = n;
    let mut k: usize = 0;
    assert(s@.subrange(0, s.len() as int) =~= s@);
    while left > 0
        invariant
            k <= s.len(),
            byte_prefix(s@, n as nat) == match byte_prefix(s@.subrange(k as int, s.len() as int), left as nat) {
                Some(p) => Some(out@ + p),
                None => None::<Seq<char>>,
            },
        decreases s.len() - k,
    {
        let ghost rest = s@.subrange(k as int, s.len() as int);
        if k == s.len() {
            assert(rest.len() == 0);
            return None;
        }
        let w = width_of(s[k]);
        if w > left {
            return None;
        }
        assert(rest[0] == s[k as int]);
        assert(rest.drop_first() =~= s@.subrange(k + 1, s.len() as int));
        proof {
            let q = byte_prefix(s@.subrange(k + 1, s.len() as int), (left - w) as nat);
            if q is Some {
                assert(out@ + (seq![s[k as int]] + q->0) =~= out@.push(s[k as int]) + q->0);
            }
        }
        out.push(s[k]);
        left = left - w;
        k = k + 1;
    }
    assert(out@ + Seq::<char>::empty() =~= out@);
    Some(out)
}

// ---------------------------------------------------------------------------
// What a list holds
// ---------------------------------------------------------------------------

/// A text that gives a cut its speed, read by the caller: the percent of a
/// `SPEED CHANGE RATE` comment, or the rate (frames per second of the
/// source) of an `M2` line.
#[derive(Clone, Debug, PartialEq, Eq)]
pub enum SpeedText {
    Percent(String),
    Rate(String),
}

/// A cut read from a list. Its reel stands for the source and is its name
/// until a clip name comment gives one.
#[derive(Clone, Debug, PartialEq, Eq)]
pub struct ReadCut {
    pub reel: String,
    pub name: String,
    pub channel: Channel,
    pub source_in: i64,
    pub record_in: i64,
    pub duration: i64,
    pub number: i32,
    /// The texts that give its speed, in the order of the list.
    pub speeds: Vec<SpeedText>,
}

/// What a list cannot carry, or carries in a way that is not taken as it
/// is.
#[derive(Clone, Debug, PartialEq, Eq)]
pub enum EdlNotice {
    /// Event `number` is a transition of this kind; it is read as a cut.
    Transition(i32, char),
    /// A line that starts with a digit and is no cut: its first forty bytes.
    Unreadable(String),
    /// The rate line of event `number`, with its rate: a rate of zero
    /// freezes the cut, which is then read at normal speed.
    Rate(i32, String),
    /// The list declares this frame count mode, which its rate cannot take.
    FrameMode(bool),
    /// Event `number` lasts no frame of the edit and is left out.
    NotPositive(i32),
}

/// A list read: its title, its cuts, what was noticed, in order, and the
/// rate with the frame count mode the list declares.
#[derive(Clone, Debug, PartialEq, Eq)]
pub struct EdlRead {
    pub title: Option<String>,
    pub cuts: Vec<ReadCut>,
    pub notices: Vec<EdlNotice>,
    pub timebase: Timebase,
}

pub enum SpeedView {
    Percent(Seq<char>),
    Rate(Seq<char>),
}

pub struct CutView {
    pub reel: Seq<char>,
    pub name: Seq<char>,
    pub channel: Channel,
    pub source_in: int,
    pub record_in: int,
    pub duration: int,
    pub number: int,
    pub speeds: Seq<SpeedView>,
}

pub enum NoticeView {
    Transition(int, char),
    Unreadable(Seq<char>),
    Rate(int, Seq<char>),
    FrameMode(bool),
    NotPositive(int),
}

pub struct ReadView {
    pub title: Option<Seq<char>>,
    pub cuts: Seq<CutView>,
    pub notices: Seq<NoticeView>,
    pub timebase: Timebase,
}

/// What has been read after some lines: the title, the declared frame
/// count mode, the cuts so far and what was noticed.
pub struct ScanView {
    pub title: Option<Seq<char>>,
    pub declared: Option<bool>,
    pub pending: Seq<CutView>,
    pub notices: Seq<NoticeView>,
}

pub open spec fn speed_view(t: SpeedText) -> SpeedView {
    match t {
        SpeedText::Percent(p) => SpeedView::Percent(p@),
        SpeedText::Rate(r) => SpeedView::Rate(r@),
    }
}

pub open spec fn cut_view(c: ReadCut) -> CutView {
    CutView {
        reel: c.reel@,
        name: c.name@,
        channel: c.channel,
        source_in: c.source_in as int,
        record_in: c.record_in as int,
        duration: c.duration as int,
        number: c.number as int,
        speeds: c.speeds@.map_values(|t: SpeedText| speed_view(t)),
    }
}

pub open spec fn notice_view(n: EdlNotice) -> NoticeView {
    match n {
        EdlNotice::Transition(k, c) => NoticeView::Transition(k as int, c),
        EdlNotice::Unreadable(t) => NoticeView::Unreadable(t@),
        EdlNotice::Rate(k, r) => NoticeView::Rate(k as int, r@),
        EdlNotice::FrameMode(d) => NoticeView::FrameMode(d),
        EdlNotice::NotPositive(k) => NoticeView::NotPositive(k as int),
    }
}

pub open spec fn read_view(r: EdlRead) -> ReadView {
    ReadView {
        title: match r.title {
            Some(t) => Some(t@),
            None => None,
        },
        cuts: r.cuts@.map_values(|c: ReadCut| cut_view(c)),
        notices: r.notices@.map_values(|n: EdlNotice| notice_view(n)),
        timebase: r.timebase,
    }
}

// ---------------------------------------------------------------------------
// Reading line by line
// ---------------------------------------------------------------------------

/// `i32::from_str`: an `i64` text inside the range of `i32`.
pub open spec fn parse_i32(s: Seq<char>) -> Option<int> {
    match parse_i64(s) {
        Some(v) => if -0x8000_0000 <= v <= 0x7fff_ffff {
            Some(v)
        } else {
            None
        },
        None => None,
    }
}

/// `s` without the `%` signs at its end.
pub open spec fn without_percents(s: Seq<char>) -> Seq<char>
    decreases s.len(),
{
    if s.len() > 0 && s.last() == '%' {
        without_percents(s.drop_last())
    } else {
        s
    }
}

/// `s` with every `\r\n` turned into `\n`.
pub open spec fn crlf_as_lf(s: Seq<char>) -> Seq<char>
    decreases s.len(),
{
    if s.len() == 0 {
        s
    } else if s[0] == '\r' && s.len() > 1 && s[1] == '\n' {
        seq!['\n'] + crlf_as_lf(s.subrange(2, s.len() as int))
    } else {
        seq![s[0]] + crlf_as_lf(s.drop_first())
    }
}

/// The lines of a list: its pieces between line feeds, `\r\n` read as `\n`.
pub open spec fn raw_lines(s: Seq<char>) -> Seq<Seq<char>> {
    split_by(crlf_as_lf(s), char_separator('\n'))
}

pub open spec fn is_ascii_alpha(c: char) -> bool {
    ('a' <= c && c <= 'z') || ('A' <= c && c <= 'Z')
}

/// The frames the times `f` name, read in order, stopping at the first that
/// names none (`Ok(None)`); `Err` where reading a time would leave `i64`.
pub open spec fn read_times(tb: Timebase, f: Seq<Seq<char>>) -> Result<Option<Seq<int>>, ()>
    decreases f.len(),
{
    if f.len() == 0 {
        Ok(Some(Seq::empty()))
    } else if !timecode_fits(tb, f[0]) {
        Err(())
    } else {
        match frames_from_timecode_spec(tb, f[0]) {
            None => Ok(None),
            Some(v) => match read_times(tb, f.drop_first()) {
                Err(e) => Err(e),
                Ok(None) => Ok(None),
                Ok(Some(rest)) => Ok(Some(seq![v] + rest)),
            },
        }
    }
}

/// What a line that is no header, comment or rate line gives.
pub enum EventRead {
    /// Reading it would leave the range of `i64`.
    Fails,
    /// It is no cut line.
    NotCut,
    /// A cut, and the kind of its transition.
    Cut(CutView, char),
}

/// A cut line: at least eight words, the first an `i32` (the event
/// number), the last four times (source in and out, record in and out),
/// the fourth the kind (its uppercase first letter), the third the channel
/// and the second the reel.
pub open spec fn event_read(line: Seq<char>, tb: Timebase) -> EventRead {
    let f = words(line);
    if f.len() < 8 {
        EventRead::NotCut
    } else {
        match parse_i32(f[0]) {
            None => EventRead::NotCut,
            Some(number) => match read_times(tb, f.subrange(f.len() - 4, f.len() as int)) {
                Err(_) => EventRead::Fails,
                Ok(None) => EventRead::NotCut,
                Ok(Some(t)) => {
                    let k = upper(f[3]);
                    if k.len() == 0 || !is_ascii_alpha(k[0]) {
                        EventRead::NotCut
                    } else {
                        match channel_of(upper(f[2])) {
                            None => EventRead::NotCut,
                            Some(channel) => EventRead::Cut(
                                CutView {
                                    reel: f[1],
                                    name: f[1],
                                    channel,
                                    source_in: if t[0] < 0 { 0 } else { t[0] },
                                    record_in: if t[2] < 0 { 0 } else { t[2] },
                                    duration: t[3] - t[2],
                                    number,
                                    speeds: Seq::empty(),
                                },
                                k[0],
                            ),
                        }
                    }
                },
            },
        }
    }
}

/// What a comment gives the cut before it.
pub enum CommentRead {
    /// Slicing the comment would fall inside a character.
    Fails,
    Nothing,
    /// A clip name.
    Name(Seq<char>),
    /// A speed in percent, as text.
    Percent(Seq<char>),
}

/// A `FROM CLIP NAME:` comment names the cut (a blank name is ignored); a
/// `SPEED CHANGE RATE:` comment gives its speed in percent. The prefixes
/// are matched on the uppercased comment, and the name is the end of the
/// comment that takes as many bytes as the uppercased rest.
pub open spec fn comment_read(comment: Seq<char>) -> CommentRead {
    let up = upper(comment);
    if starts_with(up, "FROM CLIP NAME:"@) {
        match byte_suffix(comment, utf8_bytes(up.skip(15))) {
            None => CommentRead::Fails,
            Some(x) => if trim(x).len() > 0 {
                CommentRead::Name(trim(x))
            } else {
                CommentRead::Nothing
            },
        }
    } else if starts_with(up, "SPEED CHANGE RATE:"@) {
        CommentRead::Percent(without_percents(trim(up.skip(18))))
    } else {
        CommentRead::Nothing
    }
}

pub open spec fn with_name(c: CutView, name: Seq<char>) -> CutView {
    CutView {
        reel: c.reel,
        name,
        channel: c.channel,
        source_in: c.source_in,
        record_in: c.record_in,
        duration: c.duration,
        number: c.number,
        speeds: c.speeds,
    }
}

pub open spec fn with_speed(c: CutView, s: SpeedView) -> CutView {
    CutView {
        reel: c.reel,
        name: c.name,
        channel: c.channel,
        source_in: c.source_in,
        record_in: c.record_in,
        duration: c.duration,
        number: c.number,
        speeds: c.speeds.push(s),
    }
}

pub open spec fn scan_with(
    st: ScanView,
    title: Option<Seq<char>>,
    declared: Option<bool>,
    pending: Seq<CutView>,
    notices: Seq<NoticeView>,
) -> ScanView {
    ScanView { title, declared, pending, notices }
}

/// The last cut read, changed by `f`.
pub open spec fn change_last(pending: Seq<CutView>, c: CutView) -> Seq<CutView> {
    pending.update(pending.len() - 1, c)
}

/// What one line does to what was read: nothing when blank; a `TITLE:`
/// line sets the title (the end of the line that takes as many bytes as
/// the uppercased rest, trimmed); an `FCM:` line declares drop frame when it
/// says `DROP` and not `NON-DROP`; a comment (`*`) and an `M2` line change
/// the last cut, if any; a cut line adds a cut; a line that starts with a
/// digit and is no cut is noticed by its first forty bytes. `None` where
/// the reading would slice inside a character or leave `i64`.
pub open spec fn step(st: ScanView, raw: Seq<char>, tb: Timebase) -> Option<ScanView> {
    let line = trim(raw);
    let up = upper(line);
    if line.len() == 0 {
        Some(st)
    } else if starts_with(up, "TITLE:"@) {
        match byte_suffix(line, utf8_bytes(up.skip(6))) {
            None => None,
            Some(x) => Some(scan_with(st, Some(trim(x)), st.declared, st.pending, st.notices)),
        }
    } else if starts_with(up, "FCM:"@) {
        Some(
            scan_with(
                st,
                st.title,
                Some(!contains_seq(up, "NON-DROP"@) && contains_seq(up, "DROP"@)),
                st.pending,
                st.notices,
            ),
        )
    } else if line[0] == '*' {
        if st.pending.len() == 0 {
            Some(st)
        } else {
            match comment_read(trim(line.drop_first())) {
                CommentRead::Fails => None,
                CommentRead::Nothing => Some(st),
                CommentRead::Name(n) => Some(
                    scan_with(
                        st,
                        st.title,
                        st.declared,
                        change_last(st.pending, with_name(st.pending.last(), n)),
                        st.notices,
                    ),
                ),
                CommentRead::Percent(p) => Some(
                    scan_with(
                        st,
                        st.title,
                        st.declared,
                        change_last(st.pending, with_speed(st.pending.last(), SpeedView::Percent(p))),
                        st.notices,
                    ),
                ),
            }
        }
    } else if starts_with(up, "M2"@) {
        if st.pending.len() == 0 || words(line).len() <= 2 {
            Some(st)
        } else {
            let r = words(line)[2];
            Some(
                scan_with(
                    st,
                    st.title,
                    st.declared,
                    change_last(st.pending, with_speed(st.pending.last(), SpeedView::Rate(r))),
                    st.notices.push(NoticeView::Rate(st.pending.last().number, r)),
                ),
            )
        }
    } else {
        match event_read(line, tb) {
            EventRead::Fails => None,
            EventRead::Cut(c, kind) => Some(
                scan_with(
                    st,
                    st.title,
                    st.declared,
                    st.pending.push(c),
                    if kind != 'C' {
                        st.notices.push(NoticeView::Transition(c.number, kind))
                    } else {
                        st.notices
                    },
                ),
            ),
            EventRead::NotCut => if is_ascii_digit(line[0]) {
                match byte_prefix(line, if utf8_bytes(line) < 40 { utf8_bytes(line) } else { 40 }) {
                    None => None,
                    Some(p) => Some(
                        scan_with(st, st.title, st.declared, st.pending, st.notices.push(NoticeView::Unreadable(p))),
                    ),
                }
            } else {
                Some(st)
            },
        }
    }
}

pub open spec fn empty_scan() -> ScanView {
    ScanView { title: None, declared: None, pending: Seq::empty(), notices: Seq::empty() }
}

/// The lines read in order; `None` where one of them cannot be read.
pub open spec fn scan(lines: Seq<Seq<char>>, tb: Timebase) -> Option<ScanView>
    decreases lines.len(),
{
    if lines.len() == 0 {
        Some(empty_scan())
    } else {
        match scan(lines.drop_last(), tb) {
            None => None,
            Some(st) => step(st, lines.last(), tb),
        }
    }
}

/// Drop frame exists at 30000/1001 and 60000/1001 only.
pub open spec fn drops_frames(t: Timebase) -> bool {
    t.denominator == 1001 && (t.numerator == 30000 || t.numerator == 60000)
}

/// The rate `tb` with the frame count mode `drop_frame`, reduced.
pub open spec fn with_mode(tb: Timebase, drop_frame: bool) -> Timebase {
    let g = reduce_divisor(tb.numerator as nat, tb.denominator as nat);
    Timebase {
        numerator: (tb.numerator as int / g as int) as u32,
        denominator: (tb.denominator as int / g as int) as u32,
        drop_frame,
    }
}

/// The declared mode applies when the rate can take it: a rate with both
/// terms positive, and drop frame only where frames are dropped.
pub open spec fn mode_applies(tb: Timebase, drop_frame: bool) -> bool {
    tb.numerator > 0 && tb.denominator > 0 && (!drop_frame || drops_frames(with_mode(tb, drop_frame)))
}

/// The cuts that last at least one frame.
pub open spec fn lasting(p: Seq<CutView>) -> Seq<CutView> {
    p.filter(|c: CutView| c.duration > 0)
}

/// A notice for each cut that lasts no frame.
pub open spec fn not_lasting(p: Seq<CutView>) -> Seq<NoticeView>
    decreases p.len(),
{
    if p.len() == 0 {
        Seq::empty()
    } else if p.last().duration > 0 {
        not_lasting(p.drop_last())
    } else {
        not_lasting(p.drop_last()).push(NoticeView::NotPositive(p.last().number))
    }
}

/// What the lines read give: the declared mode replaces that of `tb` when it
/// differs and applies, and is noticed when it does not; cuts that last no
/// frame are noticed and left out.
pub open spec fn finish(st: ScanView, tb: Timebase) -> ReadView {
    let changes = st.declared matches Some(d) && d != tb.drop_frame;
    let applies = changes && mode_applies(tb, st.declared->0);
    ReadView {
        title: st.title,
        cuts: lasting(st.pending),
        notices: st.notices + (if changes && !applies {
            seq![NoticeView::FrameMode(st.declared->0)]
        } else {
            Seq::empty()
        }) + not_lasting(st.pending),
        timebase: if applies {
            with_mode(tb, st.declared->0)
        } else {
            tb
        },
    }
}

/// A list read at the rate `tb`; `None` where reading it would slice a
/// line inside a character or leave the range of `i64`.
pub open spec fn edl_read_of(text: Seq<char>, tb: Timebase) -> Option<ReadView> {
    match scan(raw_lines(text), tb) {
        None => None,
        Some(st) => Some(finish(st, tb)),
    }
}

// ---------------------------------------------------------------------------
// Reading, as code
// ---------------------------------------------------------------------------

/// The lines of a list.
fn list_lines(text: &str) -> (lines: Vec<Vec<char>>)
    ensures
        views_of(lines@) == raw_lines(text@),
{
    let s = to_chars(text);
    let mut out: Vec<char> = Vec::new();
    let mut i: usize = 0;
    assert(s@.subrange(0, s.len() as int) =~= s@);
    while i < s.len()
        invariant
            i <= s.len(),
            out@ + crlf_as_lf(s@.subrange(i as int, s.len() as int)) == crlf_as_lf(s@),
        decreases s.len() - i,
    {
        let ghost rest = s@.subrange(i as int, s.len() as int);
        if s[i] == '\r' && i + 1 < s.len() && s[i + 1] == '\n' {
            assert(rest.subrange(2, rest.len() as int) =~= s@.subrange(i + 2, s.len() as int));
            assert(out@ + (seq!['\n'] + crlf_as_lf(s@.subrange(i + 2, s.len() as int))) =~= out@.push('\n')
                + crlf_as_lf(s@.subrange(i + 2, s.len() as int)));
            out.push('\n');
            i = i + 2;
        } else {
            assert(rest.drop_first() =~= s@.subrange(i + 1, s.len() as int));
            assert(out@ + (seq![s[i as int]] + crlf_as_lf(s@.subrange(i + 1, s.len() as int))) =~= out@.push(s[i as int])
                + crlf_as_lf(s@.subrange(i + 1, s.len() as int)));
            out.push(s[i]);
            i = i + 1;
        }
    }
    assert(s@.subrange(i as int, s.len() as int) =~= Seq::<char>::empty());
    assert(out@ + Seq::<char>::empty() =~= out@);
    crate::text::split_at_char(&out, '\n')
}

/// Reads an `i32`.
fn parse_i32_chars(s: &Vec<char>) -> (r: Option<i32>)
    ensures
        match parse_i32(s@) {
            Some(v) => r == Some(v as i32),
            None => r is None,
        },
{
    match parse_i64_chars(s) {
        Some(v) => if -0x8000_0000 <= v && v <= 0x7fff_ffff {
            Some(v as i32)
        } else {
            None
        },
        None => None,
    }
}

/// `prefix` before what `rest` gives.
pub open spec fn prepend(prefix: Seq<int>, rest: Result<Option<Seq<int>>, ()>) -> Result<Option<Seq<int>>, ()> {
    match rest {
        Err(e) => Err(e),
        Ok(None) => Ok(None),
        Ok(Some(t)) => Ok(Some(prefix + t)),
    }
}

pub open spec fn ints(v: Seq<i64>) -> Seq<int> {
    v.map_values(|x: i64| x as int)
}

/// A frame a timecode names is never negative.
proof fn lemma_frames_nonnegative(tb: Timebase, s: Seq<char>)
    ensures
        frames_from_timecode_spec(tb, s) matches Some(v) ==> v >= 0,
{
    if let Some(v) = frames_from_timecode_spec(tb, s) {
        let f = crate::timebase::timecode_fields(s)->0;
        let fps = crate::timebase::nominal_fps_of(tb) as int;
        assert(f[0] >= 0);
        if f.len() >= 2 {
            assert(f[1] >= 0);
        }
        if f.len() >= 3 {
            assert(f[2] >= 0);
        }
        if f.len() >= 4 {
            assert(f[3] >= 0);
        }
        let d = crate::timebase::dropped_per_minute(tb);
        assert(0 <= d <= fps) by {
            if tb.drop_frame {
                assert((2 * fps + 15) / 30 <= fps) by (nonlinear_arith)
                    requires
                        fps >= 1,
                ;
            }
        }
        if f.len() == 2 {
            assert(f[0] * fps + f[1] >= 0) by (nonlinear_arith)
                requires
                    f[0] >= 0,
                    fps >= 1,
                    f[1] >= 0,
            ;
        } else if f.len() == 3 || f.len() == 4 {
            let seconds = if f.len() == 3 {
                f[0] * 60 + f[1]
            } else {
                f[0] * 3600 + f[1] * 60 + f[2]
            };
            let frame = if f.len() == 3 {
                f[2]
            } else {
                f[3]
            };
            if f.len() == 3 {
                assert(f[0] * 60 >= 0) by (nonlinear_arith)
                    requires
                        f[0] >= 0,
                ;
            } else {
                assert(f[0] * 3600 >= 0 && f[1] * 60 >= 0) by (nonlinear_arith)
                    requires
                        f[0] >= 0,
                        f[1] >= 0,
                ;
            }
            assert(seconds >= 0);
            let minutes = seconds / 60;
            assert(seconds * fps + frame - d * (minutes - minutes / 10) >= 0) by (nonlinear_arith)
                requires
                    seconds >= 0,
                    frame >= 0,
                    0 <= d <= fps,
                    minutes == seconds / 60,
            ;
            assert(seconds * fps + frame >= 0) by (nonlinear_arith)
                requires
                    seconds >= 0,
                    frame >= 0,
                    fps >= 1,
            ;
        }
    }
}

/// The frames the times `f` name, read in order.
fn read_times_exec(tb: Timebase, f: &Vec<Vec<char>>) -> (r: Result<Option<Vec<i64>>, ()>)
    ensures
        match read_times(tb, views_of(f@)) {
            Err(_) => r is Err,
            Ok(None) => r matches Ok(None),
            Ok(Some(t)) => r matches Ok(Some(v)) && ints(v@) == t && forall|k: int| 0 <= k < v.len() ==> v@[k] >= 0,
        },
{
    let ghost fs = views_of(f@);
    let mut vals: Vec<i64> = Vec::new();
    let mut j: usize = 0;
    assert(fs.subrange(0, fs.len() as int) =~= fs);
    assert(ints(vals@) + Seq::<int>::empty() =~= Seq::<int>::empty());
    while j < f.len()
        invariant
            j <= f.len(),
            fs == views_of(f@),
            read_times(tb, fs) == prepend(ints(vals@), read_times(tb, fs.subrange(j as int, fs.len() as int))),
            forall|k: int| 0 <= k < vals.len() ==> vals@[k] >= 0,
        decreases f.len() - j,
    {
        let ghost rest = fs.subrange(j as int, fs.len() as int);
        assert(rest[0] == f@[j as int]@);
        let text = chars_to_string(&f[j]);
        if !tb.timecode_fits(text.as_str()) {
            return Err(());
        }
        match tb.frames_from_timecode(text.as_str()) {
            None => {
                return Ok(None);
            },
            Some(v) => {
                proof {
                    lemma_frames_nonnegative(tb, f@[j as int]@);
                    assert(rest.drop_first() =~= fs.subrange(j + 1, fs.len() as int));
                    let tail = read_times(tb, fs.subrange(j + 1, fs.len() as int));
                    assert(ints(vals@.push(v)) =~= ints(vals@).push(v as int));
                    if let Ok(Some(t)) = tail {
                        assert(ints(vals@) + (seq![v as int] + t) =~= ints(vals@).push(v as int) + t);
                    }
                }
                vals.push(v);
            },
        }
        j = j + 1;
    }
    assert(fs.subrange(j as int, fs.len() as int) =~= Seq::<Seq<char>>::empty());
    assert(ints(vals@) + Seq::<int>::empty() =~= ints(vals@));
    Ok(Some(vals))
}

/// What a line that is no header, comment or rate line gives, as values.
enum EventOutcome {
    Fails,
    NotCut,
    Cut(ReadCut, char),
}

spec fn event_outcome_is(o: EventOutcome, e: EventRead) -> bool {
    match e {
        EventRead::Fails => o is Fails,
        EventRead::NotCut => o is NotCut,
        EventRead::Cut(c, k) => o matches EventOutcome::Cut(x, kx) && cut_view(x) == c && kx == k,
    }
}

fn text_of(v: &Vec<char>) -> (s: String)
    ensures
        s@ == v@,
{
    chars_to_string(v)
}

fn upper_chars(v: &Vec<char>) -> (u: Vec<char>)
    ensures
        u@ == upper(v@),
{
    to_chars(to_uppercase(text_of(v).as_str()).as_str())
}

fn ascii_alpha(c: char) -> (b: bool)
    ensures
        b == is_ascii_alpha(c),
{
    ('a' <= c && c <= 'z') || ('A' <= c && c <= 'Z')
}

/// Reads a cut line.
fn read_event(line: &Vec<char>, tb: Timebase) -> (r: EventOutcome)
    ensures
        event_outcome_is(r, event_read(line@, tb)),
{
    let f = split_words(line);
    let ghost fv = views_of(f@);
    if f.len() < 8 {
        return EventOutcome::NotCut;
    }
    assert(fv[0] == f@[0]@);
    let number = match parse_i32_chars(&f[0]) {
        None => {
            return EventOutcome::NotCut;
        },
        Some(n) => n,
    };
    let mut last: Vec<Vec<char>> = Vec::new();
    let mut k: usize = f.len() - 4;
    while k < f.len()
        invariant
            8 <= f.len(),
            f.len() - 4 <= k <= f.len(),
            fv == views_of(f@),
            views_of(last@) == fv.subrange(f.len() - 4, k as int),
        decreases f.len() - k,
    {
        let copy = slice_of(&f[k], 0, f[k].len());
        assert(copy@ =~= f@[k as int]@);
        assert(fv[k as int] == f@[k as int]@);
        let ghost before = last@;
        last.push(copy);
        assert(views_of(last@) =~= views_of(before).push(fv[k as int]));
        assert(views_of(last@) =~= fv.subrange(f.len() - 4, k + 1));
        k = k + 1;
    }
    let times = match read_times_exec(tb, &last) {
        Err(_) => {
            return EventOutcome::Fails;
        },
        Ok(None) => {
            return EventOutcome::NotCut;
        },
        Ok(Some(t)) => t,
    };
    assert(times@.len() == 4) by {
        assert(ints(times@).len() == times@.len());
        lemma_read_times_len(tb, views_of(last@));
    }
    assert(fv[3] == f@[3]@);
    assert(fv[2] == f@[2]@);
    assert(fv[1] == f@[1]@);
    let kind = upper_chars(&f[3]);
    if kind.len() == 0 || !ascii_alpha(kind[0]) {
        return EventOutcome::NotCut;
    }
    let channel_text = text_of(&upper_chars(&f[2]));
    let channel = match Channel::parse(channel_text.as_str()) {
        None => {
            return EventOutcome::NotCut;
        },
        Some(c) => c,
    };
    let t0 = times[0];
    let t2 = times[2];
    let t3 = times[3];
    assert(ints(times@)[0] == t0 && ints(times@)[2] == t2 && ints(times@)[3] == t3);
    let cut = ReadCut {
        reel: text_of(&f[1]),
        name: text_of(&f[1]),
        channel,
        source_in: if t0 < 0 { 0 } else { t0 },
        record_in: if t2 < 0 { 0 } else { t2 },
        duration: t3 - t2,
        number,
        speeds: Vec::new(),
    };
    assert(cut.speeds@.map_values(|t: SpeedText| speed_view(t)) =~= Seq::<SpeedView>::empty());
    EventOutcome::Cut(cut, kind[0])
}

/// Reading four times gives four frames, when it gives them.
proof fn lemma_read_times_len(tb: Timebase, f: Seq<Seq<char>>)
    ensures
        read_times(tb, f) matches Ok(Some(t)) ==> t.len() == f.len(),
    decreases f.len(),
{
    if f.len() > 0 {
        lemma_read_times_len(tb, f.drop_first());
    }
}

/// What a comment gives, as values.
enum CommentOutcome {
    Fails,
    Nothing,
    Name(Vec<char>),
    Percent(Vec<char>),
}

spec fn comment_outcome_is(o: CommentOutcome, c: CommentRead) -> bool {
    match c {
        CommentRead::Fails => o is Fails,
        CommentRead::Nothing => o is Nothing,
        CommentRead::Name(n) => o matches CommentOutcome::Name(x) && x@ == n,
        CommentRead::Percent(p) => o matches CommentOutcome::Percent(x) && x@ == p,
    }
}

fn strip_percents(s: &Vec<char>) -> (r: Vec<char>)
    ensures
        r@ == without_percents(s@),
{
    let mut n = s.len();
    assert(s@.subrange(0, n as int) =~= s@);
    while n > 0 && s[n - 1] == '%'
        invariant
            n <= s.len(),
            without_percents(s@) == without_percents(s@.subrange(0, n as int)),
        decreases n,
    {
        assert(s@.subrange(0, n as int).drop_last() =~= s@.subrange(0, n - 1));
        n = n - 1;
    }
    slice_of(s, 0, n)
}

/// Reads a comment.
fn read_comment(comment: &Vec<char>) -> (r: CommentOutcome)
    ensures
        comment_outcome_is(r, comment_read(comment@)),
{
    let up = upper_chars(comment);
    proof {
        reveal_strlit("FROM CLIP NAME:");
        reveal_strlit("SPEED CHANGE RATE:");
    }
    let name_prefix = to_chars("FROM CLIP NAME:");
    let rate_prefix = to_chars("SPEED CHANGE RATE:");
    if chars_start_with(&up, &name_prefix) {
        assert(up@.subrange(15, up.len() as int) =~= up@.skip(15));
        let rest = bytes_from(&up, 15);
        match suffix_of_bytes(comment, rest) {
            None => CommentOutcome::Fails,
            Some(x) => {
                let t = trimmed(&x);
                if t.len() > 0 {
                    CommentOutcome::Name(t)
                } else {
                    CommentOutcome::Nothing
                }
            },
        }
    } else if chars_start_with(&up, &rate_prefix) {
        let rest = slice_of(&up, 18, up.len());
        assert(rest@ =~= up@.skip(18));
        CommentOutcome::Percent(strip_percents(&trimmed(&rest)))
    } else {
        CommentOutcome::Nothing
    }
}

/// What has been read so far, as values.
struct Scan {
    title: Option<String>,
    declared: Option<bool>,
    pending: Vec<ReadCut>,
    notices: Vec<EdlNotice>,
}

pub open spec fn cuts_view(v: Seq<ReadCut>) -> Seq<CutView> {
    v.map_values(|c: ReadCut| cut_view(c))
}

pub open spec fn notices_view(v: Seq<EdlNotice>) -> Seq<NoticeView> {
    v.map_values(|n: EdlNotice| notice_view(n))
}

spec fn scan_view_of(st: Scan) -> ScanView {
    ScanView {
        title: match st.title {
            Some(t) => Some(t@),
            None => None,
        },
        declared: st.declared,
        pending: cuts_view(st.pending@),
        notices: notices_view(st.notices@),
    }
}

fn ascii_digit(c: char) -> (b: bool)
    ensures
        b == is_ascii_digit(c),
{
    '0' <= c && c <= '9'
}

/// Changes the last cut read by `change`.
fn replace_last(pending: &mut Vec<ReadCut>, c: ReadCut)
    requires
        old(pending).len() > 0,
    ensures
        cuts_view(final(pending)@) == change_last(cuts_view(old(pending)@), cut_view(c)),
        final(pending).len() == old(pending).len(),
{
    let ghost before = pending@;
    pending.pop();
    pending.push(c);
    assert(cuts_view(pending@) =~= change_last(cuts_view(before), cut_view(c)));
}

/// Reads one line into what was read; `false` where the line cannot be read.
fn step_exec(st: &mut Scan, raw: &Vec<char>, tb: Timebase) -> (ok: bool)
    ensures
        ok == (step(scan_view_of(*old(st)), raw@, tb) is Some),
        ok ==> scan_view_of(*final(st)) == step(scan_view_of(*old(st)), raw@, tb)->0,
{
    let ghost before = scan_view_of(*st);
    let line = trimmed(raw);
    if line.len() == 0 {
        return true;
    }
    let up = upper_chars(&line);
    proof {
        reveal_strlit("TITLE:");
        reveal_strlit("FCM:");
        reveal_strlit("NON-DROP");
        reveal_strlit("DROP");
        reveal_strlit("M2");
    }
    if chars_start_with(&up, &to_chars("TITLE:")) {
        assert(up@.subrange(6, up.len() as int) =~= up@.skip(6));
        let n = bytes_from(&up, 6);
        match suffix_of_bytes(&line, n) {
            None => {
                return false;
            },
            Some(x) => {
                st.title = Some(text_of(&trimmed(&x)));
                return true;
            },
        }
    }
    if chars_start_with(&up, &to_chars("FCM:")) {
        let drop_frame = !chars_contain(&up, &to_chars("NON-DROP")) && chars_contain(&up, &to_chars("DROP"));
        st.declared = Some(drop_frame);
        return true;
    }
    if line[0] == '*' {
        if st.pending.len() == 0 {
            return true;
        }
        let rest = slice_of(&line, 1, line.len());
        assert(rest@ =~= line@.drop_first());
        let comment = trimmed(&rest);
        match read_comment(&comment) {
            CommentOutcome::Fails => {
                return false;
            },
            CommentOutcome::Nothing => {
                return true;
            },
            CommentOutcome::Name(n) => {
                let k = st.pending.len() - 1;
                let ghost last = cuts_view(st.pending@)[k as int];
                assert(last == cut_view(st.pending@[k as int]));
                let mut c = st.pending.pop().unwrap();
                c.name = text_of(&n);
                assert(cut_view(c) == with_name(last, n@));
                st.pending.push(c);
                proof {
                    let pv = cuts_view(st.pending@);
                    assert(pv =~= change_last(before.pending, with_name(last, n@)));
                }
                return true;
            },
            CommentOutcome::Percent(p) => {
                let k = st.pending.len() - 1;
                let ghost last = cuts_view(st.pending@)[k as int];
                assert(last == cut_view(st.pending@[k as int]));
                let mut c = st.pending.pop().unwrap();
                let ghost speeds = c.speeds@;
                c.speeds.push(SpeedText::Percent(text_of(&p)));
                assert(c.speeds@.map_values(|t: SpeedText| speed_view(t)) =~= speeds.map_values(
                    |t: SpeedText| speed_view(t),
                ).push(SpeedView::Percent(p@)));
                assert(cut_view(c) == with_speed(last, SpeedView::Percent(p@)));
                st.pending.push(c);
                proof {
                    let pv = cuts_view(st.pending@);
                    assert(pv =~= change_last(before.pending, with_speed(last, SpeedView::Percent(p@))));
                }
                return true;
            },
        }
    }
    if chars_start_with(&up, &to_chars("M2")) {
        if st.pending.len() == 0 {
            return true;
        }
        let w = split_words(&line);
        if w.len() <= 2 {
            return true;
        }
        assert(views_of(w@)[2] == w@[2]@);
        let k = st.pending.len() - 1;
        let ghost last = cuts_view(st.pending@)[k as int];
        assert(last == cut_view(st.pending@[k as int]));
        let mut c = st.pending.pop().unwrap();
        let ghost speeds = c.speeds@;
        c.speeds.push(SpeedText::Rate(text_of(&w[2])));
        assert(c.speeds@.map_values(|t: SpeedText| speed_view(t)) =~= speeds.map_values(
            |t: SpeedText| speed_view(t),
        ).push(SpeedView::Rate(w@[2]@)));
        assert(cut_view(c) == with_speed(last, SpeedView::Rate(w@[2]@)));
        let number = c.number;
        st.pending.push(c);
        let ghost nb = st.notices@;
        st.notices.push(EdlNotice::Rate(number, text_of(&w[2])));
        proof {
            let pv = cuts_view(st.pending@);
            assert(pv =~= change_last(before.pending, with_speed(last, SpeedView::Rate(w@[2]@))));
            assert(notices_view(st.notices@) =~= notices_view(nb).push(NoticeView::Rate(last.number, w@[2]@)));
        }
        return true;
    }
    match read_event(&line, tb) {
        EventOutcome::Fails => false,
        EventOutcome::Cut(c, kind) => {
            let number = c.number;
            let ghost pb = st.pending@;
            let ghost nb = st.notices@;
            let ghost cv = cut_view(c);
            st.pending.push(c);
            assert(cuts_view(st.pending@) =~= cuts_view(pb).push(cv));
            if kind != 'C' {
                st.notices.push(EdlNotice::Transition(number, kind));
                assert(notices_view(st.notices@) =~= notices_view(nb).push(NoticeView::Transition(cv.number, kind)));
            }
            true
        },
        EventOutcome::NotCut => {
            if ascii_digit(line[0]) {
                assert(line@.subrange(0, line.len() as int) =~= line@);
                let b = bytes_from(&line, 0);
                let n: usize = if b < 40 {
                    b as usize
                } else {
                    40
                };
                match prefix_of_bytes(&line, n) {
                    None => false,
                    Some(p) => {
                        let ghost nb = st.notices@;
                        st.notices.push(EdlNotice::Unreadable(text_of(&p)));
                        assert(notices_view(st.notices@) =~= notices_view(nb).push(NoticeView::Unreadable(p@)));
                        true
                    },
                }
            } else {
                true
            }
        },
    }
}

/// Once a line cannot be read, the list cannot be read.
proof fn lemma_scan_stops(lines: Seq<Seq<char>>, k: int, tb: Timebase)
    requires
        0 <= k <= lines.len(),
        scan(lines.take(k), tb) is None,
    ensures
        scan(lines, tb) is None,
    decreases lines.len() - k,
{
    if k < lines.len() {
        assert(lines.take(k + 1).drop_last() =~= lines.take(k));
        lemma_scan_stops(lines, k + 1, tb);
    } else {
        assert(lines.take(k) =~= lines);
    }
}

/// What the lines read give, as values.
fn finish_exec(st: Scan, tb: Timebase) -> (r: EdlRead)
    ensures
        read_view(r) == finish(scan_view_of(st), tb),
{
    let ghost sv = scan_view_of(st);
    let Scan { title, declared, pending, notices } = st;
    let mut pending = pending;
    let mut notices = notices;
    let mut timebase = tb;
    let changes = match declared {
        Some(d) => d != tb.drop_frame,
        None => false,
    };
    let mut applies = false;
    if changes {
        let d = match declared {
            Some(d) => d,
            None => false,
        };
        match Timebase::new(tb.numerator, tb.denominator, d) {
            Ok(adjusted) => {
                assert(adjusted == with_mode(tb, d));
                if !d || (adjusted.denominator == 1001 && (adjusted.numerator == 30000 || adjusted.numerator
                    == 60000)) {
                    applies = true;
                    timebase = adjusted;
                }
            },
            Err(_) => {},
        }
        if !applies {
            let ghost nb = notices@;
            notices.push(EdlNotice::FrameMode(d));
            assert(notices_view(notices@) =~= notices_view(nb).push(NoticeView::FrameMode(d)));
        }
    }
    assert(applies == (changes && mode_applies(tb, sv.declared->0)));
    let ghost pv = sv.pending;
    let ghost start = notices_view(notices@);
    let mut cuts: Vec<ReadCut> = Vec::new();
    let mut k: usize = 0;
    let n = pending.len();
    assert(pv.take(0) =~= Seq::<CutView>::empty());
    assert(lasting(pv.take(0)) =~= Seq::<CutView>::empty()) by {
        reveal_with_fuel(Seq::filter, 1);
    }
    assert(start + not_lasting(pv.take(0)) =~= start);
    while k < n
        invariant
            k <= n == pv.len(),
            pending.len() == n - k,
            cuts_view(pending@) == pv.skip(k as int),
            cuts_view(cuts@) == lasting(pv.take(k as int)),
            notices_view(notices@) == start + not_lasting(pv.take(k as int)),
        decreases n - k,
    {
        let ghost rest = pending@;
        let c = pending.remove(0);
        assert(cuts_view(rest)[0] == cut_view(c));
        assert(pv[k as int] == cut_view(c)) by {
            assert(pv.skip(k as int)[0] == pv[k as int]);
        }
        assert(cuts_view(pending@) =~= pv.skip(k + 1)) by {
            assert(pending@ =~= rest.subrange(1, rest.len() as int));
            assert(cuts_view(pending@) =~= cuts_view(rest).subrange(1, rest.len() as int));
            assert(pv.skip(k as int).subrange(1, rest.len() as int) =~= pv.skip(k + 1));
        }
        assert(pv.take(k + 1).drop_last() =~= pv.take(k as int));
        assert(pv.take(k + 1).last() == pv[k as int]);
        if c.duration <= 0 {
            let ghost nb = notices@;
            notices.push(EdlNotice::NotPositive(c.number));
            assert(notices_view(notices@) =~= notices_view(nb).push(NoticeView::NotPositive(pv[k as int].number)));
            assert(lasting(pv.take(k + 1)) =~= lasting(pv.take(k as int))) by {
                reveal_with_fuel(Seq::filter, 1);
            }
        } else {
            let ghost cb = cuts@;
            cuts.push(c);
            assert(cuts_view(cuts@) =~= cuts_view(cb).push(pv[k as int]));
            assert(lasting(pv.take(k + 1)) =~= lasting(pv.take(k as int)).push(pv[k as int])) by {
                reveal_with_fuel(Seq::filter, 1);
            }
        }
        k = k + 1;
    }
    assert(pv.take(n as int) =~= pv);
    let r = EdlRead { title, cuts, notices, timebase };
    assert(read_view(r).notices =~= finish(sv, tb).notices);
    r
}

/// Reads a list, or `None` where reading it would slice a line inside a
/// character or leave the range of `i64`.
fn try_read_edl(text: &str, tb: Timebase) -> (r: Option<EdlRead>)
    ensures
        match edl_read_of(text@, tb) {
            None => r is None,
            Some(v) => r matches Some(x) && read_view(x) == v,
        },
{
    let lines = list_lines(text);
    let ghost lv = views_of(lines@);
    let mut st = Scan { title: None, declared: None, pending: Vec::new(), notices: Vec::new() };
    assert(scan_view_of(st) == empty_scan()) by {
        assert(cuts_view(st.pending@) =~= Seq::<CutView>::empty());
        assert(notices_view(st.notices@) =~= Seq::<NoticeView>::empty());
    }
    assert(lv.take(0) =~= Seq::<Seq<char>>::empty());
    let mut i: usize = 0;
    while i < lines.len()
        invariant
            i <= lines.len(),
            lv == views_of(lines@),
            lv == raw_lines(text@),
            scan(lv.take(i as int), tb) == Some(scan_view_of(st)),
        decreases lines.len() - i,
    {
        assert(lv.take(i + 1).drop_last() =~= lv.take(i as int));
        assert(lv.take(i + 1).last() == lines@[i as int]@);
        let ok = step_exec(&mut st, &lines[i], tb);
        if !ok {
            proof {
                lemma_scan_stops(lv, i + 1, tb);
            }
            return None;
        }
        i = i + 1;
    }
    assert(lv.take(i as int) =~= lv);
    Some(finish_exec(st, tb))
}

/// Whether the list `text` can be read at the rate `tb`: reading it slices
/// no line inside a character and stays inside `i64`. `read_edl` asks it.
pub fn edl_readable(text: &str, tb: Timebase) -> (b: bool)
    ensures
        b == (edl_read_of(text@, tb) is Some),
{
    try_read_edl(text, tb).is_some()
}

/// Reads a CMX 3600 list at the rate `tb`. Lines are split at line feeds
/// (`\r\n` counts as one) and trimmed; blank ones are skipped. `TITLE:`
/// gives the title and `FCM:` the frame count mode (the prefixes in any
/// case); a comment (`*`) and an `M2` line belong to the last cut; a line of
/// at least eight words whose first is an event number and whose last four
/// are times is a cut. What the format cannot carry is noticed: transitions
/// read as cuts, lines that start with a digit and are no cut, rate lines
/// (a rate of zero freezes a cut), a frame count mode the rate cannot take,
/// and cuts that last no frame, which are left out.
pub fn read_edl(text: &str, tb: Timebase) -> (r: EdlRead)
    requires
        edl_read_of(text@, tb) is Some,
    ensures
        read_view(r) == edl_read_of(text@, tb)->0,
{
    match try_read_edl(text, tb) {
        Some(r) => r,
        None => {
            assert(false);
            EdlRead { title: None, cuts: Vec::new(), notices: Vec::new(), timebase: tb }
        },
    }
}

// ---------------------------------------------------------------------------
// What a written list reads back
// ---------------------------------------------------------------------------

/// ASCII text takes one byte a character.
proof fn lemma_ascii_bytes(s: Seq<char>)
    requires
        all_ascii(s),
    ensures
        utf8_bytes(s) == s.len(),
    decreases s.len(),
{
    if s.len() > 0 {
        assert((s[0] as u32) < 0x80);
        assert(all_ascii(s.drop_first())) by {
            assert forall|i: int| 0 <= i < s.drop_first().len() implies (#[trigger] s.drop_first()[i] as u32) < 0x80 by {
                assert(s.drop_first()[i] == s[i + 1]);
            }
        }
        lemma_ascii_bytes(s.drop_first());
    }
}

/// In ASCII text, the end that takes `n` bytes is the last `n` characters.
proof fn lemma_ascii_suffix(s: Seq<char>, k: int)
    requires
        all_ascii(s),
        0 <= k <= s.len(),
    ensures
        byte_suffix(s, (s.len() - k) as nat) == Some(s.skip(k)),
    decreases k,
{
    lemma_ascii_bytes(s);
    if k == 0 {
        assert(s.skip(0) =~= s);
    } else {
        let t = s.drop_first();
        assert(all_ascii(t)) by {
            assert forall|i: int| 0 <= i < t.len() implies (#[trigger] t[i] as u32) < 0x80 by {
                assert(t[i] == s[i + 1]);
            }
        }
        lemma_ascii_suffix(t, k - 1);
        assert(t.skip(k - 1) =~= s.skip(k));
    }
}

proof fn lemma_ascii_join(a: Seq<char>, b: Seq<char>)
    ensures
        all_ascii(a) && all_ascii(b) ==> all_ascii(a + b),
        ascii_upper(a + b) == ascii_upper(a) + ascii_upper(b),
{
    assert(ascii_upper(a + b) =~= ascii_upper(a) + ascii_upper(b));
    if all_ascii(a) && all_ascii(b) {
        assert forall|i: int| 0 <= i < (a + b).len() implies (#[trigger] (a + b)[i] as u32) < 0x80 by {
            if i < a.len() {
                assert((a + b)[i] == a[i]);
            } else {
                assert((a + b)[i] == b[i - a.len()]);
            }
        }
    }
}

/// Text with no small letter is its own uppercase.
proof fn lemma_ascii_upper_same(s: Seq<char>)
    requires
        forall|i: int| 0 <= i < s.len() ==> !('a' <= #[trigger] s[i] && s[i] <= 'z'),
    ensures
        ascii_upper(s) == s,
{
    assert(ascii_upper(s) =~= s);
}

/// What a written cut reads back as before its clip name and speed.
pub open spec fn bare_cut(n: nat, e: EventView, reel: Seq<char>) -> CutView {
    CutView {
        reel,
        name: reel,
        channel: e.channel,
        source_in: e.source_in as int,
        record_in: e.record_in as int,
        duration: e.duration as int,
        number: n as int,
        speeds: Seq::empty(),
    }
}

/// The name a written cut reads back with: its name trimmed, or its reel
/// when that is blank.
pub open spec fn written_name(e: EventView, reel: Seq<char>) -> Seq<char> {
    if trim(e.name).len() == 0 {
        reel
    } else {
        trim(e.name)
    }
}

/// What the `n`-th cut of a written list reads back as.
pub open spec fn cut_read_back(n: nat, e: EventView, reel: Seq<char>) -> CutView {
    CutView {
        reel,
        name: written_name(e, reel),
        channel: e.channel,
        source_in: e.source_in as int,
        record_in: e.record_in as int,
        duration: e.duration as int,
        number: n as int,
        speeds: match e.motion {
            Some((rate, percent)) => seq![SpeedView::Rate(rate), SpeedView::Percent(signed_decimal(percent as int))],
            None => Seq::empty(),
        },
    }
}

/// A blank line changes nothing.
proof fn lemma_step_blank(st: ScanView, tb: Timebase)
    ensures
        step(st, Seq::empty(), tb) == Some(st),
{
    assert(trim(Seq::<char>::empty()) =~= Seq::<char>::empty()) by {
        assert(crate::text::trim_start(Seq::<char>::empty()) == Seq::<char>::empty());
        assert(crate::text::trim_end(Seq::<char>::empty()) == Seq::<char>::empty());
    }
}

/// Text that starts and ends with characters that are not white space is
/// its own trim.
proof fn lemma_trim_same(s: Seq<char>)
    requires
        s.len() > 0,
        !crate::text::is_white_space(s[0]),
        !crate::text::is_white_space(s.last()),
    ensures
        trim(s) == s,
{
    assert(crate::text::trim_start(s) == s);
    assert(crate::text::trim_end(s) == s);
}

/// The frame count line reads as the mode it writes.
proof fn lemma_step_mode(st: ScanView, title: Seq<char>, tb: Timebase)
    ensures
        step(st, header_lines(title, tb)[1], tb) == Some(scan_with(st, st.title, Some(tb.drop_frame), st.pending, st.notices)),
{
    reveal_strlit("FCM: ");
    reveal_strlit("DROP FRAME");
    reveal_strlit("NON-DROP FRAME");
    reveal_strlit("TITLE:");
    reveal_strlit("FCM:");
    reveal_strlit("NON-DROP");
    reveal_strlit("DROP");
    let line = header_lines(title, tb)[1];
    let mode = if tb.drop_frame { "DROP FRAME"@ } else { "NON-DROP FRAME"@ };
    assert(line == "FCM: "@ + mode);
    lemma_trim_same(line);
    assert(all_ascii(line));
    lemma_ascii_upper_same(line);
    assert(upper(line) == line);
    assert(!starts_with(line, "TITLE:"@)) by {
        assert(line.subrange(0, 6)[0] != "TITLE:"@[0]);
    }
    assert(starts_with(line, "FCM:"@)) by {
        assert(line.subrange(0, 4) =~= "FCM:"@);
    }
    assert(contains_seq(line, "DROP"@)) by {
        if tb.drop_frame {
            assert(line.subrange(5, 5int + "DROP"@.len()) =~= "DROP"@);
        } else {
            assert(line.subrange(9, 9int + "DROP"@.len()) =~= "DROP"@);
        }
    }
    if tb.drop_frame {
        assert(!contains_seq(line, "NON-DROP"@)) by {
            if contains_seq(line, "NON-DROP"@) {
                let i = choose|i: int| 0 <= i <= line.len() - 8 && #[trigger] line.subrange(i, i + 8) == "NON-DROP"@;
                assert(line.subrange(i, i + 8)[0] == line[i]);
                assert(line[i] != 'N');
            }
        }
    } else {
        assert(contains_seq(line, "NON-DROP"@)) by {
            assert(line.subrange(5, 5int + "NON-DROP"@.len()) =~= "NON-DROP"@);
        }
    }
}

/// White space before text trims away.
proof fn lemma_trim_after_space(t: Seq<char>)
    ensures
        trim(seq![' '] + t) == trim(t),
{
    assert((seq![' '] + t).drop_first() =~= t);
    assert(crate::text::trim_start(seq![' '] + t) == crate::text::trim_start(t));
}

/// Trimming the end first changes nothing to the trim.
proof fn lemma_trim_of_trim_end(x: Seq<char>)
    ensures
        trim(crate::text::trim_end(x)) == trim(x),
{
    let (a, b) = crate::text::lemma_trim_shape(x);
    let k = crate::text::lemma_trim_end_shape(x);
    let y = x.subrange(0, k);
    let (c, d) = crate::text::lemma_trim_shape(y);
    if a < b {
        if k < b {
            assert(crate::text::is_white_space(x[b - 1]));
        }
        if k > b {
            assert(crate::text::is_white_space(x[k - 1]));
        }
        assert(k == b);
        if c == d {
            assert(crate::text::is_white_space(y[a])) by {
                if a < c {
                } else {
                }
            }
            assert(y[a] == x[a]);
        }
        assert(c < d);
        if c < a {
            assert(y[c] == x[c]);
        }
        if c > a {
            assert(y[a] == x[a]);
        }
        assert(c == a);
        if d < b {
            assert(y[b - 1] == x[b - 1]);
        }
        assert(d == b);
        assert(y.subrange(c, d) =~= x.subrange(a, b));
    } else {
        if c < d {
            assert(y[c] == x[c]);
            if c < a {
            } else {
                assert(crate::text::is_white_space(x[c]));
            }
        }
        assert(y.subrange(c, d) =~= x.subrange(a, b));
    }
}

/// Trimming the end of text after a character that is not white space
/// trims only what follows it.
proof fn lemma_trim_end_after(a: Seq<char>, b: Seq<char>)
    requires
        a.len() > 0,
        !crate::text::is_white_space(a.last()),
    ensures
        crate::text::trim_end(a + b) == a + crate::text::trim_end(b),
    decreases b.len(),
{
    if b.len() == 0 {
        assert(a + b =~= a);
        assert(crate::text::trim_end(a) == a);
        assert(a + Seq::<char>::empty() =~= a);
    } else if crate::text::is_white_space(b.last()) {
        assert((a + b).drop_last() =~= a + b.drop_last());
        lemma_trim_end_after(a, b.drop_last());
    } else {
        assert((a + b).last() == b.last());
    }
}

/// The uppercase of ASCII text is ASCII text of the same length.
proof fn lemma_ascii_upper_ascii(s: Seq<char>)
    requires
        all_ascii(s),
    ensures
        all_ascii(ascii_upper(s)),
        ascii_upper(s).len() == s.len(),
{
    assert forall|i: int| 0 <= i < ascii_upper(s).len() implies (#[trigger] ascii_upper(s)[i] as u32) < 0x80 by {
        assert(ascii_upper(s)[i] == ascii_upper_char(s[i]));
        assert((s[i] as u32) < 0x80);
    }
}

/// The title line reads as the title, trimmed.
proof fn lemma_step_title(st: ScanView, title: Seq<char>, tb: Timebase)
    requires
        all_ascii(title),
    ensures
        step(st, header_lines(title, tb)[0], tb) == Some(scan_with(st, Some(trim(title)), st.declared, st.pending, st.notices)),
{
    reveal_strlit("TITLE: ");
    reveal_strlit("TITLE:");
    let raw = header_lines(title, tb)[0];
    let p = "TITLE:"@;
    let u = seq![' '] + title;
    assert(raw =~= p + u);
    lemma_trim_end_after(p, u);
    assert(crate::text::trim_start(raw) == raw);
    let w = crate::text::trim_end(u);
    let line = p + w;
    assert(trim(raw) == line);
    let k = crate::text::lemma_trim_end_shape(u);
    assert(all_ascii(u)) by {
        assert forall|i: int| 0 <= i < u.len() implies (#[trigger] u[i] as u32) < 0x80 by {
            if i > 0 {
                assert(u[i] == title[i - 1]);
            }
        }
    }
    assert(all_ascii(w)) by {
        assert forall|i: int| 0 <= i < w.len() implies (#[trigger] w[i] as u32) < 0x80 by {
            assert(w[i] == u[i]);
        }
    }
    assert(all_ascii(p));
    lemma_ascii_join(p, w);
    lemma_ascii_upper_same(p);
    let up = upper(line);
    assert(up == p + ascii_upper(w));
    assert(starts_with(up, p)) by {
        assert(up.subrange(0, 6) =~= p);
    }
    assert(up.skip(6) =~= ascii_upper(w));
    lemma_ascii_upper_ascii(w);
    lemma_ascii_bytes(ascii_upper(w));
    lemma_ascii_suffix(line, 6);
    assert(line.skip(6) =~= w);
    assert(line.len() > 0);
    lemma_trim_of_trim_end(u);
    lemma_trim_after_space(title);
}

/// A character of a timecode: a digit, `:` or `;`.
pub open spec fn timecode_char(c: char) -> bool {
    is_ascii_digit(c) || c == ':' || c == ';'
}

/// A timecode is made of digits, `:` and `;`, and starts and ends with a
/// digit.
proof fn lemma_timecode_chars(tb: Timebase, x: int)
    ensures
        timecode_of(tb, x).len() > 0,
        is_ascii_digit(timecode_of(tb, x)[0]),
        is_ascii_digit(timecode_of(tb, x).last()),
        forall|i: int| 0 <= i < timecode_of(tb, x).len() ==> timecode_char(#[trigger] timecode_of(tb, x)[i]),
{
    lemma_timecode_of(tb, x);
    let fps = crate::timebase::nominal_fps_of(tb) as int;
    let label = label_of(tb, clamp_frame(x));
    let total_seconds = label / fps;
    let frame = label % fps;
    let hours = total_seconds / 3600;
    let minutes = (total_seconds / 60) % 60;
    let seconds = total_seconds % 60;
    let ph = crate::text::pad2(hours as nat);
    let pm = crate::text::pad2(minutes as nat);
    let ps = crate::text::pad2(seconds as nat);
    let pf = crate::text::pad2(frame as nat);
    crate::text::lemma_pad2(hours as nat);
    crate::text::lemma_pad2(minutes as nat);
    crate::text::lemma_pad2(seconds as nat);
    crate::text::lemma_pad2(frame as nat);
    let sep = if tb.drop_frame { ';' } else { ':' };
    let t = timecode_text(tb, x);
    assert(t == ph + seq![':'] + pm + seq![':'] + ps + seq![sep] + pf);
    assert(t[0] == ph[0]);
    assert(t.last() == pf[pf.len() - 1]);
    assert forall|i: int| 0 <= i < t.len() implies timecode_char(#[trigger] t[i]) by {
        let a = ph.len() as int;
        let b = a + 1 + pm.len();
        let c = b + 1 + ps.len();
        if i < a {
            assert(t[i] == ph[i]);
        } else if i == a {
        } else if i < b {
            assert(t[i] == pm[i - a - 1]);
        } else if i == b {
        } else if i < c {
            assert(t[i] == ps[i - b - 1]);
        } else if i == c {
        } else {
            assert(t[i] == pf[i - c - 1]);
        }
    }
}

/// A channel label is a capital and digits.
proof fn lemma_label_chars(c: Channel)
    ensures
        channel_label(c).len() > 0,
        forall|i: int|
            0 <= i < channel_label(c).len() ==> is_ascii_digit(#[trigger] channel_label(c)[i]) || ('A' <= channel_label(c)[i]
                && channel_label(c)[i] <= 'Z'),
{
    if let Channel::Audio(i) = c {
        let d = crate::text::decimal(if i < 1 { 1nat } else { i as nat });
        crate::text::lemma_decimal_digits(if i < 1 { 1nat } else { i as nat });
        assert forall|j: int| 0 <= j < channel_label(c).len() implies is_ascii_digit(#[trigger] channel_label(c)[j])
            || ('A' <= channel_label(c)[j] && channel_label(c)[j] <= 'Z') by {
            if j > 0 {
                assert(channel_label(c)[j] == d[j - 1]);
            }
        }
    }
}

pub open spec fn spaces(k: nat) -> Seq<char> {
    Seq::new(k, |_i: int| ' ')
}

/// A word: not empty, no white space.
pub open spec fn is_word(w: Seq<char>) -> bool {
    w.len() > 0 && forall|i: int| 0 <= i < w.len() ==> !crate::text::is_white_space(#[trigger] w[i])
}

/// White space only, and some.
pub open spec fn is_gap(g: Seq<char>) -> bool {
    g.len() > 0 && forall|i: int| 0 <= i < g.len() ==> crate::text::is_white_space(#[trigger] g[i])
}

proof fn lemma_gap_join(a: Seq<char>, b: Seq<char>)
    requires
        forall|i: int| 0 <= i < a.len() ==> crate::text::is_white_space(#[trigger] a[i]),
        is_gap(b),
    ensures
        is_gap(a + b),
{
    assert forall|i: int| 0 <= i < (a + b).len() implies crate::text::is_white_space(#[trigger] (a + b)[i]) by {
        if i < a.len() {
            assert((a + b)[i] == a[i]);
        } else {
            assert((a + b)[i] == b[i - a.len()]);
        }
    }
}

/// `s` padded on the right to `w`: `s`, then spaces.
proof fn lemma_left_aligned(s: Seq<char>, w: nat)
    ensures
        exists|k: nat| left_aligned(s, w) == s + spaces(k),
{
    if s.len() >= w {
        assert(s + spaces(0) =~= s);
    } else {
        assert(left_aligned(s, w) == s + spaces((w - s.len()) as nat));
    }
}

/// `s` padded on the left to `w`: spaces, then `s`.
proof fn lemma_right_aligned(s: Seq<char>, w: nat)
    ensures
        exists|k: nat| right_aligned(s, w) == spaces(k) + s,
{
    if s.len() >= w {
        assert(spaces(0) + s =~= s);
    } else {
        assert(right_aligned(s, w) == spaces((w - s.len()) as nat) + s);
    }
}

/// Words separated by gaps, and a last word, are those words.
proof fn lemma_words_of_row(ws: Seq<Seq<char>>, gs: Seq<Seq<char>>)
    requires
        ws.len() == gs.len() + 1,
        forall|i: int| 0 <= i < ws.len() ==> is_word(#[trigger] ws[i]),
        forall|i: int| 0 <= i < gs.len() ==> is_gap(#[trigger] gs[i]),
    ensures
        words(row(ws, gs)) == ws,
    decreases gs.len(),
{
    if gs.len() == 0 {
        assert(is_word(ws[0]));
        crate::text::lemma_words_word(ws[0]);
        assert(ws =~= seq![ws[0]]);
    } else {
        let w = ws[0];
        let g = gs[0];
        assert(is_word(w));
        assert(is_gap(g));
        let ws1 = ws.drop_first();
        let gs1 = gs.drop_first();
        assert forall|i: int| 0 <= i < ws1.len() implies is_word(#[trigger] ws1[i]) by {
            assert(ws1[i] == ws[i + 1]);
        }
        assert forall|i: int| 0 <= i < gs1.len() implies is_gap(#[trigger] gs1[i]) by {
            assert(gs1[i] == gs[i + 1]);
        }
        lemma_words_of_row(ws1, gs1);
        crate::text::lemma_words_word_then(w, g, row(ws1, gs1));
        assert(seq![w] + ws1 =~= ws);
    }
}

/// Words joined by gaps: `ws[0] gs[0] ws[1] ... ws[last]`.
pub open spec fn row(ws: Seq<Seq<char>>, gs: Seq<Seq<char>>) -> Seq<char>
    decreases gs.len(),
{
    if gs.len() == 0 || ws.len() == 0 {
        if ws.len() > 0 {
            ws[0]
        } else {
            Seq::empty()
        }
    } else {
        ws[0] + gs[0] + row(ws.drop_first(), gs.drop_first())
    }
}

/// A reel as written: ASCII letters and digits, at least one.
pub open spec fn plain_reel(reel: Seq<char>) -> bool {
    reel.len() > 0 && forall|i: int| 0 <= i < reel.len() ==> crate::edl::is_ascii_alphanumeric(#[trigger] reel[i])
}

/// The four times of a cut line.
pub open spec fn cut_times(e: EventView, tb: Timebase) -> Seq<Seq<char>> {
    seq![
        timecode_of(tb, e.source_in as int),
        timecode_of(tb, e.source_in + e.span),
        timecode_of(tb, e.record_in as int),
        timecode_of(tb, e.record_in + e.duration),
    ]
}

/// Eight words joined by seven gaps.
proof fn lemma_row_eight(ws: Seq<Seq<char>>, gs: Seq<Seq<char>>)
    requires
        ws.len() == 8,
        gs.len() == 7,
    ensures
        row(ws, gs) == ws[0] + gs[0] + ws[1] + gs[1] + ws[2] + gs[2] + ws[3] + gs[3] + ws[4] + gs[4] + ws[5] + gs[5]
            + ws[6] + gs[6] + ws[7],
{
    reveal_with_fuel(row, 8);
    let r7 = row(ws.skip(7), gs.skip(7));
    assert(ws.skip(7).len() == 1 && gs.skip(7).len() == 0);
    assert(r7 == ws[7]);
    assert(ws.drop_first() =~= ws.skip(1));
    assert(ws.skip(1).drop_first() =~= ws.skip(2));
    assert(ws.skip(2).drop_first() =~= ws.skip(3));
    assert(ws.skip(3).drop_first() =~= ws.skip(4));
    assert(ws.skip(4).drop_first() =~= ws.skip(5));
    assert(ws.skip(5).drop_first() =~= ws.skip(6));
    assert(ws.skip(6).drop_first() =~= ws.skip(7));
    assert(gs.drop_first() =~= gs.skip(1));
    assert(gs.skip(1).drop_first() =~= gs.skip(2));
    assert(gs.skip(2).drop_first() =~= gs.skip(3));
    assert(gs.skip(3).drop_first() =~= gs.skip(4));
    assert(gs.skip(4).drop_first() =~= gs.skip(5));
    assert(gs.skip(5).drop_first() =~= gs.skip(6));
    assert(gs.skip(6).drop_first() =~= gs.skip(7));
    let r6 = row(ws.skip(6), gs.skip(6));
    assert(r6 == ws[6] + gs[6] + r7);
    let r5 = row(ws.skip(5), gs.skip(5));
    assert(r5 == ws[5] + gs[5] + r6);
    let r4 = row(ws.skip(4), gs.skip(4));
    assert(r4 == ws[4] + gs[4] + r5);
    let r3 = row(ws.skip(3), gs.skip(3));
    assert(r3 == ws[3] + gs[3] + r4);
    let r2 = row(ws.skip(2), gs.skip(2));
    assert(r2 == ws[2] + gs[2] + r3);
    let r1 = row(ws.skip(1), gs.skip(1));
    assert(r1 == ws[1] + gs[1] + r2);
    assert(row(ws, gs) == ws[0] + gs[0] + r1);
    assert(row(ws, gs) =~= ws[0] + gs[0] + ws[1] + gs[1] + ws[2] + gs[2] + ws[3] + gs[3] + ws[4] + gs[4] + ws[5]
        + gs[5] + ws[6] + gs[6] + ws[7]);
}

/// The words of a cut line: number, reel, channel, kind, four times.
#[verifier::rlimit(40)]
proof fn lemma_cut_words(n: nat, e: EventView, reel: Seq<char>, tb: Timebase)
    requires
        plain_reel(reel),
    ensures
        words(cut_line(n, e, reel, tb)) == seq![crate::text::pad3(n), reel, channel_label(e.channel), seq!['C']]
            + cut_times(e, tb),
{
    reveal_strlit("  ");
    reveal_strlit("   ");
    reveal_strlit("  C      ");
    reveal_strlit(" ");
    let p3 = crate::text::pad3(n);
    let label = channel_label(e.channel);
    let t = cut_times(e, tb);
    lemma_left_aligned(reel, 7);
    let k1 = choose|k: nat| left_aligned(reel, 7) == reel + spaces(k);
    lemma_left_aligned(label, 3);
    let k2 = choose|k: nat| left_aligned(label, 3) == label + spaces(k);
    let ws = seq![p3, reel, label, seq!['C'], t[0], t[1], t[2], t[3]];
    let gs = seq!["  "@, spaces(k1) + "   "@, spaces(k2) + "  "@, spaces(6), " "@, " "@, " "@];
    assert forall|i: int| 0 <= i < ws.len() implies is_word(#[trigger] ws[i]) by {
        lemma_cut_word(n, e, reel, tb, i);
    }
    assert forall|i: int| 0 <= i < gs.len() implies is_gap(#[trigger] gs[i]) by {
        if i == 1 {
            lemma_gap_join(spaces(k1), "   "@);
        } else if i == 2 {
            lemma_gap_join(spaces(k2), "  "@);
        }
    }
    lemma_words_of_row(ws, gs);
    lemma_row_eight(ws, gs);
    assert(cut_line(n, e, reel, tb) =~= ws[0] + gs[0] + ws[1] + gs[1] + ws[2] + gs[2] + ws[3] + gs[3] + ws[4] + gs[4]
        + ws[5] + gs[5] + ws[6] + gs[6] + ws[7]);
    assert(ws =~= seq![p3, reel, label, seq!['C']] + t);
}

/// Each field of a cut line is a word.
proof fn lemma_cut_word(n: nat, e: EventView, reel: Seq<char>, tb: Timebase, i: int)
    requires
        plain_reel(reel),
        0 <= i < 8,
    ensures
        is_word((seq![crate::text::pad3(n), reel, channel_label(e.channel), seq!['C']] + cut_times(e, tb))[i]),
{
    let ws = seq![crate::text::pad3(n), reel, channel_label(e.channel), seq!['C']] + cut_times(e, tb);
    if i == 0 {
        let p3 = crate::text::pad3(n);
        crate::text::lemma_decimal_digits(n);
        if n < 1000 {
            crate::subtitles::lemma_pad3(n);
        }
        assert(p3.len() > 0 && forall|j: int| 0 <= j < p3.len() ==> is_ascii_digit(#[trigger] p3[j]));
        assert forall|j: int| 0 <= j < p3.len() implies !crate::text::is_white_space(#[trigger] p3[j]) by {
            assert(is_ascii_digit(p3[j]));
        }
        assert(ws[0] == p3);
    } else if i == 1 {
        assert forall|j: int| 0 <= j < reel.len() implies !crate::text::is_white_space(#[trigger] reel[j]) by {
            assert(crate::edl::is_ascii_alphanumeric(reel[j]));
        }
        assert(ws[1] == reel);
    } else if i == 2 {
        let label = channel_label(e.channel);
        lemma_label_chars(e.channel);
        assert forall|j: int| 0 <= j < label.len() implies !crate::text::is_white_space(#[trigger] label[j]) by {
            assert(is_ascii_digit(label[j]) || ('A' <= label[j] && label[j] <= 'Z'));
        }
        assert(ws[2] == label);
    } else if i == 3 {
        assert(ws[3] == seq!['C']);
    } else {
        let x = if i == 4 {
            e.source_in as int
        } else if i == 5 {
            e.source_in + e.span
        } else if i == 6 {
            e.record_in as int
        } else {
            e.record_in + e.duration
        };
        lemma_timecode_chars(tb, x);
        let tc = timecode_of(tb, x);
        assert(ws[i] == tc);
        assert forall|j: int| 0 <= j < tc.len() implies !crate::text::is_white_space(#[trigger] tc[j]) by {
            assert(timecode_char(tc[j]));
        }
    }
}

/// A time that can be written reads back as its frame (negative frames as
/// zero).
proof fn lemma_time_reads_back(tb: Timebase, x: int)
    requires
        writable(tb, x),
    ensures
        timecode_fits(tb, timecode_of(tb, x)),
        frames_from_timecode_spec(tb, timecode_of(tb, x)) == Some(clamp_frame(x)),
{
    lemma_timecode_of(tb, x);
    lemma_timecode_of(tb, clamp_frame(x));
    assert(timecode_text(tb, x) == timecode_text(tb, clamp_frame(x)));
    lemma_timecode_round_trip(tb, clamp_frame(x));
}

/// The four times of a written cut read back.
proof fn lemma_cut_times(e: EventView, tb: Timebase)
    requires
        event_fits(e, tb),
        e.source_in >= 0,
        e.record_in >= 0,
        e.duration > 0,
    ensures
        read_times(tb, cut_times(e, tb)) == Ok::<Option<Seq<int>>, ()>(
            Some(seq![e.source_in as int, clamp_frame(e.source_in + e.span), e.record_in as int, e.record_in + e.duration]),
        ),
{
    let t = cut_times(e, tb);
    lemma_time_reads_back(tb, e.source_in as int);
    lemma_time_reads_back(tb, e.source_in + e.span);
    lemma_time_reads_back(tb, e.record_in as int);
    lemma_time_reads_back(tb, e.record_in + e.duration);
    let t1 = t.drop_first();
    let t2 = t1.drop_first();
    let t3 = t2.drop_first();
    let t4 = t3.drop_first();
    assert(t4.len() == 0);
    assert(read_times(tb, t4) == Ok::<Option<Seq<int>>, ()>(Some(Seq::empty())));
    assert(t3[0] == t[3]);
    let v3 = e.record_in + e.duration;
    assert(read_times(tb, t3) == Ok::<Option<Seq<int>>, ()>(Some(seq![v3] + Seq::empty())));
    assert(t2[0] == t[2]);
    assert(read_times(tb, t2) == Ok::<Option<Seq<int>>, ()>(Some(seq![e.record_in as int] + (seq![v3] + Seq::empty()))));
    assert(t1[0] == t[1]);
    let v1 = clamp_frame(e.source_in + e.span);
    assert(read_times(tb, t1) == Ok::<Option<Seq<int>>, ()>(Some(seq![v1] + (seq![e.record_in as int] + (seq![v3] + Seq::empty())))));
    assert(read_times(tb, t) == Ok::<Option<Seq<int>>, ()>(Some(seq![e.source_in as int] + (seq![v1] + (seq![e.record_in as int] + (seq![v3] + Seq::empty()))))));
    assert(seq![e.source_in as int] + (seq![v1] + (seq![e.record_in as int] + (seq![v3] + Seq::empty()))) =~= seq![e.source_in as int, v1, e.record_in as int, v3]);
}

/// Every character of a row is one of its words' or gaps'.
proof fn lemma_row_chars(ws: Seq<Seq<char>>, gs: Seq<Seq<char>>, p: spec_fn(char) -> bool)
    requires
        ws.len() == gs.len() + 1,
        forall|i: int, j: int| 0 <= i < ws.len() && 0 <= j < ws[i].len() ==> p(#[trigger] ws[i][j]),
        forall|i: int, j: int| 0 <= i < gs.len() && 0 <= j < gs[i].len() ==> p(#[trigger] gs[i][j]),
    ensures
        forall|k: int| 0 <= k < row(ws, gs).len() ==> p(#[trigger] row(ws, gs)[k]),
    decreases gs.len(),
{
    if gs.len() == 0 {
        assert forall|k: int| 0 <= k < row(ws, gs).len() implies p(#[trigger] row(ws, gs)[k]) by {
            assert(row(ws, gs)[k] == ws[0][k]);
        }
    } else {
        let ws1 = ws.drop_first();
        let gs1 = gs.drop_first();
        assert forall|i: int, j: int| 0 <= i < ws1.len() && 0 <= j < ws1[i].len() implies p(#[trigger] ws1[i][j]) by {
            assert(ws1[i] == ws[i + 1]);
        }
        assert forall|i: int, j: int| 0 <= i < gs1.len() && 0 <= j < gs1[i].len() implies p(#[trigger] gs1[i][j]) by {
            assert(gs1[i] == gs[i + 1]);
        }
        lemma_row_chars(ws1, gs1, p);
        let r1 = row(ws1, gs1);
        let w = ws[0];
        let g = gs[0];
        assert(row(ws, gs) == w + g + r1);
        assert forall|k: int| 0 <= k < row(ws, gs).len() implies p(#[trigger] row(ws, gs)[k]) by {
            if k < w.len() {
                assert(row(ws, gs)[k] == w[k]);
            } else if k < w.len() + g.len() {
                assert(row(ws, gs)[k] == g[k - w.len()]);
            } else {
                assert(row(ws, gs)[k] == r1[k - w.len() - g.len()]);
            }
        }
    }
}

/// A cut line as a row of its words and gaps.
#[verifier::rlimit(60)]
proof fn lemma_cut_row(n: nat, e: EventView, reel: Seq<char>, tb: Timebase) -> (r: (Seq<Seq<char>>, Seq<Seq<char>>))
    requires
        plain_reel(reel),
    ensures
        r.0 == seq![crate::text::pad3(n), reel, channel_label(e.channel), seq!['C']] + cut_times(e, tb),
        r.1.len() == 7,
        forall|i: int, j: int| 0 <= i < r.1.len() && 0 <= j < r.1[i].len() ==> #[trigger] r.1[i][j] == ' ',
        cut_line(n, e, reel, tb) == row(r.0, r.1),
{
    reveal_strlit("  ");
    reveal_strlit("   ");
    reveal_strlit("  C      ");
    reveal_strlit(" ");
    let p3 = crate::text::pad3(n);
    let label = channel_label(e.channel);
    let t = cut_times(e, tb);
    lemma_left_aligned(reel, 7);
    let k1 = choose|k: nat| left_aligned(reel, 7) == reel + spaces(k);
    lemma_left_aligned(label, 3);
    let k2 = choose|k: nat| left_aligned(label, 3) == label + spaces(k);
    let ws = seq![p3, reel, label, seq!['C'], t[0], t[1], t[2], t[3]];
    let gs = seq!["  "@, spaces(k1) + "   "@, spaces(k2) + "  "@, spaces(6), " "@, " "@, " "@];
    lemma_row_eight(ws, gs);
    assert(cut_line(n, e, reel, tb) =~= ws[0] + gs[0] + ws[1] + gs[1] + ws[2] + gs[2] + ws[3] + gs[3] + ws[4] + gs[4]
        + ws[5] + gs[5] + ws[6] + gs[6] + ws[7]);
    assert(ws =~= seq![p3, reel, label, seq!['C']] + t);
    assert forall|i: int, j: int| 0 <= i < gs.len() && 0 <= j < gs[i].len() implies #[trigger] gs[i][j] == ' ' by {
        if i == 1 {
            if j < k1 {
                assert(gs[1][j] == spaces(k1)[j]);
            } else {
                assert(gs[1][j] == "   "@[j - k1]);
            }
        } else if i == 2 {
            if j < k2 {
                assert(gs[2][j] == spaces(k2)[j]);
            } else {
                assert(gs[2][j] == "  "@[j - k2]);
            }
        }
    }
    (ws, gs)
}

/// A cut line is ASCII and starts and ends with a digit.
proof fn lemma_cut_line_shape(n: nat, e: EventView, reel: Seq<char>, tb: Timebase)
    requires
        plain_reel(reel),
    ensures
        all_ascii(cut_line(n, e, reel, tb)),
        cut_line(n, e, reel, tb).len() > 0,
        is_ascii_digit(cut_line(n, e, reel, tb)[0]),
        is_ascii_digit(cut_line(n, e, reel, tb).last()),
{
    let (ws, gs) = lemma_cut_row(n, e, reel, tb);
    let line = cut_line(n, e, reel, tb);
    let p = |c: char| (c as u32) < 0x80;
    assert forall|i: int, j: int| 0 <= i < ws.len() && 0 <= j < ws[i].len() implies p(#[trigger] ws[i][j]) by {
        lemma_cut_word(n, e, reel, tb, i);
        if i == 0 {
            crate::text::lemma_decimal_digits(n);
            if n < 1000 {
                crate::subtitles::lemma_pad3(n);
            }
            assert(is_ascii_digit(ws[0][j]));
        } else if i == 1 {
            assert(crate::edl::is_ascii_alphanumeric(reel[j]));
        } else if i == 2 {
            lemma_label_chars(e.channel);
            assert(is_ascii_digit(ws[2][j]) || ('A' <= ws[2][j] && ws[2][j] <= 'Z'));
        } else if i == 3 {
        } else {
            let x = if i == 4 {
                e.source_in as int
            } else if i == 5 {
                e.source_in + e.span
            } else if i == 6 {
                e.record_in as int
            } else {
                e.record_in + e.duration
            };
            lemma_timecode_chars(tb, x);
            assert(ws[i] == timecode_of(tb, x));
            assert(timecode_char(ws[i][j]));
        }
    }
    assert forall|i: int, j: int| 0 <= i < gs.len() && 0 <= j < gs[i].len() implies p(#[trigger] gs[i][j]) by {
        assert(gs[i][j] == ' ');
    }
    lemma_row_chars(ws, gs, p);
    assert forall|i: int| 0 <= i < line.len() implies (#[trigger] line[i] as u32) < 0x80 by {
        assert(p(row(ws, gs)[i]));
    }
    lemma_row_eight(ws, gs);
    let p3 = crate::text::pad3(n);
    crate::text::lemma_decimal_digits(n);
    if n < 1000 {
        crate::subtitles::lemma_pad3(n);
    }
    assert(p3.len() > 0 && is_ascii_digit(p3[0]));
    assert(line[0] == ws[0][0]);
    lemma_timecode_chars(tb, e.record_in + e.duration);
    assert(ws[7] == timecode_of(tb, e.record_in + e.duration));
    assert(line.last() == ws[7].last());
}

/// An event number written with at least three digits reads back.
proof fn lemma_parse_number(n: nat)
    requires
        1 <= n <= 0x7fff_ffff,
    ensures
        parse_i32(crate::text::pad3(n)) == Some(n as int),
{
    let p3 = crate::text::pad3(n);
    crate::text::lemma_decimal_digits(n);
    if n < 1000 {
        crate::subtitles::lemma_pad3(n);
    }
    assert(all_digits(p3) && crate::text::digits_value(p3) == n && p3.len() > 0);
    assert(is_ascii_digit(p3[0]));
    assert(p3[0] != '-' && p3[0] != '+');
}

/// A cut line reads as its cut, with its reel for a name and no speed yet.
#[verifier::rlimit(40)]
proof fn lemma_step_cut(st: ScanView, n: nat, e: EventView, reel: Seq<char>, tb: Timebase)
    requires
        plain_reel(reel),
        1 <= n <= 0x7fff_ffff,
        representable(e.channel),
        event_fits(e, tb),
        e.source_in >= 0,
        e.record_in >= 0,
        e.duration > 0,
    ensures
        step(st, cut_line(n, e, reel, tb), tb) == Some(
            scan_with(st, st.title, st.declared, st.pending.push(bare_cut(n, e, reel)), st.notices),
        ),
{
    reveal_strlit("TITLE:");
    reveal_strlit("FCM:");
    reveal_strlit("M2");
    let line = cut_line(n, e, reel, tb);
    lemma_cut_line_shape(n, e, reel, tb);
    lemma_trim_same(line);
    let up = upper(line);
    assert(up == ascii_upper(line));
    assert(up[0] == ascii_upper_char(line[0]));
    assert(up[0] == line[0]);
    assert(!starts_with(up, "TITLE:"@)) by {
        if starts_with(up, "TITLE:"@) {
            assert(up.subrange(0, 6)[0] == up[0]);
        }
    }
    assert(!starts_with(up, "FCM:"@)) by {
        if starts_with(up, "FCM:"@) {
            assert(up.subrange(0, 4)[0] == up[0]);
        }
    }
    assert(!starts_with(up, "M2"@)) by {
        if starts_with(up, "M2"@) {
            assert(up.subrange(0, 2)[0] == up[0]);
        }
    }
    assert(line[0] != '*');
    let label = channel_label(e.channel);
    let f = words(line);
    lemma_cut_words(n, e, reel, tb);
    assert(f.len() == 8);
    assert(f[0] == crate::text::pad3(n));
    lemma_parse_number(n);
    assert(f.subrange(f.len() - 4, f.len() as int) =~= cut_times(e, tb));
    lemma_cut_times(e, tb);
    assert(f[3] == seq!['C']);
    assert(all_ascii(seq!['C']));
    assert(ascii_upper(seq!['C']) =~= seq!['C']);
    assert(f[2] == label);
    lemma_label_chars(e.channel);
    assert(all_ascii(label));
    lemma_ascii_upper_same(label);
    lemma_channel_round_trip(e.channel);
    assert(f[1] == reel);
    let t = seq![e.source_in as int, clamp_frame(e.source_in + e.span), e.record_in as int, e.record_in + e.duration];
    assert(event_read(line, tb) == EventRead::Cut(bare_cut(n, e, reel), 'C'));
}

/// A clip name as it is written: ASCII, on one line.
pub open spec fn plain_name(name: Seq<char>) -> bool {
    all_ascii(name) && !name.contains('\n') && !name.contains('\r')
}

/// The written name is ASCII text that starts and ends with a character
/// that is not white space.
proof fn lemma_written_name(e: EventView, reel: Seq<char>)
    requires
        plain_reel(reel),
        all_ascii(e.name),
    ensures
        written_name(e, reel).len() > 0,
        all_ascii(written_name(e, reel)),
        !crate::text::is_white_space(written_name(e, reel)[0]),
        !crate::text::is_white_space(written_name(e, reel).last()),
{
    let nm = written_name(e, reel);
    if trim(e.name).len() == 0 {
        assert(crate::edl::is_ascii_alphanumeric(reel[0]));
        assert(crate::edl::is_ascii_alphanumeric(reel[reel.len() - 1]));
        assert(all_ascii(reel)) by {
            assert forall|i: int| 0 <= i < reel.len() implies (#[trigger] reel[i] as u32) < 0x80 by {
                assert(crate::edl::is_ascii_alphanumeric(reel[i]));
            }
        }
    } else {
        crate::text::lemma_trim_ends(e.name);
        let (a, b) = crate::text::lemma_trim_shape(e.name);
        assert forall|i: int| 0 <= i < nm.len() implies (#[trigger] nm[i] as u32) < 0x80 by {
            assert(nm[i] == e.name[a + i]);
        }
    }
}

/// `p` then text: trimming away the first character of a line that is
/// `c`, then `rest` (which starts and ends with characters that are not
/// white space) leaves `rest`.
proof fn lemma_comment_of(c: char, rest: Seq<char>)
    requires
        rest.len() > 0,
        !crate::text::is_white_space(rest[0]),
        !crate::text::is_white_space(rest.last()),
    ensures
        trim((seq![c] + (seq![' '] + rest)).drop_first()) == rest,
{
    assert((seq![c] + (seq![' '] + rest)).drop_first() =~= seq![' '] + rest);
    lemma_trim_after_space(rest);
    lemma_trim_same(rest);
}

/// A clip name line names the last cut read.
#[verifier::rlimit(40)]
proof fn lemma_step_name(st: ScanView, e: EventView, reel: Seq<char>, tb: Timebase)
    requires
        plain_reel(reel),
        all_ascii(e.name),
        st.pending.len() > 0,
    ensures
        step(st, name_line(e, reel), tb) == Some(
            scan_with(st, st.title, st.declared, change_last(st.pending, with_name(st.pending.last(), written_name(e, reel))), st.notices),
        ),
{
    reveal_strlit("* FROM CLIP NAME: ");
    reveal_strlit("FROM CLIP NAME:");
    reveal_strlit("TITLE:");
    reveal_strlit("FCM:");
    let nm = written_name(e, reel);
    lemma_written_name(e, reel);
    let head = "FROM CLIP NAME:"@;
    let comment = head + (seq![' '] + nm);
    let line = name_line(e, reel);
    assert(line =~= seq!['*'] + (seq![' '] + comment));
    assert(line.last() == nm.last());
    lemma_trim_same(line);
    assert(all_ascii(seq!['*'] + (seq![' '] + head) + seq![' '])) by {
        lemma_ascii_join(seq!['*'], seq![' '] + head);
    }
    assert(all_ascii(line)) by {
        lemma_ascii_join(seq!['*', ' '] + head + seq![' '], nm);
        assert(line =~= seq!['*', ' '] + head + seq![' '] + nm);
    }
    let up = upper(line);
    assert(up[0] == ascii_upper_char(line[0]));
    assert(!starts_with(up, "TITLE:"@)) by {
        if starts_with(up, "TITLE:"@) {
            assert(up.subrange(0, 6)[0] == up[0]);
        }
    }
    assert(!starts_with(up, "FCM:"@)) by {
        if starts_with(up, "FCM:"@) {
            assert(up.subrange(0, 4)[0] == up[0]);
        }
    }
    assert(comment.last() == nm.last());
    lemma_comment_of('*', comment);
    assert(trim(line.drop_first()) == comment);
    assert(all_ascii(comment)) by {
        lemma_ascii_join(head + seq![' '], nm);
        assert(comment =~= head + seq![' '] + nm);
    }
    let cu = upper(comment);
    lemma_ascii_join(head + seq![' '], nm);
    lemma_ascii_upper_same(head + seq![' ']);
    assert(cu == (head + seq![' ']) + ascii_upper(nm)) by {
        assert(comment =~= head + seq![' '] + nm);
    }
    assert(starts_with(cu, head)) by {
        assert(cu.subrange(0, 15) =~= head);
    }
    assert(cu.skip(15) =~= seq![' '] + ascii_upper(nm));
    lemma_ascii_upper_ascii(nm);
    lemma_ascii_join(seq![' '], ascii_upper(nm));
    lemma_ascii_bytes(cu.skip(15));
    lemma_ascii_suffix(comment, 15);
    assert(comment.skip(15) =~= seq![' '] + nm);
    lemma_trim_after_space(nm);
    lemma_trim_same(nm);
    assert(comment_read(comment) == CommentRead::Name(nm));
}

/// Four words joined by three gaps.
proof fn lemma_row_four(ws: Seq<Seq<char>>, gs: Seq<Seq<char>>)
    requires
        ws.len() == 4,
        gs.len() == 3,
    ensures
        row(ws, gs) == ws[0] + gs[0] + ws[1] + gs[1] + ws[2] + gs[2] + ws[3],
{
    reveal_with_fuel(row, 4);
    assert(ws.drop_first().drop_first().drop_first() =~= seq![ws[3]]);
    assert(gs.drop_first().drop_first().drop_first() =~= Seq::<Seq<char>>::empty());
    assert(row(ws, gs) =~= ws[0] + gs[0] + ws[1] + gs[1] + ws[2] + gs[2] + ws[3]);
}

/// A rate as written: an ASCII word.
pub open spec fn plain_rate(rate: Seq<char>) -> bool {
    is_word(rate) && all_ascii(rate)
}

/// A rate line gives the last cut read its rate, and is noticed.
#[verifier::rlimit(60)]
proof fn lemma_step_rate(st: ScanView, e: EventView, reel: Seq<char>, rate: Seq<char>, tb: Timebase)
    requires
        plain_reel(reel),
        plain_rate(rate),
        st.pending.len() > 0,
    ensures
        step(st, rate_line(e, reel, rate, tb), tb) == Some(
            scan_with(
                st,
                st.title,
                st.declared,
                change_last(st.pending, with_speed(st.pending.last(), SpeedView::Rate(rate))),
                st.notices.push(NoticeView::Rate(st.pending.last().number, rate)),
            ),
        ),
{
    reveal_strlit("M2   ");
    reveal_strlit(" ");
    reveal_strlit("    ");
    reveal_strlit("TITLE:");
    reveal_strlit("FCM:");
    reveal_strlit("M2");
    let tc = timecode_of(tb, e.source_in as int);
    lemma_timecode_chars(tb, e.source_in as int);
    lemma_left_aligned(reel, 7);
    let k1 = choose|k: nat| left_aligned(reel, 7) == reel + spaces(k);
    lemma_right_aligned(rate, 9);
    let k3 = choose|k: nat| right_aligned(rate, 9) == spaces(k) + rate;
    let ws = seq![seq!['M', '2'], reel, rate, tc];
    let gs = seq![seq![' ', ' ', ' '], spaces(k1) + seq![' '] + spaces(k3), seq![' ', ' ', ' ', ' ']];
    let line = rate_line(e, reel, rate, tb);
    lemma_row_four(ws, gs);
    assert(line =~= ws[0] + gs[0] + ws[1] + gs[1] + ws[2] + gs[2] + ws[3]);
    assert forall|i: int, j: int| 0 <= i < gs.len() && 0 <= j < gs[i].len() implies #[trigger] gs[i][j] == ' ' by {
        if i == 1 {
            if j < k1 {
                assert(gs[1][j] == spaces(k1)[j]);
            } else if j == k1 {
            } else {
                assert(gs[1][j] == spaces(k3)[j - k1 - 1]);
            }
        }
    }
    assert forall|i: int| 0 <= i < ws.len() implies is_word(#[trigger] ws[i]) by {
        if i == 1 {
            assert forall|j: int| 0 <= j < reel.len() implies !crate::text::is_white_space(#[trigger] reel[j]) by {
                assert(crate::edl::is_ascii_alphanumeric(reel[j]));
            }
        } else if i == 3 {
            assert forall|j: int| 0 <= j < tc.len() implies !crate::text::is_white_space(#[trigger] tc[j]) by {
                assert(timecode_char(tc[j]));
            }
        }
    }
    assert forall|i: int| 0 <= i < gs.len() implies is_gap(#[trigger] gs[i]) by {
        assert(gs[i].len() > 0) by {
            if i == 1 {
                assert(gs[1].len() == k1 + 1 + k3);
            }
        }
        assert forall|j: int| 0 <= j < gs[i].len() implies crate::text::is_white_space(#[trigger] gs[i][j]) by {
            assert(gs[i][j] == ' ');
        }
    }
    lemma_words_of_row(ws, gs);
    let p = |c: char| (c as u32) < 0x80;
    assert forall|i: int, j: int| 0 <= i < ws.len() && 0 <= j < ws[i].len() implies p(#[trigger] ws[i][j]) by {
        if i == 1 {
            assert(crate::edl::is_ascii_alphanumeric(reel[j]));
        } else if i == 2 {
            assert((rate[j] as u32) < 0x80);
        } else if i == 3 {
            assert(timecode_char(tc[j]));
        }
    }
    assert forall|i: int, j: int| 0 <= i < gs.len() && 0 <= j < gs[i].len() implies p(#[trigger] gs[i][j]) by {
        assert(gs[i][j] == ' ');
    }
    lemma_row_chars(ws, gs, p);
    assert(all_ascii(line)) by {
        assert forall|i: int| 0 <= i < line.len() implies (#[trigger] line[i] as u32) < 0x80 by {
            assert(p(row(ws, gs)[i]));
        }
    }
    assert(line[0] == 'M');
    assert(line.last() == tc.last());
    lemma_trim_same(line);
    let up = upper(line);
    assert(up[0] == ascii_upper_char(line[0]));
    assert(up[1] == ascii_upper_char(line[1]));
    assert(line[1] == '2');
    assert(!starts_with(up, "TITLE:"@)) by {
        if starts_with(up, "TITLE:"@) {
            assert(up.subrange(0, 6)[0] == up[0]);
        }
    }
    assert(!starts_with(up, "FCM:"@)) by {
        if starts_with(up, "FCM:"@) {
            assert(up.subrange(0, 4)[0] == up[0]);
        }
    }
    assert(starts_with(up, "M2"@)) by {
        assert(up.subrange(0, 2) =~= "M2"@);
    }
    assert(words(line) == ws);
}

/// A percent comment gives the last cut read its speed in percent.
#[verifier::rlimit(40)]
proof fn lemma_step_percent(st: ScanView, percent: i64, tb: Timebase)
    requires
        st.pending.len() > 0,
    ensures
        step(st, percent_line(percent), tb) == Some(
            scan_with(
                st,
                st.title,
                st.declared,
                change_last(st.pending, with_speed(st.pending.last(), SpeedView::Percent(signed_decimal(percent as int)))),
                st.notices,
            ),
        ),
{
    reveal_strlit("* SPEED CHANGE RATE: ");
    reveal_strlit("FROM CLIP NAME:");
    reveal_strlit("SPEED CHANGE RATE:");
    reveal_strlit("TITLE:");
    reveal_strlit("FCM:");
    let sd = signed_decimal(percent as int);
    let d = crate::text::decimal(if percent < 0 { (-percent) as nat } else { percent as nat });
    crate::text::lemma_decimal_digits(if percent < 0 { (-percent) as nat } else { percent as nat });
    assert(sd.len() > 0 && sd.last() == d.last());
    assert(is_ascii_digit(d.last())) by {
        assert(d.last() == d[d.len() - 1]);
    }
    assert(sd[0] == '-' || is_ascii_digit(sd[0]));
    assert forall|i: int| 0 <= i < sd.len() implies (#[trigger] sd[i] == '-' || is_ascii_digit(sd[i])) by {
        if percent < 0 && i > 0 {
            assert(sd[i] == d[i - 1]);
        }
    }
    let head = "SPEED CHANGE RATE:"@;
    let comment = head + (seq![' '] + sd);
    let line = percent_line(percent);
    assert(line =~= seq!['*'] + (seq![' '] + comment));
    lemma_trim_same(line);
    assert(all_ascii(line));
    lemma_ascii_upper_same(line);
    let up = upper(line);
    assert(up == line);
    assert(!starts_with(up, "TITLE:"@)) by {
        if starts_with(up, "TITLE:"@) {
            assert(up.subrange(0, 6)[0] == up[0]);
        }
    }
    assert(!starts_with(up, "FCM:"@)) by {
        if starts_with(up, "FCM:"@) {
            assert(up.subrange(0, 4)[0] == up[0]);
        }
    }
    lemma_comment_of('*', comment);
    assert(all_ascii(comment));
    lemma_ascii_upper_same(comment);
    assert(upper(comment) == comment);
    assert(!starts_with(comment, "FROM CLIP NAME:"@)) by {
        if starts_with(comment, "FROM CLIP NAME:"@) {
            assert(comment.subrange(0, 15)[0] == comment[0]);
        }
    }
    assert(starts_with(comment, head)) by {
        assert(comment.subrange(0, 18) =~= head);
    }
    assert(comment.skip(18) =~= seq![' '] + sd);
    lemma_trim_after_space(sd);
    lemma_trim_same(sd);
    assert(without_percents(sd) == sd);
    assert(comment_read(comment) == CommentRead::Percent(sd));
}

// ---------------------------------------------------------------------------
// A written list, read back
// ---------------------------------------------------------------------------

/// Text with no line feed and no carriage return.
pub open spec fn one_line(s: Seq<char>) -> bool {
    forall|i: int| 0 <= i < s.len() ==> #[trigger] s[i] != '\n' && s[i] != '\r'
}

proof fn lemma_one_line_join(a: Seq<char>, b: Seq<char>)
    requires
        one_line(a),
        one_line(b),
    ensures
        one_line(a + b),
{
    assert forall|i: int| 0 <= i < (a + b).len() implies #[trigger] (a + b)[i] != '\n' && (a + b)[i] != '\r' by {
        if i < a.len() {
            assert((a + b)[i] == a[i]);
        } else {
            assert((a + b)[i] == b[i - a.len()]);
        }
    }
}

/// Lines, each ended by a line feed, split at the line feeds into those
/// lines and an empty piece after the last.
proof fn lemma_split_lines(lines: Seq<Seq<char>>)
    requires
        forall|i: int| 0 <= i < lines.len() ==> one_line(#[trigger] lines[i]),
    ensures
        split_by(lines_text(lines), char_separator('\n')) == lines.push(Seq::<char>::empty()),
    decreases lines.len(),
{
    let sep = char_separator('\n');
    if lines.len() == 0 {
        assert(lines.push(Seq::<char>::empty()) =~= seq![Seq::<char>::empty()]);
    } else {
        let p = lines.drop_last();
        let l = lines.last();
        assert forall|i: int| 0 <= i < p.len() implies one_line(#[trigger] p[i]) by {
            assert(p[i] == lines[i]);
        }
        lemma_split_lines(p);
        let tp = lines_text(p);
        assert(one_line(l)) by {
            assert(l == lines[lines.len() - 1]);
        }
        assert forall|i: int| 0 <= i < l.len() implies !sep(#[trigger] l[i]) by {}
        crate::text::lemma_split_by_append_plain(tp, l, sep);
        crate::text::lemma_split_by_append_sep(tp + l, '\n', sep);
        assert(lines_text(lines) =~= (tp + l).push('\n'));
        let e = Seq::<char>::empty();
        assert(p.push(e).update(p.len() as int, e + l) =~= lines);
    }
}

/// Text with no carriage return keeps its line feeds as they are.
proof fn lemma_crlf_none(s: Seq<char>)
    requires
        forall|i: int| 0 <= i < s.len() ==> #[trigger] s[i] != '\r',
    ensures
        crlf_as_lf(s) == s,
    decreases s.len(),
{
    if s.len() > 0 {
        let t = s.drop_first();
        assert forall|i: int| 0 <= i < t.len() implies #[trigger] t[i] != '\r' by {
            assert(t[i] == s[i + 1]);
        }
        lemma_crlf_none(t);
        assert(seq![s[0]] + t =~= s);
    }
}

/// Lines with no carriage return make a text with none.
proof fn lemma_lines_text_no_cr(lines: Seq<Seq<char>>)
    requires
        forall|i: int| 0 <= i < lines.len() ==> one_line(#[trigger] lines[i]),
    ensures
        forall|k: int| 0 <= k < lines_text(lines).len() ==> #[trigger] lines_text(lines)[k] != '\r',
    decreases lines.len(),
{
    if lines.len() > 0 {
        let p = lines.drop_last();
        let l = lines.last();
        assert forall|i: int| 0 <= i < p.len() implies one_line(#[trigger] p[i]) by {
            assert(p[i] == lines[i]);
        }
        lemma_lines_text_no_cr(p);
        assert(one_line(l)) by {
            assert(l == lines[lines.len() - 1]);
        }
        let tp = lines_text(p);
        let t = lines_text(lines);
        assert(t == tp + l + seq!['\n']);
        assert forall|k: int| 0 <= k < t.len() implies #[trigger] t[k] != '\r' by {
            if k < tp.len() {
                assert(t[k] == tp[k]);
            } else if k < tp.len() + l.len() {
                assert(t[k] == l[k - tp.len()]);
            } else {
                assert(t[k] == '\n');
            }
        }
    }
}

/// The lines of a written list are the lines written, and an empty one.
proof fn lemma_raw_lines_of(lines: Seq<Seq<char>>)
    requires
        forall|i: int| 0 <= i < lines.len() ==> one_line(#[trigger] lines[i]),
    ensures
        raw_lines(lines_text(lines)) == lines.push(Seq::<char>::empty()),
{
    lemma_lines_text_no_cr(lines);
    lemma_crlf_none(lines_text(lines));
    lemma_split_lines(lines);
}

/// The header is three lines, none holding a line break.
proof fn lemma_header_one_line(title: Seq<char>, tb: Timebase)
    requires
        one_line(title),
    ensures
        forall|i: int| 0 <= i < header_lines(title, tb).len() ==> one_line(#[trigger] header_lines(title, tb)[i]),
{
    reveal_strlit("TITLE: ");
    reveal_strlit("FCM: ");
    reveal_strlit("DROP FRAME");
    reveal_strlit("NON-DROP FRAME");
    assert(one_line("TITLE: "@));
    assert(one_line("FCM: "@));
    assert(one_line("DROP FRAME"@));
    assert(one_line("NON-DROP FRAME"@));
    lemma_one_line_join("TITLE: "@, title);
    lemma_one_line_join("FCM: "@, "DROP FRAME"@);
    lemma_one_line_join("FCM: "@, "NON-DROP FRAME"@);
    assert(one_line(Seq::<char>::empty()));
}

/// A word holds no line break.
proof fn lemma_word_one_line(w: Seq<char>)
    requires
        forall|i: int| 0 <= i < w.len() ==> !crate::text::is_white_space(#[trigger] w[i]),
    ensures
        one_line(w),
{
    assert forall|i: int| 0 <= i < w.len() implies #[trigger] w[i] != '\n' && w[i] != '\r' by {
        assert(!crate::text::is_white_space(w[i]));
    }
}

/// Spaces hold no line break.
proof fn lemma_spaces_one_line(k: nat)
    ensures
        one_line(spaces(k)),
{
    assert forall|i: int| 0 <= i < spaces(k).len() implies #[trigger] spaces(k)[i] != '\n' && spaces(k)[i] != '\r' by {
        assert(spaces(k)[i] == ' ');
    }
}

/// A cut line holds no line break.
proof fn lemma_cut_line_one_line(n: nat, e: EventView, reel: Seq<char>, tb: Timebase)
    requires
        plain_reel(reel),
    ensures
        one_line(cut_line(n, e, reel, tb)),
{
    let (ws, gs) = lemma_cut_row(n, e, reel, tb);
    let p = |c: char| c != '\n' && c != '\r';
    assert forall|i: int, j: int| 0 <= i < ws.len() && 0 <= j < ws[i].len() implies p(#[trigger] ws[i][j]) by {
        lemma_cut_word(n, e, reel, tb, i);
        assert(is_word(ws[i]));
        assert(!crate::text::is_white_space(ws[i][j]));
    }
    assert forall|i: int, j: int| 0 <= i < gs.len() && 0 <= j < gs[i].len() implies p(#[trigger] gs[i][j]) by {
        assert(gs[i][j] == ' ');
    }
    lemma_row_chars(ws, gs, p);
    let line = cut_line(n, e, reel, tb);
    assert forall|i: int| 0 <= i < line.len() implies #[trigger] line[i] != '\n' && line[i] != '\r' by {
        assert(p(row(ws, gs)[i]));
    }
}

/// A reel holds no line break.
proof fn lemma_reel_one_line(reel: Seq<char>)
    requires
        plain_reel(reel),
    ensures
        one_line(reel),
{
    assert forall|i: int| 0 <= i < reel.len() implies #[trigger] reel[i] != '\n' && reel[i] != '\r' by {
        assert(crate::edl::is_ascii_alphanumeric(reel[i]));
    }
}

/// A clip name line holds no line break.
proof fn lemma_name_line_one_line(e: EventView, reel: Seq<char>)
    requires
        plain_reel(reel),
        plain_name(e.name),
    ensures
        one_line(name_line(e, reel)),
{
    reveal_strlit("* FROM CLIP NAME: ");
    assert(one_line("* FROM CLIP NAME: "@));
    let nm = written_name(e, reel);
    if trim(e.name).len() == 0 {
        lemma_reel_one_line(reel);
    } else {
        let (a, b) = crate::text::lemma_trim_shape(e.name);
        assert forall|i: int| 0 <= i < nm.len() implies #[trigger] nm[i] != '\n' && nm[i] != '\r' by {
            assert(nm[i] == e.name[a + i]);
            assert(!e.name.contains('\n'));
            assert(!e.name.contains('\r'));
        }
    }
    lemma_one_line_join("* FROM CLIP NAME: "@, nm);
    assert(name_line(e, reel) == "* FROM CLIP NAME: "@ + nm);
}

/// A timecode holds no line break.
proof fn lemma_timecode_one_line(tb: Timebase, x: int)
    ensures
        one_line(timecode_of(tb, x)),
{
    lemma_timecode_chars(tb, x);
    let t = timecode_of(tb, x);
    assert forall|i: int| 0 <= i < t.len() implies #[trigger] t[i] != '\n' && t[i] != '\r' by {
        assert(timecode_char(t[i]));
    }
}

/// A rate line holds no line break.
proof fn lemma_rate_line_one_line(e: EventView, reel: Seq<char>, rate: Seq<char>, tb: Timebase)
    requires
        plain_reel(reel),
        plain_rate(rate),
    ensures
        one_line(rate_line(e, reel, rate, tb)),
{
    reveal_strlit("M2   ");
    reveal_strlit(" ");
    reveal_strlit("    ");
    assert(one_line("M2   "@));
    assert(one_line(" "@));
    assert(one_line("    "@));
    lemma_left_aligned(reel, 7);
    let k1 = choose|k: nat| left_aligned(reel, 7) == reel + spaces(k);
    lemma_right_aligned(rate, 9);
    let k2 = choose|k: nat| right_aligned(rate, 9) == spaces(k) + rate;
    lemma_reel_one_line(reel);
    lemma_word_one_line(rate);
    lemma_spaces_one_line(k1);
    lemma_spaces_one_line(k2);
    lemma_one_line_join(reel, spaces(k1));
    lemma_one_line_join(spaces(k2), rate);
    lemma_timecode_one_line(tb, e.source_in as int);
    let a = "M2   "@ + left_aligned(reel, 7);
    lemma_one_line_join("M2   "@, left_aligned(reel, 7));
    lemma_one_line_join(a, " "@);
    lemma_one_line_join(a + " "@, right_aligned(rate, 9));
    lemma_one_line_join(a + " "@ + right_aligned(rate, 9), "    "@);
    lemma_one_line_join(a + " "@ + right_aligned(rate, 9) + "    "@, timecode_of(tb, e.source_in as int));
}

/// A percent comment holds no line break.
proof fn lemma_percent_line_one_line(percent: i64)
    ensures
        one_line(percent_line(percent)),
{
    reveal_strlit("* SPEED CHANGE RATE: ");
    assert(one_line("* SPEED CHANGE RATE: "@));
    let sd = signed_decimal(percent as int);
    let d = crate::text::decimal(if percent < 0 { (-percent) as nat } else { percent as nat });
    crate::text::lemma_decimal_digits(if percent < 0 { (-percent) as nat } else { percent as nat });
    assert forall|i: int| 0 <= i < sd.len() implies #[trigger] sd[i] != '\n' && sd[i] != '\r' by {
        if percent < 0 && i > 0 {
            assert(sd[i] == d[i - 1]);
            assert(is_ascii_digit(d[i - 1]));
        } else if percent >= 0 {
            assert(is_ascii_digit(d[i]));
        }
    }
    lemma_one_line_join("* SPEED CHANGE RATE: "@, sd);
}

/// What an event needs for its written lines to read back as it: its
/// times fit, it starts and is recorded at or after frame zero, it lasts at
/// least a frame, its channel has a label, its reel is ASCII letters and
/// digits, its name is one line of ASCII text and its rate one ASCII word.
pub open spec fn reads_back(e: EventView, reels: Seq<(Seq<char>, Seq<char>)>, tb: Timebase) -> bool {
    &&& event_fits(e, tb)
    &&& e.source_in >= 0
    &&& e.record_in >= 0
    &&& e.duration > 0
    &&& representable(e.channel)
    &&& plain_reel(reel_in(reels, e.source))
    &&& plain_name(e.name)
    &&& (e.motion matches Some((rate, _)) ==> plain_rate(rate))
}

/// The lines of an event hold no line break.
proof fn lemma_event_lines_one_line(n: nat, e: EventView, reel: Seq<char>, tb: Timebase)
    requires
        plain_reel(reel),
        plain_name(e.name),
        e.motion matches Some((rate, _)) ==> plain_rate(rate),
    ensures
        forall|i: int|
            0 <= i < event_lines(n, e, reel, tb).len() ==> one_line(#[trigger] event_lines(n, e, reel, tb)[i]),
{
    lemma_cut_line_one_line(n, e, reel, tb);
    lemma_name_line_one_line(e, reel);
    assert(one_line(Seq::<char>::empty()));
    if let Some((rate, percent)) = e.motion {
        lemma_rate_line_one_line(e, reel, rate, tb);
        lemma_percent_line_one_line(percent);
    }
}

/// The lines of the events hold no line break.
proof fn lemma_all_event_lines_one_line(
    events: Seq<EventView>,
    reels: Seq<(Seq<char>, Seq<char>)>,
    tb: Timebase,
)
    requires
        forall|i: int| 0 <= i < events.len() ==> reads_back(#[trigger] events[i], reels, tb),
    ensures
        forall|i: int|
            0 <= i < all_event_lines(events, reels, tb).len() ==> one_line(
                #[trigger] all_event_lines(events, reels, tb)[i],
            ),
    decreases events.len(),
{
    if events.len() > 0 {
        let d = events.drop_last();
        assert forall|i: int| 0 <= i < d.len() implies reads_back(#[trigger] d[i], reels, tb) by {
            assert(d[i] == events[i]);
        }
        lemma_all_event_lines_one_line(d, reels, tb);
        let last = events.last();
        assert(reads_back(last, reels, tb)) by {
            assert(last == events[events.len() - 1]);
        }
        let reel = reel_in(reels, last.source);
        lemma_event_lines_one_line(events.len() as nat, last, reel, tb);
        let a = all_event_lines(d, reels, tb);
        let el = event_lines(events.len() as nat, last, reel, tb);
        assert(all_event_lines(events, reels, tb) == a + el);
        assert forall|i: int| 0 <= i < (a + el).len() implies one_line(#[trigger] (a + el)[i]) by {
            if i < a.len() {
                assert((a + el)[i] == a[i]);
            } else {
                assert((a + el)[i] == el[i - a.len()]);
            }
        }
    }
}

/// Reading one more line steps from what the lines before it gave.
proof fn lemma_scan_push(lines: Seq<Seq<char>>, l: Seq<char>, tb: Timebase)
    ensures
        scan(lines.push(l), tb) == match scan(lines, tb) {
            None => None,
            Some(st) => step(st, l, tb),
        },
{
    assert(lines.push(l).drop_last() =~= lines);
}

/// What the cuts of a written list read back as, numbered from one.
pub open spec fn cuts_read_back(events: Seq<EventView>, reels: Seq<(Seq<char>, Seq<char>)>) -> Seq<CutView> {
    Seq::new(events.len(), |i: int| cut_read_back((i + 1) as nat, events[i], reel_in(reels, events[i].source)))
}

/// The notices a written list reads back with: one for each rate line,
/// with the number of its cut and its rate.
pub open spec fn rate_notices(events: Seq<EventView>) -> Seq<NoticeView>
    decreases events.len(),
{
    if events.len() == 0 {
        Seq::empty()
    } else {
        match events.last().motion {
            Some((rate, _)) => rate_notices(events.drop_last()).push(NoticeView::Rate(events.len() as int, rate)),
            None => rate_notices(events.drop_last()),
        }
    }
}

/// The cut line and the clip name line of an event read back as its cut,
/// named, after what was read.
#[verifier::spinoff_prover]
proof fn lemma_scan_cut_named(
    lines: Seq<Seq<char>>,
    st: ScanView,
    n: nat,
    e: EventView,
    reel: Seq<char>,
    tb: Timebase,
)
    requires
        scan(lines, tb) == Some(st),
        1 <= n <= 0x7fff_ffff,
        plain_reel(reel),
        event_fits(e, tb),
        e.source_in >= 0,
        e.record_in >= 0,
        e.duration > 0,
        representable(e.channel),
        plain_name(e.name),
    ensures
        scan(lines.push(cut_line(n, e, reel, tb)).push(name_line(e, reel)), tb) == Some(
            scan_with(
                st,
                st.title,
                st.declared,
                st.pending.push(with_name(bare_cut(n, e, reel), written_name(e, reel))),
                st.notices,
            ),
        ),
{
    let bare = bare_cut(n, e, reel);
    lemma_step_cut(st, n, e, reel, tb);
    let st1 = scan_with(st, st.title, st.declared, st.pending.push(bare), st.notices);
    lemma_scan_push(lines, cut_line(n, e, reel, tb), tb);
    lemma_step_name(st1, e, reel, tb);
    assert(st1.pending.last() == bare);
    lemma_scan_push(lines.push(cut_line(n, e, reel, tb)), name_line(e, reel), tb);
    assert(change_last(st1.pending, with_name(bare, written_name(e, reel))) =~= st.pending.push(
        with_name(bare, written_name(e, reel)),
    ));
}

/// The rate line, the percent comment and the blank line of an event that
/// changes speed give its cut the rate and the percent, and notice the rate.
#[verifier::spinoff_prover]
proof fn lemma_scan_speed(
    lines: Seq<Seq<char>>,
    st: ScanView,
    named: CutView,
    e: EventView,
    reel: Seq<char>,
    rate: Seq<char>,
    percent: i64,
    tb: Timebase,
)
    requires
        scan(lines, tb) == Some(scan_with(st, st.title, st.declared, st.pending.push(named), st.notices)),
        plain_reel(reel),
        plain_rate(rate),
    ensures
        scan(
            lines.push(rate_line(e, reel, rate, tb)).push(percent_line(percent)).push(Seq::empty()),
            tb,
        ) == Some(
            scan_with(
                st,
                st.title,
                st.declared,
                st.pending.push(
                    with_speed(
                        with_speed(named, SpeedView::Rate(rate)),
                        SpeedView::Percent(signed_decimal(percent as int)),
                    ),
                ),
                st.notices.push(NoticeView::Rate(named.number, rate)),
            ),
        ),
{
    let st2 = scan_with(st, st.title, st.declared, st.pending.push(named), st.notices);
    lemma_step_rate(st2, e, reel, rate, tb);
    let rated = with_speed(named, SpeedView::Rate(rate));
    let st3 = scan_with(
        st2,
        st2.title,
        st2.declared,
        change_last(st2.pending, rated),
        st2.notices.push(NoticeView::Rate(named.number, rate)),
    );
    assert(st2.pending.last() == named);
    lemma_scan_push(lines, rate_line(e, reel, rate, tb), tb);
    let l3 = lines.push(rate_line(e, reel, rate, tb));
    lemma_step_percent(st3, percent, tb);
    let sped = with_speed(rated, SpeedView::Percent(signed_decimal(percent as int)));
    let st4 = scan_with(st3, st3.title, st3.declared, change_last(st3.pending, sped), st3.notices);
    assert(st3.pending.last() == rated);
    lemma_scan_push(l3, percent_line(percent), tb);
    lemma_step_blank(st4, tb);
    lemma_scan_push(l3.push(percent_line(percent)), Seq::empty(), tb);
    assert(change_last(st3.pending, sped) =~= st.pending.push(sped));
}

/// The lines of one event read back as its cut, after what was read.
#[verifier::spinoff_prover]
proof fn lemma_scan_event(
    lines: Seq<Seq<char>>,
    st: ScanView,
    n: nat,
    e: EventView,
    reel: Seq<char>,
    tb: Timebase,
)
    requires
        scan(lines, tb) == Some(st),
        1 <= n <= 0x7fff_ffff,
        plain_reel(reel),
        event_fits(e, tb),
        e.source_in >= 0,
        e.record_in >= 0,
        e.duration > 0,
        representable(e.channel),
        plain_name(e.name),
        e.motion matches Some((rate, _)) ==> plain_rate(rate),
    ensures
        scan(lines + event_lines(n, e, reel, tb), tb) == Some(
            scan_with(
                st,
                st.title,
                st.declared,
                st.pending.push(cut_read_back(n, e, reel)),
                match e.motion {
                    Some((rate, _)) => st.notices.push(NoticeView::Rate(n as int, rate)),
                    None => st.notices,
                },
            ),
        ),
{
    let el = event_lines(n, e, reel, tb);
    let named = with_name(bare_cut(n, e, reel), written_name(e, reel));
    lemma_scan_cut_named(lines, st, n, e, reel, tb);
    let l2 = lines.push(cut_line(n, e, reel, tb)).push(name_line(e, reel));
    let c = cut_read_back(n, e, reel);
    match e.motion {
        Some((rate, percent)) => {
            lemma_scan_speed(l2, st, named, e, reel, rate, percent, tb);
            assert(lines + el =~= l2.push(rate_line(e, reel, rate, tb)).push(percent_line(percent)).push(
                Seq::empty(),
            ));
            let sped = with_speed(
                with_speed(named, SpeedView::Rate(rate)),
                SpeedView::Percent(signed_decimal(percent as int)),
            );
            assert(sped.speeds =~= c.speeds);
            assert(sped == c);
        },
        None => {
            let st2 = scan_with(st, st.title, st.declared, st.pending.push(named), st.notices);
            lemma_step_blank(st2, tb);
            lemma_scan_push(l2, Seq::empty(), tb);
            assert(lines + el =~= l2.push(Seq::empty()));
            assert(named.speeds =~= c.speeds);
            assert(named == c);
        },
    }
}

/// The header reads back as the title, trimmed, and the mode written.
proof fn lemma_scan_header(title: Seq<char>, tb: Timebase)
    requires
        all_ascii(title),
    ensures
        scan(header_lines(title, tb), tb) == Some(
            ScanView {
                title: Some(trim(title)),
                declared: Some(tb.drop_frame),
                pending: Seq::empty(),
                notices: Seq::empty(),
            },
        ),
{
    let h = header_lines(title, tb);
    let e = Seq::<Seq<char>>::empty();
    let st0 = empty_scan();
    lemma_step_title(st0, title, tb);
    let st1 = scan_with(st0, Some(trim(title)), st0.declared, st0.pending, st0.notices);
    lemma_scan_push(e, h[0], tb);
    lemma_step_mode(st1, title, tb);
    let st2 = scan_with(st1, st1.title, Some(tb.drop_frame), st1.pending, st1.notices);
    lemma_scan_push(e.push(h[0]), h[1], tb);
    lemma_step_blank(st2, tb);
    lemma_scan_push(e.push(h[0]).push(h[1]), h[2], tb);
    assert(h =~= e.push(h[0]).push(h[1]).push(h[2]));
}

/// The header and the lines of the events read back as the title, the mode
/// written, the events' cuts and a notice of each rate line.
proof fn lemma_scan_written(
    title: Seq<char>,
    tb: Timebase,
    events: Seq<EventView>,
    reels: Seq<(Seq<char>, Seq<char>)>,
)
    requires
        all_ascii(title),
        events.len() <= 0x7fff_ffff,
        forall|i: int| 0 <= i < events.len() ==> reads_back(#[trigger] events[i], reels, tb),
    ensures
        scan(header_lines(title, tb) + all_event_lines(events, reels, tb), tb) == Some(
            ScanView {
                title: Some(trim(title)),
                declared: Some(tb.drop_frame),
                pending: cuts_read_back(events, reels),
                notices: rate_notices(events),
            },
        ),
    decreases events.len(),
{
    let h = header_lines(title, tb);
    if events.len() == 0 {
        lemma_scan_header(title, tb);
        assert(h + all_event_lines(events, reels, tb) =~= h);
        assert(cuts_read_back(events, reels) =~= Seq::<CutView>::empty());
    } else {
        let d = events.drop_last();
        assert forall|i: int| 0 <= i < d.len() implies reads_back(#[trigger] d[i], reels, tb) by {
            assert(d[i] == events[i]);
        }
        lemma_scan_written(title, tb, d, reels);
        let last = events.last();
        assert(reads_back(last, reels, tb)) by {
            assert(last == events[events.len() - 1]);
        }
        let reel = reel_in(reels, last.source);
        let a = all_event_lines(d, reels, tb);
        let st = ScanView {
            title: Some(trim(title)),
            declared: Some(tb.drop_frame),
            pending: cuts_read_back(d, reels),
            notices: rate_notices(d),
        };
        lemma_scan_event(h + a, st, events.len() as nat, last, reel, tb);
        let el = event_lines(events.len() as nat, last, reel, tb);
        assert(h + all_event_lines(events, reels, tb) =~= (h + a) + el);
        assert(cuts_read_back(events, reels) =~= cuts_read_back(d, reels).push(
            cut_read_back(events.len() as nat, last, reel),
        ));
    }
}

/// Cuts that all last a frame are all kept, and none is noticed.
proof fn lemma_all_lasting(p: Seq<CutView>)
    requires
        forall|i: int| 0 <= i < p.len() ==> (#[trigger] p[i]).duration > 0,
    ensures
        lasting(p) == p,
        not_lasting(p) == Seq::<NoticeView>::empty(),
    decreases p.len(),
{
    reveal(Seq::filter);
    if p.len() > 0 {
        let d = p.drop_last();
        assert forall|i: int| 0 <= i < d.len() implies (#[trigger] d[i]).duration > 0 by {
            assert(d[i] == p[i]);
        }
        lemma_all_lasting(d);
        assert(p.last().duration > 0) by {
            assert(p.last() == p[p.len() - 1]);
        }
        assert(d.push(p.last()) =~= p);
    }
}

/// A list written from events reads back at the rate it was written at:
/// its title trimmed; the events' cuts in the order written, numbered from
/// one, each with its reel, its name trimmed (its reel when the name is
/// blank), its channel, source in, record in and duration, and its rate and
/// percent where it changes speed; a notice of each rate line; and the rate
/// unchanged.
pub proof fn lemma_written_list_reads_back(
    title: Seq<char>,
    tb: Timebase,
    events: Seq<EventView>,
    reels: Seq<(Seq<char>, Seq<char>)>,
)
    requires
        plain_name(title),
        events.len() <= 0x7fff_ffff,
        forall|i: int| 0 <= i < events.len() ==> reads_back(#[trigger] events[i], reels, tb),
    ensures
        edl_read_of(edl_text(title, tb, events, reels), tb) == Some(
            ReadView {
                title: Some(trim(title)),
                cuts: cuts_read_back(stable_sorted(events, event_order()), reels),
                notices: rate_notices(stable_sorted(events, event_order())),
                timebase: tb,
            },
        ),
{
    broadcast use vstd::seq_lib::group_to_multiset_ensures;

    let sorted = stable_sorted(events, event_order());
    crate::media_browser::lemma_stable_sorted_keeps(events, event_order());
    assert forall|i: int| 0 <= i < sorted.len() implies reads_back(#[trigger] sorted[i], reels, tb) by {
        assert(sorted.contains(sorted[i]));
        assert(sorted.to_multiset().count(sorted[i]) > 0);
        assert(events.contains(sorted[i]));
        let j = choose|j: int| 0 <= j < events.len() && events[j] == sorted[i];
        assert(reads_back(events[j], reels, tb));
    }
    let h = header_lines(title, tb);
    let a = all_event_lines(sorted, reels, tb);
    let lines = h + a;
    assert(one_line(title)) by {
        assert forall|i: int| 0 <= i < title.len() implies #[trigger] title[i] != '\n' && title[i] != '\r' by {
            assert(!title.contains('\n'));
            assert(!title.contains('\r'));
        }
    }
    lemma_header_one_line(title, tb);
    lemma_all_event_lines_one_line(sorted, reels, tb);
    assert forall|i: int| 0 <= i < lines.len() implies one_line(#[trigger] lines[i]) by {
        if i < h.len() {
            assert(lines[i] == h[i]);
        } else {
            assert(lines[i] == a[i - h.len()]);
        }
    }
    lemma_raw_lines_of(lines);
    assert(edl_text(title, tb, events, reels) == lines_text(lines));
    lemma_scan_written(title, tb, sorted, reels);
    let st = ScanView {
        title: Some(trim(title)),
        declared: Some(tb.drop_frame),
        pending: cuts_read_back(sorted, reels),
        notices: rate_notices(sorted),
    };
    lemma_scan_push(lines, Seq::<char>::empty(), tb);
    lemma_step_blank(st, tb);
    assert(scan(raw_lines(edl_text(title, tb, events, reels)), tb) == Some(st));
    let cuts = cuts_read_back(sorted, reels);
    assert forall|i: int| 0 <= i < cuts.len() implies (#[trigger] cuts[i]).duration > 0 by {
        assert(reads_back(sorted[i], reels, tb));
    }
    lemma_all_lasting(cuts);
    assert(rate_notices(sorted) + Seq::<NoticeView>::empty() + Seq::<NoticeView>::empty() =~= rate_notices(sorted));
}

} // verus!
