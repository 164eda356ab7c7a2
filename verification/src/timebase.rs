//! Exact rational timebase shared by the hosts, and the SMPTE timecode that
//! labels its frames (with drop-frame numbering where the rate asks for it).
use vstd::prelude::*;
use crate::text::{
    all_digits, chars_to_string, decimal, i64_max, is_ascii_digit, is_white_space, lemma_pad2,
    lemma_split_by_append_plain, lemma_split_by_append_sep, pad2, parse_i64, parse_i64_chars,
    push_decimal, push_pad2, split_by, split_timecode_fields, timecode_separator, to_chars, trim,
    trim_start, trimmed, views_of,
};

verus! {

/// A frame rate as the exact fraction `numerator / denominator` frames per
/// second, with the drop-frame flag of its timecode.
#[derive(Debug, Clone, Copy, PartialEq, Eq, Structural)]
pub struct Timebase {
    pub numerator: u32,
    pub denominator: u32,
    pub drop_frame: bool,
}

impl Default for Timebase {
    fn default() -> (t: Self)
        ensures
            t == (Timebase { numerator: 30, denominator: 1, drop_frame: false }),
    {
        Timebase { numerator: 30, denominator: 1, drop_frame: false }
    }
}

/// Greatest common divisor by Euclid's algorithm.
pub open spec fn gcd_spec(a: nat, b: nat) -> nat
    decreases b,
{
    if b == 0 {
        a
    } else {
        gcd_spec(b, a % b)
    }
}

/// The divisor `Timebase::new` reduces by: the gcd, and at least one.
pub open spec fn reduce_divisor(a: nat, b: nat) -> nat {
    if gcd_spec(a, b) == 0 {
        1
    } else {
        gcd_spec(a, b)
    }
}

/// Labels per second of an `HH:MM:SS:FF` timecode: `numerator / denominator`
/// rounded half away from zero, and at least one. A zero denominator reads as
/// an infinite rate (saturated to `u32::MAX`), or as one when both are zero.
pub open spec fn nominal_fps_of(tb: Timebase) -> nat {
    if tb.denominator == 0 {
        if tb.numerator == 0 {
            1
        } else {
            u32::MAX as nat
        }
    } else {
        let r = (2 * tb.numerator + tb.denominator) / (2 * tb.denominator as int);
        if r < 1 {
            1
        } else {
            r as nat
        }
    }
}

/// Timecode labels skipped at the start of each minute (but every tenth) by
/// drop-frame numbering: `nominal / 15`, rounded; none without drop frame.
pub open spec fn dropped_per_minute(tb: Timebase) -> int {
    if tb.drop_frame {
        (2 * nominal_fps_of(tb) + 15) as int / 30
    } else {
        0
    }
}

/// The label number that names frame `n` (`n >= 0`): the frame count itself,
/// or with drop frame the count plus every label skipped before it.
pub open spec fn label_of(tb: Timebase, n: int) -> int {
    if !tb.drop_frame {
        n
    } else {
        let fps = nominal_fps_of(tb) as int;
        let d = dropped_per_minute(tb);
        let per_ten = fps * 600 - d * 9;
        let per_minute = fps * 60 - d;
        let block = n / per_ten;
        let rem = n % per_ten;
        n + d * 9 * block + (if rem > d {
            d * ((rem - d) / per_minute)
        } else {
            0
        })
    }
}

/// The frame as a timecode count: negative frames read as frame zero.
pub open spec fn clamp_frame(frames: int) -> int {
    if frames < 0 {
        0
    } else {
        frames
    }
}

/// `HH:MM:SS:FF` (`;` before the frames with drop frame) naming `frames`.
pub open spec fn timecode_text(tb: Timebase, frames: int) -> Seq<char> {
    let fps = nominal_fps_of(tb) as int;
    let label = label_of(tb, clamp_frame(frames));
    let total_seconds = label / fps;
    let frame = label % fps;
    let hours = total_seconds / 3600;
    let minutes = (total_seconds / 60) % 60;
    let seconds = total_seconds % 60;
    pad2(hours as nat) + seq![':'] + pad2(minutes as nat) + seq![':'] + pad2(seconds as nat)
        + seq![if tb.drop_frame {
        ';'
    } else {
        ':'
    }] + pad2(frame as nat)
}

/// `timecode_text`, as other modules see it: by name only (see
/// `lemma_timecode_of`).
pub closed spec fn timecode_of(tb: Timebase, frames: int) -> Seq<char> {
    timecode_text(tb, frames)
}

/// The label of `frames` stays inside `i64`, so its timecode can be
/// written; by name only (see `lemma_timecode_of`).
pub closed spec fn writable(tb: Timebase, frames: int) -> bool {
    label_of(tb, clamp_frame(frames)) <= i64_max()
}

/// What `timecode_of` and `writable` stand for.
pub proof fn lemma_timecode_of(tb: Timebase, frames: int)
    ensures
        timecode_of(tb, frames) == timecode_text(tb, frames),
        writable(tb, frames) == (label_of(tb, clamp_frame(frames)) <= i64_max()),
{
}

/// The numbers of a timecode text: every field between `:` and `;`, trimmed
/// and read as an `i64`; none when any field is not a number.
pub open spec fn timecode_fields(s: Seq<char>) -> Option<Seq<int>> {
    let fields = split_by(s, timecode_separator());
    if forall|i: int| 0 <= i < fields.len() ==> parse_i64(trim(#[trigger] fields[i])) is Some {
        Some(Seq::new(fields.len(), |i: int| parse_i64(trim(fields[i]))->0))
    } else {
        None
    }
}

/// Drop-frame timecodes name no frame at labels `00..dropped` of a minute
/// that is not a multiple of ten.
pub open spec fn skipped_label(tb: Timebase, seconds: int, frame: int) -> bool {
    tb.drop_frame && seconds % 60 == 0 && (seconds / 60) % 10 != 0 && frame < dropped_per_minute(
        tb,
    )
}

/// The frame that the clock time `seconds` plus `frame` labels.
pub open spec fn clock_frames(tb: Timebase, seconds: int, frame: int) -> Option<int> {
    let fps = nominal_fps_of(tb) as int;
    if skipped_label(tb, seconds, frame) {
        None
    } else if tb.drop_frame {
        let minutes = seconds / 60;
        Some(seconds * fps + frame - dropped_per_minute(tb) * (minutes - minutes / 10))
    } else {
        Some(seconds * fps + frame)
    }
}

pub open spec fn all_nonnegative(v: Seq<int>) -> bool {
    forall|i: int| 0 <= i < v.len() ==> #[trigger] v[i] >= 0
}

/// The frame named by one to four timecode numbers: `FF`, `MM:FF`,
/// `MM:SS:FF` or `HH:MM:SS:FF`, each field below its unit.
pub open spec fn frames_from_fields(tb: Timebase, v: Seq<int>) -> Option<int> {
    let fps = nominal_fps_of(tb) as int;
    if v.len() == 0 || !all_nonnegative(v) {
        None
    } else if v.len() == 1 {
        Some(v[0])
    } else if v.len() == 2 {
        if v[1] < fps {
            Some(v[0] * fps + v[1])
        } else {
            None
        }
    } else if v.len() == 3 {
        if v[1] < 60 && v[2] < fps {
            clock_frames(tb, v[0] * 60 + v[1], v[2])
        } else {
            None
        }
    } else if v.len() == 4 {
        if v[1] < 60 && v[2] < 60 && v[3] < fps {
            clock_frames(tb, v[0] * 3600 + v[1] * 60 + v[2], v[3])
        } else {
            None
        }
    } else {
        None
    }
}

/// The frame that a timecode text names, if it names one.
pub open spec fn frames_from_timecode_spec(tb: Timebase, s: Seq<char>) -> Option<int> {
    match timecode_fields(s) {
        Some(v) => frames_from_fields(tb, v),
        None => None,
    }
}

/// The clock arithmetic of a timecode stays inside `i64`.
pub open spec fn clock_fits(tb: Timebase, seconds: int, frame: int) -> bool {
    seconds <= i64_max() && (skipped_label(tb, seconds, frame) || seconds * (nominal_fps_of(tb) as int)
        + frame <= i64_max())
}

/// Reading the timecode `s` never leaves the range of `i64`.
pub open spec fn timecode_fits(tb: Timebase, s: Seq<char>) -> bool {
    let fps = nominal_fps_of(tb) as int;
    match timecode_fields(s) {
        Some(v) => {
            if !all_nonnegative(v) {
                true
            } else if v.len() == 2 && v[1] < fps {
                v[0] * fps + v[1] <= i64_max()
            } else if v.len() == 3 && v[1] < 60 && v[2] < fps {
                clock_fits(tb, v[0] * 60 + v[1], v[2])
            } else if v.len() == 4 && v[1] < 60 && v[2] < 60 && v[3] < fps {
                clock_fits(tb, v[0] * 3600 + v[1] * 60 + v[2], v[3])
            } else {
                true
            }
        },
        None => true,
    }
}

/// Greatest common divisor of two rates' terms, at least one.
fn gcd(left: u32, right: u32) -> (g: u32)
    ensures
        g == reduce_divisor(left as nat, right as nat),
{
    let mut a = left;
    let mut b = right;
    while b != 0
        invariant
            gcd_spec(a as nat, b as nat) == gcd_spec(left as nat, right as nat),
        decreases b,
    {
        let r = a % b;
        a = b;
        b = r;
    }
    if a < 1 {
        1
    } else {
        a
    }
}

impl Timebase {
    /// 23.976 fps (24000/1001).
    #[allow(non_snake_case)]
    pub fn P23_976() -> (t: Timebase)
        ensures
            t == (Timebase { numerator: 24000, denominator: 1001, drop_frame: false }),
    {
        Timebase { numerator: 24000, denominator: 1001, drop_frame: false }
    }

    /// 24 fps.
    #[allow(non_snake_case)]
    pub fn P24() -> (t: Timebase)
        ensures
            t == (Timebase { numerator: 24, denominator: 1, drop_frame: false }),
    {
        Timebase { numerator: 24, denominator: 1, drop_frame: false }
    }

    /// 25 fps.
    #[allow(non_snake_case)]
    pub fn P25() -> (t: Timebase)
        ensures
            t == (Timebase { numerator: 25, denominator: 1, drop_frame: false }),
    {
        Timebase { numerator: 25, denominator: 1, drop_frame: false }
    }

    /// 29.97 fps with drop-frame timecode (30000/1001).
    #[allow(non_snake_case)]
    pub fn NTSC30() -> (t: Timebase)
        ensures
            t == (Timebase { numerator: 30000, denominator: 1001, drop_frame: true }),
    {
        Timebase { numerator: 30000, denominator: 1001, drop_frame: true }
    }

    /// 30 fps.
    #[allow(non_snake_case)]
    pub fn P30() -> (t: Timebase)
        ensures
            t == (Timebase { numerator: 30, denominator: 1, drop_frame: false }),
    {
        Timebase { numerator: 30, denominator: 1, drop_frame: false }
    }

    /// 50 fps.
    #[allow(non_snake_case)]
    pub fn P50() -> (t: Timebase)
        ensures
            t == (Timebase { numerator: 50, denominator: 1, drop_frame: false }),
    {
        Timebase { numerator: 50, denominator: 1, drop_frame: false }
    }

    /// 59.94 fps with drop-frame timecode (60000/1001).
    #[allow(non_snake_case)]
    pub fn NTSC60() -> (t: Timebase)
        ensures
            t == (Timebase { numerator: 60000, denominator: 1001, drop_frame: true }),
    {
        Timebase { numerator: 60000, denominator: 1001, drop_frame: true }
    }

    /// 60 fps.
    #[allow(non_snake_case)]
    pub fn P60() -> (t: Timebase)
        ensures
            t == (Timebase { numerator: 60, denominator: 1, drop_frame: false }),
    {
        Timebase { numerator: 60, denominator: 1, drop_frame: false }
    }

    /// The reduced fraction `numerator / denominator`; both must be positive.
    pub fn new(numerator: u32, denominator: u32, drop_frame: bool) -> (r: Result<Timebase, String>)
        ensures
            r is Err <==> (numerator == 0 || denominator == 0),
            r matches Err(e) ==> e@ == "Timebase numerator and denominator must be greater than zero"@,
            r matches Ok(t) ==> {
                let g = reduce_divisor(numerator as nat, denominator as nat);
                &&& t.numerator as int == numerator as int / g as int
                &&& t.denominator as int == denominator as int / g as int
                &&& t.drop_frame == drop_frame
            },
    {
        if numerator == 0 || denominator == 0 {
            return Err("Timebase numerator and denominator must be greater than zero".to_owned());
        }
        let divisor = gcd(numerator, denominator);
        Ok(Timebase { numerator: numerator / divisor, denominator: denominator / divisor, drop_frame })
    }

    /// The rate as FFmpeg's `fps` and `color` filters take it: `N/D`.
    pub fn ffmpeg_rate(self) -> (s: String)
        ensures
            s@ == decimal(self.numerator as nat) + seq!['/'] + decimal(self.denominator as nat),
    {
        let mut out: Vec<char> = Vec::new();
        push_decimal(&mut out, self.numerator as u64);
        out.push('/');
        push_decimal(&mut out, self.denominator as u64);
        chars_to_string(&out)
    }

    /// Labels per second of an `HH:MM:SS:FF` timecode.
    pub fn nominal_fps(self) -> (f: u32)
        ensures
            f == nominal_fps_of(self),
            f >= 1,
    {
        if self.denominator == 0 {
            if self.numerator == 0 {
                1
            } else {
                u32::MAX
            }
        } else {
            let twice: u64 = 2 * self.numerator as u64 + self.denominator as u64;
            let r: u64 = twice / (2 * self.denominator as u64);
            proof {
                let n = self.numerator as int;
                let d = self.denominator as int;
                let m = 2 * d;
                assert(twice as int == 2 * n + d);
                assert(r as int == (2 * n + d) / m);
                vstd::arithmetic::div_mod::lemma_fundamental_div_mod(2 * n + d, m);
                let q = (2 * n + d) / m;
                let rem = (2 * n + d) % m;
                assert(0 <= rem);
                assert(q <= n) by (nonlinear_arith)
                    requires
                        2 * n + d == m * q + rem,
                        0 <= rem,
                        m == 2 * d,
                        d >= 1,
                        n >= 0,
                ;
            }
            if r < 1 {
                1
            } else if r > u32::MAX as u64 {
                u32::MAX
            } else {
                r as u32
            }
        }
    }

    /// Labels dropped per minute of drop-frame timecode.
    fn dropped_frames_per_minute(self) -> (d: i64)
        ensures
            d == dropped_per_minute(self),
            0 <= d,
    {
        if !self.drop_frame {
            return 0;
        }
        match self.nominal_fps() {
            30 => 2,
            60 => 4,
            fps => ((2 * fps as u64 + 15) / 30) as i64,
        }
    }

    /// The timecode `HH:MM:SS:FF` of a frame of the edit (`;` before the
    /// frames with drop frame); negative frames read as frame zero.
    pub fn timecode(self, frames: i64) -> (s: String)
        requires
            label_of(self, clamp_frame(frames as int)) <= i64_max(),
        ensures
            s@ == timecode_text(self, frames as int),
    {
        let fps = self.nominal_fps() as i64;
        let mut frame_number: i64 = if frames < 0 {
            0
        } else {
            frames
        };
        if self.drop_frame {
            let dropped = self.dropped_frames_per_minute();
            assert(dropped <= fps) by {
                assert((2 * fps + 15) / 30 <= fps);
            }
            let frames_per_ten_minutes = fps * 60 * 10 - dropped * 9;
            let frames_per_minute = fps * 60 - dropped;
            let block = frame_number / frames_per_ten_minutes;
            let remainder = frame_number % frames_per_ten_minutes;
            assert(0 <= dropped * 9 * block) by (nonlinear_arith)
                requires
                    dropped >= 0,
                    block >= 0,
            ;
            frame_number = frame_number + dropped * 9 * block;
            if remainder > dropped {
                assert(0 <= dropped * ((remainder - dropped) as int / frames_per_minute as int)) by (nonlinear_arith)
                    requires
                        dropped >= 0,
                        remainder - dropped >= 0,
                        frames_per_minute > 0,
                ;
                frame_number = frame_number + dropped * ((remainder - dropped) / frames_per_minute);
            }
        }
        assert(frame_number == label_of(self, clamp_frame(frames as int)));
        let label = frame_number as u64;
        let fps_u = fps as u64;
        let frame = label % fps_u;
        let total_seconds = label / fps_u;
        let seconds = total_seconds % 60;
        let minutes = (total_seconds / 60) % 60;
        let hours = total_seconds / 3600;
        let mut out: Vec<char> = Vec::new();
        push_pad2(&mut out, hours);
        out.push(':');
        push_pad2(&mut out, minutes);
        out.push(':');
        push_pad2(&mut out, seconds);
        out.push(
            if self.drop_frame {
                ';'
            } else {
                ':'
            },
        );
        push_pad2(&mut out, frame);
        chars_to_string(&out)
    }

    /// The frame named by a timecode of one to four fields (`FF`, `MM:FF`,
    /// `MM:SS:FF`, `HH:MM:SS:FF`, split at `:` or `;`); `None` when it names
    /// none.
    pub fn frames_from_timecode(self, text: &str) -> (r: Option<i64>)
        requires
            timecode_fits(self, text@),
        ensures
            r matches Some(v) ==> frames_from_timecode_spec(self, text@) == Some(v as int),
            r is None ==> frames_from_timecode_spec(self, text@) is None,
    {
        let chars = to_chars(text);
        let fields = split_timecode_fields(&chars);
        let ghost split = split_by(text@, timecode_separator());
        let mut values: Vec<i64> = Vec::new();
        let mut i: usize = 0;
        while i < fields.len()
            invariant
                i <= fields.len(),
                views_of(fields@) == split,
                split == split_by(text@, timecode_separator()),
                values.len() == i,
                forall|j: int|
                    0 <= j < i ==> parse_i64(trim(#[trigger] split[j])) == Some(values[j] as int),
            decreases fields.len() - i,
        {
            assert(fields@[i as int]@ == split[i as int]);
            let field = trimmed(&fields[i]);
            match parse_i64_chars(&field) {
                None => {
                    assert(timecode_fields(text@) is None) by {
                        assert(parse_i64(trim(split[i as int])) is None);
                    }
                    return None;
                },
                Some(v) => {
                    values.push(v);
                },
            }
            i = i + 1;
        }
        let ghost vals = Seq::new(split.len(), |j: int| parse_i64(trim(split[j]))->0);
        assert(timecode_fields(text@) == Some(vals));
        assert(values.len() == vals.len());
        assert forall|j: int| 0 <= j < vals.len() implies vals[j] == values@[j] as int by {
            assert(parse_i64(trim(split[j])) == Some(values[j] as int));
        }
        let mut k: usize = 0;
        while k < values.len()
            invariant
                k <= values.len(),
                forall|j: int| 0 <= j < k ==> values[j] >= 0,
                values.len() == vals.len(),
                forall|j: int| 0 <= j < vals.len() ==> vals[j] == values@[j] as int,
                timecode_fields(text@) == Some(vals),
            decreases values.len() - k,
        {
            if values[k] < 0 {
                assert(!all_nonnegative(vals)) by {
                    assert(vals[k as int] < 0);
                }
                return None;
            }
            k = k + 1;
        }
        if values.len() == 0 {
            return None;
        }
        assert(all_nonnegative(vals)) by {
            assert forall|j: int| 0 <= j < vals.len() implies #[trigger] vals[j] >= 0 by {
                assert(values[j] >= 0);
            }
        }
        let fps = self.nominal_fps() as i64;
        if values.len() == 1 {
            Some(values[0])
        } else if values.len() == 2 {
            if values[1] < fps {
                Some(values[0] * fps + values[1])
            } else {
                None
            }
        } else if values.len() == 3 {
            if values[1] < 60 && values[2] < fps {
                self.clock_frames_exec(values[0] * 60 + values[1], values[2])
            } else {
                None
            }
        } else if values.len() == 4 {
            if values[1] < 60 && values[2] < 60 && values[3] < fps {
                assert(0 <= values[0] * 3600 <= i64_max()) by (nonlinear_arith)
                    requires
                        0 <= values[0] * 3600 + values[1] * 60 + values[2] <= i64_max(),
                        values[1] >= 0,
                        values[2] >= 0,
                        values[0] >= 0,
                ;
                self.clock_frames_exec(values[0] * 3600 + values[1] * 60 + values[2], values[3])
            } else {
                None
            }
        } else {
            None
        }
    }

    /// Whether the timecode of `frames` can be written: its label stays
    /// inside `i64`, which `timecode` asks of its callers.
    pub fn timecode_writable(self, frames: i64) -> (b: bool)
        ensures
            b == writable(self, frames as int),
    {
        let n: i128 = if frames < 0 {
            0
        } else {
            frames as i128
        };
        assert(clamp_frame(frames as int) == n);
        if !self.drop_frame {
            return true;
        }
        let fps = self.nominal_fps() as i128;
        let dropped = self.dropped_frames_per_minute() as i128;
        assert(dropped <= fps) by {
            assert((2 * fps + 15) / 30 <= fps);
        }
        let per_ten = fps * 600 - dropped * 9;
        let per_minute = fps * 60 - dropped;
        let block = n / per_ten;
        let rem = n % per_ten;
        assert(0 <= block <= n) by (nonlinear_arith)
            requires
                per_ten >= 1,
                n >= 0,
                block == n / per_ten,
        ;
        assert(0 <= dropped * 9 * block <= 0x1_0000_0000 * 9 * 0x8000_0000_0000_0000) by (nonlinear_arith)
            requires
                0 <= dropped <= 0xffff_ffff,
                0 <= block <= 0x7fff_ffff_ffff_ffff,
        ;
        let mut label = n + dropped * 9 * block;
        if rem > dropped {
            let excess = rem - dropped;
            let q = excess / per_minute;
            assert(0 <= q <= excess) by (nonlinear_arith)
                requires
                    per_minute >= 1,
                    excess >= 0,
                    q == excess / per_minute,
            ;
            assert(0 <= dropped * q <= 0x1_0000_0000 * 0x8000_0000_0000_0000) by (nonlinear_arith)
                requires
                    0 <= dropped <= 0xffff_ffff,
                    0 <= q <= 0x7fff_ffff_ffff_ffff,
            ;
            label = label + dropped * q;
        }
        assert(label == label_of(self, n as int));
        label <= 0x7fff_ffff_ffff_ffff
    }

    /// Whether reading `text` as a timecode stays inside `i64`, which
    /// `frames_from_timecode` asks of its callers.
    pub fn timecode_fits(self, text: &str) -> (b: bool)
        ensures
            b == timecode_fits(self, text@),
    {
        let chars = to_chars(text);
        let fields = split_timecode_fields(&chars);
        let ghost split = split_by(text@, timecode_separator());
        let mut values: Vec<i64> = Vec::new();
        let mut i: usize = 0;
        while i < fields.len()
            invariant
                i <= fields.len(),
                views_of(fields@) == split,
                split == split_by(text@, timecode_separator()),
                values.len() == i,
                forall|j: int|
                    0 <= j < i ==> parse_i64(trim(#[trigger] split[j])) == Some(values[j] as int),
            decreases fields.len() - i,
        {
            assert(fields@[i as int]@ == split[i as int]);
            let field = trimmed(&fields[i]);
            match parse_i64_chars(&field) {
                None => {
                    assert(timecode_fields(text@) is None) by {
                        assert(parse_i64(trim(split[i as int])) is None);
                    }
                    return true;
                },
                Some(v) => {
                    values.push(v);
                },
            }
            i = i + 1;
        }
        let ghost vals = Seq::new(split.len(), |j: int| parse_i64(trim(split[j]))->0);
        assert(timecode_fields(text@) == Some(vals));
        assert forall|j: int| 0 <= j < vals.len() implies vals[j] == values@[j] as int by {
            assert(parse_i64(trim(split[j])) == Some(values[j] as int));
        }
        let mut k: usize = 0;
        while k < values.len()
            invariant
                k <= values.len(),
                forall|j: int| 0 <= j < k ==> values[j] >= 0,
                values.len() == vals.len(),
                forall|j: int| 0 <= j < vals.len() ==> vals[j] == values@[j] as int,
                timecode_fields(text@) == Some(vals),
            decreases values.len() - k,
        {
            if values[k] < 0 {
                assert(!all_nonnegative(vals)) by {
                    assert(vals[k as int] < 0);
                }
                return true;
            }
            k = k + 1;
        }
        assert(all_nonnegative(vals)) by {
            assert forall|j: int| 0 <= j < vals.len() implies #[trigger] vals[j] >= 0 by {
                assert(values[j] >= 0);
            }
        }
        let fps = self.nominal_fps() as i128;
        let n = values.len();
        if n == 2 && (values[1] as i128) < fps {
            assert((values[0] as i128) * fps <= 0x8000_0000_0000_0000i128 * 0x1_0000_0000i128) by (nonlinear_arith)
                requires
                    0 <= values[0] <= 0x7fff_ffff_ffff_ffff,
                    1 <= fps <= 0xffff_ffff,
            ;
            (values[0] as i128) * fps + values[1] as i128 <= 0x7fff_ffff_ffff_ffff
        } else if n == 3 && values[1] < 60 && (values[2] as i128) < fps {
            self.clock_fits_exec((values[0] as i128) * 60 + values[1] as i128, values[2] as i128)
        } else if n == 4 && values[1] < 60 && values[2] < 60 && (values[3] as i128) < fps {
            self.clock_fits_exec(
                (values[0] as i128) * 3600 + (values[1] as i128) * 60 + values[2] as i128,
                values[3] as i128,
            )
        } else {
            true
        }
    }

    fn clock_fits_exec(self, seconds: i128, frame: i128) -> (b: bool)
        requires
            0 <= seconds <= 0x1_0000_0000_0000_0000_0000,
            0 <= frame < nominal_fps_of(self),
        ensures
            b == clock_fits(self, seconds as int, frame as int),
    {
        if seconds > 0x7fff_ffff_ffff_ffff {
            return false;
        }
        let fps = self.nominal_fps() as i128;
        let dropped = self.dropped_frames_per_minute() as i128;
        let skipped = self.drop_frame && seconds % 60 == 0 && (seconds / 60) % 10 != 0 && frame < dropped;
        assert(seconds * fps <= 0x8000_0000_0000_0000i128 * 0x1_0000_0000i128) by (nonlinear_arith)
            requires
                0 <= seconds <= 0x7fff_ffff_ffff_ffff,
                1 <= fps <= 0xffff_ffff,
        ;
        skipped || seconds * fps + frame <= 0x7fff_ffff_ffff_ffff
    }

    fn clock_frames_exec(self, seconds: i64, frame: i64) -> (r: Option<i64>)
        requires
            seconds >= 0,
            0 <= frame < nominal_fps_of(self),
            clock_fits(self, seconds as int, frame as int),
        ensures
            r matches Some(v) ==> clock_frames(self, seconds as int, frame as int) == Some(v as int),
            r is None ==> clock_frames(self, seconds as int, frame as int) is None,
    {
        let fps = self.nominal_fps() as i64;
        if self.drop_frame {
            let dropped = self.dropped_frames_per_minute();
            let minutes = seconds / 60;
            let second = seconds % 60;
            if second == 0 && minutes % 10 != 0 && frame < dropped {
                return None;
            }
            assert(0 <= seconds * fps) by (nonlinear_arith)
                requires
                    seconds >= 0,
                    fps >= 1,
            ;
            let labels = seconds * fps + frame;
            assert(0 <= dropped * (minutes - minutes / 10) <= labels) by (nonlinear_arith)
                requires
                    0 <= dropped <= fps,
                    minutes == seconds / 60,
                    seconds >= 0,
                    labels == seconds * fps + frame,
                    frame >= 0,
            {
                assert(minutes - minutes / 10 <= seconds);
                assert(minutes - minutes / 10 >= 0);
            }
            let skipped = dropped * (minutes - minutes / 10);
            Some(labels - skipped)
        } else {
            assert(0 <= seconds * fps) by (nonlinear_arith)
                requires
                    seconds >= 0,
                    fps >= 1,
            ;
            Some(seconds * fps + frame)
        }
    }
}


// ---------------------------------------------------------------------------
// Round trip of the timecode
// ---------------------------------------------------------------------------

proof fn lemma_dropped_bounds(tb: Timebase)
    ensures
        0 <= dropped_per_minute(tb) <= nominal_fps_of(tb),
        nominal_fps_of(tb) >= 1,
{
}

/// The drop-frame label of frame `n` lies in minute `M` of the clock with
/// `F - d * (M - M / 10) == n`, and never among the skipped labels.
proof fn lemma_drop_label(tb: Timebase, n: int)
    requires
        tb.drop_frame,
        n >= 0,
    ensures
        ({
            let f = nominal_fps_of(tb) as int;
            let d = dropped_per_minute(tb);
            let lab = label_of(tb, n);
            let m = lab / (60 * f);
            &&& lab >= n
            &&& lab - d * (m - m / 10) == n
            &&& !(lab % (60 * f) < d && m % 10 != 0)
        }),
{
    let f = nominal_fps_of(tb) as int;
    let d = dropped_per_minute(tb);
    lemma_dropped_bounds(tb);
    let t = f * 600 - d * 9;
    let p = f * 60 - d;
    assert(t > 0 && p > 0);
    let b = n / t;
    let r = n % t;
    vstd::arithmetic::div_mod::lemma_fundamental_div_mod(n, t);
    assert(0 <= r < t);
    assert(b >= 0) by {
        vstd::arithmetic::div_mod::lemma_div_pos_is_pos(n, t);
    }
    let lab = label_of(tb, n);
    assert(n == t * b + r);
    assert(d * 9 * b >= 0) by (nonlinear_arith)
        requires
            d >= 0,
            b >= 0,
    ;
    let sixty = 60 * f;
    if r < sixty {
        if r > d {
            vstd::arithmetic::div_mod::lemma_small_div_converse(r - d, p);
            assert((r - d) / p == 0) by {
                vstd::arithmetic::div_mod::lemma_basic_div(r - d, p);
            }
        }
        assert(lab == n + d * 9 * b);
        assert(lab == sixty * (10 * b) + r) by (nonlinear_arith)
            requires
                lab == n + d * 9 * b,
                n == t * b + r,
                t == f * 600 - d * 9,
                sixty == 60 * f,
        ;
        vstd::arithmetic::div_mod::lemma_fundamental_div_mod_converse(lab, sixty, 10 * b, r);
        let m = lab / sixty;
        assert(m == 10 * b);
        assert(m % 10 == 0 && m / 10 == b) by {
            vstd::arithmetic::div_mod::lemma_fundamental_div_mod_converse(m, 10, b, 0);
        }
        assert(lab - d * (m - m / 10) == n) by (nonlinear_arith)
            requires
                m == 10 * b,
                m / 10 == b,
                lab == n + d * 9 * b,
        ;
    } else {
        let k = (r - d) / p;
        let j = (r - d) % p;
        vstd::arithmetic::div_mod::lemma_fundamental_div_mod(r - d, p);
        assert(r - d == p * k + j);
        assert(0 <= j < p);
        assert(1 <= k <= 9) by (nonlinear_arith)
            requires
                r - d == p * k + j,
                0 <= j < p,
                r >= 60 * f,
                r < t,
                t == f * 600 - d * 9,
                p == f * 60 - d,
                p > 0,
                d >= 0,
        {
            if k < 1 {
                assert(p * k <= 0);
            }
            if k > 9 {
                assert(p * k >= p * 10);
            }
        }
        assert(r > d);
        assert(lab == n + d * 9 * b + d * k);
        assert(lab == sixty * (10 * b + k) + (d + j)) by (nonlinear_arith)
            requires
                lab == n + d * 9 * b + d * k,
                n == t * b + r,
                t == f * 600 - d * 9,
                r - d == p * k + j,
                p == f * 60 - d,
                sixty == 60 * f,
        ;
        assert(0 <= d + j < sixty);
        vstd::arithmetic::div_mod::lemma_fundamental_div_mod_converse(lab, sixty, 10 * b + k, d + j);
        let m = lab / sixty;
        assert(m == 10 * b + k);
        assert(m % 10 == k && m / 10 == b) by {
            vstd::arithmetic::div_mod::lemma_fundamental_div_mod_converse(m, 10, b, k);
        }
        assert(lab % sixty == d + j);
        assert(lab - d * (m - m / 10) == n) by (nonlinear_arith)
            requires
                m == 10 * b + k,
                m / 10 == b,
                lab == n + d * 9 * b + d * k,
        ;
        assert(lab >= n) by (nonlinear_arith)
            requires
                lab == n + d * 9 * b + d * k,
                d >= 0,
                b >= 0,
                k >= 1,
        ;
    }
}

/// The clock decomposition of a label: `HH:MM:SS:FF` adds back up to it.
proof fn lemma_clock_parts(lab: int, f: int)
    requires
        lab >= 0,
        f >= 1,
    ensures
        ({
            let secs = lab / f;
            let fr = lab % f;
            let h = secs / 3600;
            let m = (secs / 60) % 60;
            let s = secs % 60;
            &&& 0 <= fr < f
            &&& 0 <= m < 60
            &&& 0 <= s < 60
            &&& 0 <= h
            &&& h * 3600 + m * 60 + s == secs
            &&& secs * f + fr == lab
            &&& 0 <= secs <= lab
            &&& h <= lab
            &&& m <= lab
            &&& s <= lab
            &&& fr <= lab
            &&& lab % (60 * f) == f * s + fr
            &&& lab / (60 * f) == secs / 60
        }),
{
    let secs = lab / f;
    let fr = lab % f;
    vstd::arithmetic::div_mod::lemma_fundamental_div_mod(lab, f);
    vstd::arithmetic::div_mod::lemma_div_pos_is_pos(lab, f);
    vstd::arithmetic::div_mod::lemma_div_is_ordered_by_denominator(lab, 1, f);
    vstd::arithmetic::div_mod::lemma_fundamental_div_mod(secs, 60);
    vstd::arithmetic::div_mod::lemma_fundamental_div_mod(secs / 60, 60);
    vstd::arithmetic::div_mod::lemma_div_denominator(secs, 60, 60);
    vstd::arithmetic::div_mod::lemma_div_denominator(lab, f, 60);
    vstd::arithmetic::div_mod::lemma_breakdown(lab, f, 60);
    assert(f * 60 == 60 * f);
    assert(lab % f <= lab) by {
        vstd::arithmetic::div_mod::lemma_mod_decreases(lab as nat, f as nat);
    }
}

/// A run of digits is its own trim.
proof fn lemma_trim_digits(s: Seq<char>)
    requires
        s.len() >= 1,
        all_digits(s),
    ensures
        trim(s) == s,
{
    assert(!is_white_space(s[0]));
    assert(trim_start(s) == s);
    assert(!is_white_space(s.last()));
}

/// A padded number reads back as itself.
proof fn lemma_parse_pad2(x: nat)
    requires
        x <= i64_max(),
    ensures
        parse_i64(trim(pad2(x))) == Some(x as int),
        forall|i: int| 0 <= i < pad2(x).len() ==> !(#[trigger] timecode_separator()(pad2(x)[i])),
{
    lemma_pad2(x);
    lemma_trim_digits(pad2(x));
    let s = pad2(x);
    assert(s[0] != '-' && s[0] != '+');
    assert forall|i: int| 0 <= i < pad2(x).len() implies !(#[trigger] timecode_separator()(
        pad2(x)[i],
    )) by {
        assert(is_ascii_digit(s[i]));
    }
}

/// Every frame reads back from its own timecode: `frames_from_timecode`
/// undoes `timecode` for each frame `n >= 0` whose label fits an `i64`, and
/// the reading stays inside `i64`.
pub proof fn lemma_timecode_round_trip(tb: Timebase, n: int)
    requires
        n >= 0,
        label_of(tb, n) <= i64_max(),
    ensures
        frames_from_timecode_spec(tb, timecode_text(tb, n)) == Some(n),
        timecode_fits(tb, timecode_text(tb, n)),
{
    let f = nominal_fps_of(tb) as int;
    lemma_dropped_bounds(tb);
    let lab = label_of(tb, n);
    if tb.drop_frame {
        lemma_drop_label(tb, n);
    }
    assert(lab >= n);
    lemma_clock_parts(lab, f);
    let secs = lab / f;
    let fr = lab % f;
    let h = secs / 3600;
    let m = (secs / 60) % 60;
    let s = secs % 60;
    assert(clamp_frame(n) == n);
    let sep = timecode_separator();
    let c = if tb.drop_frame {
        ';'
    } else {
        ':'
    };
    let text = timecode_text(tb, n);
    lemma_parse_pad2(h as nat);
    lemma_parse_pad2(m as nat);
    lemma_parse_pad2(s as nat);
    lemma_parse_pad2(fr as nat);
    let p1 = pad2(h as nat);
    let p2 = pad2(m as nat);
    let p3 = pad2(s as nat);
    let p4 = pad2(fr as nat);
    assert(text == p1 + seq![':'] + p2 + seq![':'] + p3 + seq![c] + p4);
    // Field by field.
    let e = Seq::<char>::empty();
    assert(split_by(e, sep) == seq![e]);
    lemma_split_by_append_plain(e, p1, sep);
    assert(e + p1 =~= p1);
    assert(split_by(p1, sep) =~= seq![p1]);
    let a1 = p1 + seq![':'];
    lemma_split_by_append_sep(p1, ':', sep);
    assert(p1.push(':') =~= a1);
    assert(split_by(a1, sep) =~= seq![p1, e]);
    lemma_split_by_append_plain(a1, p2, sep);
    assert(split_by(a1 + p2, sep) =~= seq![p1, p2]);
    let a2 = a1 + p2 + seq![':'];
    lemma_split_by_append_sep(a1 + p2, ':', sep);
    assert((a1 + p2).push(':') =~= a2);
    assert(split_by(a2, sep) =~= seq![p1, p2, e]);
    lemma_split_by_append_plain(a2, p3, sep);
    assert(split_by(a2 + p3, sep) =~= seq![p1, p2, p3]);
    let a3 = a2 + p3 + seq![c];
    lemma_split_by_append_sep(a2 + p3, c, sep);
    assert((a2 + p3).push(c) =~= a3);
    assert(split_by(a3, sep) =~= seq![p1, p2, p3, e]);
    lemma_split_by_append_plain(a3, p4, sep);
    assert(a3 + p4 =~= text);
    let fields = split_by(text, sep);
    assert(fields =~= seq![p1, p2, p3, p4]);
    let vals = seq![h, m, s, fr];
    assert(timecode_fields(text) == Some(vals)) by {
        assert(forall|i: int| 0 <= i < fields.len() ==> parse_i64(trim(#[trigger] fields[i])) is Some)
            by {
            assert forall|i: int| 0 <= i < fields.len() implies parse_i64(
                trim(#[trigger] fields[i]),
            ) is Some by {
                if i == 0 {
                } else if i == 1 {
                } else if i == 2 {
                } else {
                }
            }
        }
        assert(Seq::new(fields.len(), |i: int| parse_i64(trim(fields[i]))->0) =~= vals);
    }
    assert(all_nonnegative(vals));
    assert(h * 3600 + m * 60 + s == secs);
    if tb.drop_frame {
        assert(!skipped_label(tb, secs, fr)) by {
            if s == 0 {
                let k = secs / 60;
                assert(lab == (60 * f) * k + fr) by (nonlinear_arith)
                    requires
                        lab == secs * f + fr,
                        secs == 60 * k + s,
                        s == 0,
                ;
                assert(lab % (60 * f) == fr) by (nonlinear_arith)
                    requires
                        lab == (60 * f) * k + fr,
                        0 <= fr < f,
                        f >= 1,
                        k >= 0,
                ;
            }
        }
        assert(clock_frames(tb, secs, fr) == Some(n));
    } else {
        assert(clock_frames(tb, secs, fr) == Some(n));
    }
}


// ---------------------------------------------------------------------------
// Reduced fractions
// ---------------------------------------------------------------------------

/// `c` divides `x`.
pub open spec fn divides(c: int, x: int) -> bool {
    exists|k: int| #[trigger] times(c, k) == x
}

pub open spec fn times(c: int, k: int) -> int {
    c * k
}

/// Divisors of both terms divide their combinations.
proof fn lemma_divides_combination(c: int, x: int, y: int, q: int)
    requires
        divides(c, x),
        divides(c, y),
    ensures
        divides(c, x * q + y),
        divides(c, y - x * q),
{
    let kx = choose|k: int| times(c, k) == x;
    let ky = choose|k: int| times(c, k) == y;
    assert(x * q + y == c * (kx * q + ky)) by (nonlinear_arith)
        requires
            x == c * kx,
            y == c * ky,
    ;
    assert(y - x * q == c * (ky - kx * q)) by (nonlinear_arith)
        requires
            x == c * kx,
            y == c * ky,
    ;
    assert(times(c, kx * q + ky) == x * q + y);
    assert(times(c, ky - kx * q) == y - x * q);
}

/// The gcd divides both terms, and every common divisor divides the gcd.
proof fn lemma_gcd(a: nat, b: nat, c: int)
    ensures
        divides(gcd_spec(a, b) as int, a as int),
        divides(gcd_spec(a, b) as int, b as int),
        (a > 0 || b > 0) ==> gcd_spec(a, b) > 0,
        divides(c, a as int) && divides(c, b as int) ==> divides(c, gcd_spec(a, b) as int),
    decreases b,
{
    if b == 0 {
        assert(times(gcd_spec(a, b) as int, 1) == a as int);
        assert(times(gcd_spec(a, b) as int, 0) == 0);
    } else {
        let r = a % b;
        lemma_gcd(b, r, c);
        let g = gcd_spec(a, b) as int;
        vstd::arithmetic::div_mod::lemma_fundamental_div_mod(a as int, b as int);
        assert(a as int == b as int * (a as int / b as int) + r);
        lemma_divides_combination(g, b as int, r as int, a as int / b as int);
        assert(b as int * (a as int / b as int) == (b as int) * (a as int / b as int));
        if divides(c, a as int) && divides(c, b as int) {
            lemma_divides_combination(c, b as int, a as int, a as int / b as int);
            assert(r as int == a as int - b as int * (a as int / b as int));
        }
    }
}

/// `Timebase::new` keeps the rate and leaves the fraction in lowest terms:
/// for positive terms `n / d`, the result `n' / d'` has `n' * d == d' * n`,
/// both terms positive, and no common divisor but one.
pub proof fn lemma_new_reduces(n: nat, d: nat)
    requires
        n > 0,
        d > 0,
    ensures
        ({
            let g = reduce_divisor(n, d);
            let n2 = n / g;
            let d2 = d / g;
            &&& n2 > 0 && d2 > 0
            &&& n2 * d == d2 * n
            &&& gcd_spec(n2, d2) == 1
        }),
{
    let g = gcd_spec(n, d);
    lemma_gcd(n, d, 1);
    assert(g > 0);
    assert(reduce_divisor(n, d) == g);
    let kn = choose|k: int| times(g as int, k) == n as int;
    let kd = choose|k: int| times(g as int, k) == d as int;
    assert(n as int / g as int == kn && d as int / g as int == kd) by {
        vstd::arithmetic::div_mod::lemma_div_multiples_vanish(kn, g as int);
        vstd::arithmetic::div_mod::lemma_div_multiples_vanish(kd, g as int);
        assert(g as int * kn == kn * g as int) by (nonlinear_arith);
        assert(g as int * kd == kd * g as int) by (nonlinear_arith);
    }
    assert(kn > 0 && kd > 0) by (nonlinear_arith)
        requires
            n as int == g as int * kn,
            d as int == g as int * kd,
            n > 0,
            d > 0,
            g > 0,
    ;
    let n2 = (n / g) as nat;
    let d2 = (d / g) as nat;
    assert(n2 * d == d2 * n) by (nonlinear_arith)
        requires
            n as int == g as int * kn,
            d as int == g as int * kd,
            n2 == kn,
            d2 == kd,
    ;
    let g2 = gcd_spec(n2, d2);
    lemma_gcd(n2, d2, 1);
    assert(g2 > 0);
    let an = choose|k: int| times(g2 as int, k) == n2 as int;
    let ad = choose|k: int| times(g2 as int, k) == d2 as int;
    let c = g as int * g2 as int;
    assert(n as int == c * an && d as int == c * ad) by (nonlinear_arith)
        requires
            n as int == g as int * kn,
            d as int == g as int * kd,
            n2 == kn,
            d2 == kd,
            n2 as int == g2 as int * an,
            d2 as int == g2 as int * ad,
            c == g as int * g2 as int,
    ;
    assert(times(c, an) == n as int);
    assert(times(c, ad) == d as int);
    lemma_gcd(n, d, c);
    let kg = choose|k: int| times(c, k) == g as int;
    assert(g2 == 1) by (nonlinear_arith)
        requires
            g as int == c * kg,
            c == g as int * g2 as int,
            g > 0,
            g2 > 0,
    {
        assert(g as int == g as int * (g2 as int * kg));
        assert(g2 as int * kg == 1);
    }
}

/// The last five characters of `t`.
pub open spec fn last_five(t: Seq<char>) -> Seq<char> {
    t.subrange(t.len() - 5, t.len() as int)
}

/// The seconds and frames of a label whose seconds field is zero and whose
/// frames field is `f` (below ten).
proof fn lemma_seconds_and_frames(tb: Timebase, x: int, label: int, fps: int, f: int)
    requires
        tb.drop_frame,
        nominal_fps_of(tb) == fps,
        fps == 30 || fps == 60,
        label_of(tb, clamp_frame(x)) == label,
        label >= 0,
        label % (60 * fps) == f,
        0 <= f < 10,
    ensures
        last_five(timecode_text(tb, x)) == seq!['0', '0', ';', '0', (f + 48) as char],
{
    let total_seconds = label / fps;
    let hours = total_seconds / 3600;
    let minutes = (total_seconds / 60) % 60;
    let seconds = total_seconds % 60;
    assert(label % fps == f && seconds == 0) by (nonlinear_arith)
        requires
            label >= 0,
            fps == 30 || fps == 60,
            label % (60 * fps) == f,
            0 <= f < 10,
            total_seconds == label / fps,
            seconds == total_seconds % 60,
    ;
    lemma_pad2(hours as nat);
    lemma_pad2(minutes as nat);
    let t = timecode_text(tb, x);
    let a = pad2(hours as nat) + seq![':'] + pad2(minutes as nat) + seq![':'];
    assert(pad2(0) =~= seq!['0', '0']);
    assert(pad2(f as nat) =~= seq!['0', (f + 48) as char]) by {
        reveal_with_fuel(decimal, 2);
        assert(crate::text::digit_char(f as nat) == (f + 48) as char);
    }
    assert(t =~= a + seq!['0', '0', ';', '0', (f + 48) as char]);
}

/// At 59.94 frames per second with drop frame (nominal 60), four labels are
/// skipped at the start of every minute but each tenth. The first frame of
/// minute `10 b + k` (`k` from 1 to 9) is frame `35964 b + 3600 + 3596 (k -
/// 1)`: its label comes four after that of the frame before it, and it reads
/// `..:00;04`. The first frame of every tenth minute, frame `35964 b`, reads
/// `..:00;00`.
pub proof fn lemma_drop_frame_59_94(tb: Timebase, b: int, k: int)
    requires
        b >= 0,
        tb.drop_frame,
        nominal_fps_of(tb) == 60,
        1 <= k <= 9,
    ensures
        label_of(tb, 35964 * b + 3600 + 3596 * (k - 1)) == 36000 * b + 3600 * k + 4,
        label_of(tb, 35964 * b + 3600 + 3596 * (k - 1) - 1) == 36000 * b + 3600 * k - 1,
        last_five(timecode_text(tb, 35964 * b + 3600 + 3596 * (k - 1))) == seq!['0', '0', ';', '0', '4'],
        label_of(tb, 35964 * b) == 36000 * b,
        last_five(timecode_text(tb, 35964 * b)) == seq!['0', '0', ';', '0', '0'],
{
    let x = 35964 * b + 3600 + 3596 * (k - 1);
    assert(dropped_per_minute(tb) == 4);
    let fps = nominal_fps_of(tb) as int;
    assert(fps * 600 - 4 * 9 == 35964 && fps * 60 - 4 == 3596);
    assert(4 * 9 * b == 36 * b);
    assert(4 * ((3600 + 3596 * (k - 1) - 4) / 3596) == 4 * k);
    assert(x / 35964 == b && x % 35964 == 3600 + 3596 * (k - 1));
    assert((3600 + 3596 * (k - 1) - 4) / 3596 == k);
    assert((x - 1) / 35964 == b && (x - 1) % 35964 == 3599 + 3596 * (k - 1));
    assert((3599 + 3596 * (k - 1) - 4) / 3596 == k - 1);
    assert((35964 * b) / 35964 == b && (35964 * b) % 35964 == 0);
    assert((36000 * b + 3600 * k + 4) % 3600 == 4);
    assert((36000 * b) % 3600 == 0);
    assert(clamp_frame(x) == x && clamp_frame(35964 * b) == 35964 * b);
    assert(label_of(tb, x) == 36000 * b + 3600 * k + 4);
    lemma_seconds_and_frames(tb, x, 36000 * b + 3600 * k + 4, 60, 4);
    lemma_seconds_and_frames(tb, 35964 * b, 36000 * b, 60, 0);
}

/// At 29.97 frames per second with drop frame (nominal 30), two labels are
/// skipped at the start of every minute but each tenth. The first frame of
/// minute `10 b + k` (`k` from 1 to 9) is frame `17982 b + 1800 + 1798 (k -
/// 1)`: its label comes two after that of the frame before it, and it reads
/// `..:00;02`. The first frame of every tenth minute, frame `17982 b`, reads
/// `..:00;00`.
pub proof fn lemma_drop_frame_29_97(tb: Timebase, b: int, k: int)
    requires
        b >= 0,
        tb.drop_frame,
        nominal_fps_of(tb) == 30,
        1 <= k <= 9,
    ensures
        label_of(tb, 17982 * b + 1800 + 1798 * (k - 1)) == 18000 * b + 1800 * k + 2,
        label_of(tb, 17982 * b + 1800 + 1798 * (k - 1) - 1) == 18000 * b + 1800 * k - 1,
        last_five(timecode_text(tb, 17982 * b + 1800 + 1798 * (k - 1))) == seq!['0', '0', ';', '0', '2'],
        label_of(tb, 17982 * b) == 18000 * b,
        last_five(timecode_text(tb, 17982 * b)) == seq!['0', '0', ';', '0', '0'],
{
    let x = 17982 * b + 1800 + 1798 * (k - 1);
    assert(dropped_per_minute(tb) == 2);
    let fps = nominal_fps_of(tb) as int;
    assert(fps * 600 - 2 * 9 == 17982 && fps * 60 - 2 == 1798);
    assert(2 * 9 * b == 18 * b);
    assert(2 * ((1800 + 1798 * (k - 1) - 2) / 1798) == 2 * k);
    assert(x / 17982 == b && x % 17982 == 1800 + 1798 * (k - 1));
    assert((1800 + 1798 * (k - 1) - 2) / 1798 == k);
    assert((x - 1) / 17982 == b && (x - 1) % 17982 == 1799 + 1798 * (k - 1));
    assert((1799 + 1798 * (k - 1) - 2) / 1798 == k - 1);
    assert((17982 * b) / 17982 == b && (17982 * b) % 17982 == 0);
    assert((18000 * b + 1800 * k + 2) % 1800 == 2);
    assert((18000 * b) % 1800 == 0);
    assert(clamp_frame(x) == x && clamp_frame(17982 * b) == 17982 * b);
    assert(label_of(tb, x) == 18000 * b + 1800 * k + 2);
    assert(label_of(tb, 17982 * b) == 18000 * b);
    lemma_seconds_and_frames(tb, x, 18000 * b + 1800 * k + 2, 30, 2);
    lemma_seconds_and_frames(tb, 17982 * b, 18000 * b, 30, 0);
}

} // verus!
