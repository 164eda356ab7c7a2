//! The timeline: sequences of tracks of clips, edited with undo and redo.
//! Rates, opacities, volumes, speeds and transforms are held by the bits of
//! their floating-point values; the sequences are kept in a list of
//! `(key, sequence)` entries, looked up by the first entry with a key.
use vstd::prelude::*;
use vstd::arithmetic::power2::{lemma2_to64, lemma2_to64_rest, lemma_pow2_adds, lemma_pow2_pos, lemma_pow2_strictly_increases, pow2};
use crate::rounding::{f64_of, f64_of_wide};
use crate::text::{chars_to_string, decimal, parse_usize, parse_usize_chars, push_decimal, push_str, to_chars, chars_equal};

verus! {

/// What a track carries.
#[derive(Debug, Clone, Copy, PartialEq, Eq, Structural)]
pub enum TrackType {
    Video,
    Audio,
}

/// Position, scale and rotation of a clip (bits of doubles).
#[derive(Debug, Clone, Copy, PartialEq, Eq, Structural)]
pub struct Transform {
    pub position_x: u64,
    pub position_y: u64,
    pub scale_x: u64,
    pub scale_y: u64,
    pub rotation: u64,
}

impl Default for Transform {
    /// No move, scale one, no rotation.
    fn default() -> (t: Self)
        ensures
            t == (Transform {
                position_x: 0,
                position_y: 0,
                scale_x: 0x3FF0_0000_0000_0000,
                scale_y: 0x3FF0_0000_0000_0000,
                rotation: 0,
            }),
    {
        Transform {
            position_x: 0,
            position_y: 0,
            scale_x: 0x3FF0_0000_0000_0000,
            scale_y: 0x3FF0_0000_0000_0000,
            rotation: 0,
        }
    }
}

/// A clip on a track, from `start_frame` up to `end_frame`. Opacity, volume
/// and speed are the bits of singles.
#[derive(Debug, Clone)]
pub struct Clip {
    pub id: String,
    pub source_path: String,
    pub start_frame: u64,
    pub end_frame: u64,
    pub track_index: usize,
    pub enabled: bool,
    pub opacity: u32,
    pub volume: u32,
    pub speed: u32,
    pub transform: Transform,
}

/// A track and its clips.
#[derive(Debug, Clone)]
pub struct Track {
    pub id: String,
    pub track_type: TrackType,
    pub clips: Vec<Clip>,
    pub muted: bool,
    pub locked: bool,
    pub sync_lock: bool,
}

/// A sequence: its frame size, rate (bits of a double) and tracks.
#[derive(Debug, Clone)]
pub struct Sequence {
    pub id: String,
    pub name: String,
    pub width: u32,
    pub height: u32,
    pub fps: u64,
    pub duration_frames: u64,
    pub tracks: Vec<Track>,
    pub nested_sequences: Vec<String>,
}

/// An edit, as the undo and redo stacks keep it.
#[derive(Debug, Clone)]
pub enum TimelineCommand {
    AddClip { clip: Clip, sequence_id: String },
    RemoveClip { clip_id: String, sequence_id: String, track_index: usize },
    MoveClip { clip_id: String, from_frame: u64, to_frame: u64 },
    SplitClip { clip_id: String, split_frame: u64 },
    RippleDelete { clip_id: String, sequence_id: String },
    SetTransform { clip_id: String, transform: Transform },
    SetSpeed { clip_id: String, speed: u32 },
    ToggleMute { track_id: String },
    ToggleLock { track_id: String },
}

/// The sequences, the one being edited, the playhead and the edit history.
/// The zoom level is the bits of a single. The sequences are a list of
/// `(key, sequence)` entries rather than a map by key: text keys have no hashing whose behaviour the contracts can speak of, while a list is a plain sequence of values, so the lookups go
/// through a list whose first entry with a key wins.
#[derive(Debug)]
pub struct Timeline {
    pub sequences: Vec<(String, Sequence)>,
    pub active_sequence: String,
    pub playhead_frame: u64,
    pub zoom_level: u32,
    pub snap_enabled: bool,
    pub snap_threshold: u32,
    pub undo_stack: Vec<TimelineCommand>,
    pub redo_stack: Vec<TimelineCommand>,
    pub max_undo_entries: usize,
}

// ---------------------------------------------------------------------------
// Views
// ---------------------------------------------------------------------------

pub struct ClipView {
    pub id: Seq<char>,
    pub source_path: Seq<char>,
    pub start_frame: u64,
    pub end_frame: u64,
    pub track_index: usize,
    pub enabled: bool,
    pub opacity: u32,
    pub volume: u32,
    pub speed: u32,
    pub transform: Transform,
}

pub open spec fn clip_view(c: Clip) -> ClipView {
    ClipView {
        id: c.id@,
        source_path: c.source_path@,
        start_frame: c.start_frame,
        end_frame: c.end_frame,
        track_index: c.track_index,
        enabled: c.enabled,
        opacity: c.opacity,
        volume: c.volume,
        speed: c.speed,
        transform: c.transform,
    }
}

pub open spec fn clips_view(v: Seq<Clip>) -> Seq<ClipView> {
    v.map_values(|c: Clip| clip_view(c))
}

#[verifier::ext_equal]
pub struct TrackView {
    pub id: Seq<char>,
    pub track_type: TrackType,
    pub clips: Seq<ClipView>,
    pub muted: bool,
    pub locked: bool,
    pub sync_lock: bool,
}

pub open spec fn track_view(t: Track) -> TrackView {
    TrackView {
        id: t.id@,
        track_type: t.track_type,
        clips: clips_view(t.clips@),
        muted: t.muted,
        locked: t.locked,
        sync_lock: t.sync_lock,
    }
}

pub open spec fn tracks_view(v: Seq<Track>) -> Seq<TrackView> {
    v.map_values(|t: Track| track_view(t))
}

#[verifier::ext_equal]
pub struct SequenceView {
    pub id: Seq<char>,
    pub name: Seq<char>,
    pub width: u32,
    pub height: u32,
    pub fps: u64,
    pub duration_frames: u64,
    pub tracks: Seq<TrackView>,
    pub nested_sequences: Seq<Seq<char>>,
}

pub open spec fn sequence_view(s: Sequence) -> SequenceView {
    SequenceView {
        id: s.id@,
        name: s.name@,
        width: s.width,
        height: s.height,
        fps: s.fps,
        duration_frames: s.duration_frames,
        tracks: tracks_view(s.tracks@),
        nested_sequences: s.nested_sequences@.map_values(|n: String| n@),
    }
}

pub open spec fn entries_view(v: Seq<(String, Sequence)>) -> Seq<(Seq<char>, SequenceView)> {
    v.map_values(|e: (String, Sequence)| (e.0@, sequence_view(e.1)))
}

pub enum CommandView {
    AddClip { clip: ClipView, sequence_id: Seq<char> },
    RemoveClip { clip_id: Seq<char>, sequence_id: Seq<char>, track_index: usize },
    MoveClip { clip_id: Seq<char>, from_frame: u64, to_frame: u64 },
    SplitClip { clip_id: Seq<char>, split_frame: u64 },
    RippleDelete { clip_id: Seq<char>, sequence_id: Seq<char> },
    SetTransform { clip_id: Seq<char>, transform: Transform },
    SetSpeed { clip_id: Seq<char>, speed: u32 },
    ToggleMute { track_id: Seq<char> },
    ToggleLock { track_id: Seq<char> },
}

pub open spec fn command_view(c: TimelineCommand) -> CommandView {
    match c {
        TimelineCommand::AddClip { clip, sequence_id } => CommandView::AddClip {
            clip: clip_view(clip),
            sequence_id: sequence_id@,
        },
        TimelineCommand::RemoveClip { clip_id, sequence_id, track_index } => CommandView::RemoveClip {
            clip_id: clip_id@,
            sequence_id: sequence_id@,
            track_index,
        },
        TimelineCommand::MoveClip { clip_id, from_frame, to_frame } => CommandView::MoveClip {
            clip_id: clip_id@,
            from_frame,
            to_frame,
        },
        TimelineCommand::SplitClip { clip_id, split_frame } => CommandView::SplitClip {
            clip_id: clip_id@,
            split_frame,
        },
        TimelineCommand::RippleDelete { clip_id, sequence_id } => CommandView::RippleDelete {
            clip_id: clip_id@,
            sequence_id: sequence_id@,
        },
        TimelineCommand::SetTransform { clip_id, transform } => CommandView::SetTransform {
            clip_id: clip_id@,
            transform,
        },
        TimelineCommand::SetSpeed { clip_id, speed } => CommandView::SetSpeed { clip_id: clip_id@, speed },
        TimelineCommand::ToggleMute { track_id } => CommandView::ToggleMute { track_id: track_id@ },
        TimelineCommand::ToggleLock { track_id } => CommandView::ToggleLock { track_id: track_id@ },
    }
}

pub open spec fn commands_view(v: Seq<TimelineCommand>) -> Seq<CommandView> {
    v.map_values(|c: TimelineCommand| command_view(c))
}

#[verifier::ext_equal]
pub struct TimelineView {
    pub sequences: Seq<(Seq<char>, SequenceView)>,
    pub active: Seq<char>,
    pub playhead: u64,
    pub zoom_level: u32,
    pub snap_enabled: bool,
    pub snap_threshold: u32,
    pub undo: Seq<CommandView>,
    pub redo: Seq<CommandView>,
    pub max_undo: usize,
}

impl View for Timeline {
    type V = TimelineView;

    open spec fn view(&self) -> TimelineView {
        TimelineView {
            sequences: entries_view(self.sequences@),
            active: self.active_sequence@,
            playhead: self.playhead_frame,
            zoom_level: self.zoom_level,
            snap_enabled: self.snap_enabled,
            snap_threshold: self.snap_threshold,
            undo: commands_view(self.undo_stack@),
            redo: commands_view(self.redo_stack@),
            max_undo: self.max_undo_entries,
        }
    }
}

// ---------------------------------------------------------------------------
// Copies
// ---------------------------------------------------------------------------

fn copy_text(s: &String) -> (r: String)
    ensures
        r@ == s@,
{
    let chars = to_chars(s.as_str());
    chars_to_string(&chars)
}

impl Clip {
    /// A copy of the clip.
    pub fn duplicate(&self) -> (r: Clip)
        ensures
            clip_view(r) == clip_view(*self),
    {
        Clip {
            id: copy_text(&self.id),
            source_path: copy_text(&self.source_path),
            start_frame: self.start_frame,
            end_frame: self.end_frame,
            track_index: self.track_index,
            enabled: self.enabled,
            opacity: self.opacity,
            volume: self.volume,
            speed: self.speed,
            transform: self.transform,
        }
    }
}

impl TimelineCommand {
    /// A copy of the command.
    pub fn duplicate(&self) -> (r: TimelineCommand)
        ensures
            command_view(r) == command_view(*self),
    {
        match self {
            TimelineCommand::AddClip { clip, sequence_id } => TimelineCommand::AddClip {
                clip: clip.duplicate(),
                sequence_id: copy_text(sequence_id),
            },
            TimelineCommand::RemoveClip { clip_id, sequence_id, track_index } => TimelineCommand::RemoveClip {
                clip_id: copy_text(clip_id),
                sequence_id: copy_text(sequence_id),
                track_index: *track_index,
            },
            TimelineCommand::MoveClip { clip_id, from_frame, to_frame } => TimelineCommand::MoveClip {
                clip_id: copy_text(clip_id),
                from_frame: *from_frame,
                to_frame: *to_frame,
            },
            TimelineCommand::SplitClip { clip_id, split_frame } => TimelineCommand::SplitClip {
                clip_id: copy_text(clip_id),
                split_frame: *split_frame,
            },
            TimelineCommand::RippleDelete { clip_id, sequence_id } => TimelineCommand::RippleDelete {
                clip_id: copy_text(clip_id),
                sequence_id: copy_text(sequence_id),
            },
            TimelineCommand::SetTransform { clip_id, transform } => TimelineCommand::SetTransform {
                clip_id: copy_text(clip_id),
                transform: *transform,
            },
            TimelineCommand::SetSpeed { clip_id, speed } => TimelineCommand::SetSpeed {
                clip_id: copy_text(clip_id),
                speed: *speed,
            },
            TimelineCommand::ToggleMute { track_id } => TimelineCommand::ToggleMute { track_id: copy_text(track_id) },
            TimelineCommand::ToggleLock { track_id } => TimelineCommand::ToggleLock { track_id: copy_text(track_id) },
        }
    }
}

// ---------------------------------------------------------------------------
// The frames of an hour
// ---------------------------------------------------------------------------

/// The frames of an hour at `fps` (the bits of a double), as `fps * 3600.0`
/// converted to `u64` gives them: the product rounded to a double, its
/// integer part, saturating at the bounds of `u64`; zero for a negative rate
/// or NaN.
pub open spec fn hour_frames(fps: u64) -> u64 {
    let exponent = (fps / 0x10_0000_0000_0000) % 0x800;
    let fraction = fps % 0x10_0000_0000_0000;
    if fps >= 0x8000_0000_0000_0000 {
        0
    } else if exponent == 0x7ff {
        if fraction == 0 {
            u64::MAX
        } else {
            0
        }
    } else {
        let significand: nat = if exponent == 0 {
            fraction as nat
        } else {
            (fraction + 0x10_0000_0000_0000) as nat
        };
        let scale: int = if exponent == 0 {
            1 - 1075
        } else {
            exponent - 1075
        };
        let rounded = f64_of(significand * 3600);
        let whole: nat = if scale >= 0 {
            rounded * pow2(scale as nat)
        } else {
            rounded / pow2((-scale) as nat)
        };
        if whole > u64::MAX {
            u64::MAX
        } else {
            whole as u64
        }
    }
}

/// `2^k`.
fn pow2_exec(k: u64) -> (p: u128)
    requires
        k <= 70,
    ensures
        p == pow2(k as nat),
        p >= 1,
{
    let mut p: u128 = 1;
    let mut i: u64 = 0;
    proof {
        lemma2_to64();
        lemma2_to64_rest();
        lemma_pow2_adds(64, 6);
    }
    while i < k
        invariant
            i <= k <= 70,
            p == pow2(i as nat),
            p >= 1,
            pow2(70) == 0x40_0000_0000_0000_0000,
        decreases k - i,
    {
        proof {
            lemma_pow2_adds(i as nat, 1);
            lemma2_to64();
            if i + 1 < 70 {
                lemma_pow2_strictly_increases((i + 1) as nat, 70);
            }
        }
        p = p * 2;
        i = i + 1;
    }
    p
}

fn hour_frames_exec(fps: u64) -> (r: u64)
    ensures
        r == hour_frames(fps),
{
    if fps >= 0x8000_0000_0000_0000 {
        return 0;
    }
    let exponent = (fps / 0x10_0000_0000_0000) % 0x800;
    let fraction = fps % 0x10_0000_0000_0000;
    if exponent == 0x7ff {
        return if fraction == 0 {
            u64::MAX
        } else {
            0
        };
    }
    let significand: u128 = if exponent == 0 {
        fraction as u128
    } else {
        (fraction + 0x10_0000_0000_0000) as u128
    };
    let rounded = f64_of_wide(significand * 3600);
    proof {
        lemma2_to64();
        lemma2_to64_rest();
    }
    if rounded == 0 {
        proof {
            let up = (exponent - 1075) as nat;
            let down = (if exponent == 0 {
                1074
            } else {
                1075 - exponent
            }) as nat;
            lemma_pow2_pos(down);
            assert(rounded * pow2(up) == 0) by (nonlinear_arith)
                requires
                    rounded == 0,
            ;
            assert((rounded as nat) / pow2(down) == 0) by (nonlinear_arith)
                requires
                    rounded == 0,
                    pow2(down) > 0,
            ;
        }
        return 0;
    }
    if exponent >= 1075 {
        let shift = exponent - 1075;
        if shift >= 64 {
            proof {
                if shift > 64 {
                    lemma_pow2_strictly_increases(64, shift as nat);
                }
                assert(rounded * pow2(shift as nat) >= pow2(shift as nat)) by (nonlinear_arith)
                    requires
                        rounded >= 1,
                ;
            }
            return u64::MAX;
        }
        let p = pow2_exec(shift);
        if rounded > 0xFFFF_FFFF_FFFF_FFFF / p {
            assert(rounded * p > 0xFFFF_FFFF_FFFF_FFFF) by (nonlinear_arith)
                requires
                    rounded > 0xFFFF_FFFF_FFFF_FFFFu128 / p,
                    p >= 1,
            ;
            u64::MAX
        } else {
            assert(rounded * p <= 0xFFFF_FFFF_FFFF_FFFF) by (nonlinear_arith)
                requires
                    rounded <= 0xFFFF_FFFF_FFFF_FFFFu128 / p,
                    p >= 1,
            ;
            (rounded * p) as u64
        }
    } else {
        let shift: u64 = if exponent == 0 {
            1074
        } else {
            1075 - exponent
        };
        if shift >= 67 {
            proof {
                lemma_pow2_adds(64, 3);
                if shift > 67 {
                    lemma_pow2_strictly_increases(67, shift as nat);
                }
                assert((rounded as nat) / pow2(shift as nat) == 0) by (nonlinear_arith)
                    requires
                        rounded < pow2(shift as nat),
                ;
            }
            return 0;
        }
        let p = pow2_exec(shift);
        let q = rounded / p;
        if q > 0xFFFF_FFFF_FFFF_FFFF {
            u64::MAX
        } else {
            q as u64
        }
    }
}

// ---------------------------------------------------------------------------
// Finding things
// ---------------------------------------------------------------------------

/// The first position from `i` on whose element satisfies `p`.
pub open spec fn first_from<T>(s: Seq<T>, p: spec_fn(T) -> bool, i: nat) -> Option<int>
    decreases s.len() - i,
{
    if i >= s.len() {
        None
    } else if p(s[i as int]) {
        Some(i as int)
    } else {
        first_from(s, p, i + 1)
    }
}

/// What `first_from` finds: the first satisfying position, or that none
/// satisfies.
pub proof fn lemma_first_from<T>(s: Seq<T>, p: spec_fn(T) -> bool, i: nat)
    ensures
        match first_from(s, p, i) {
            Some(k) => i <= k < s.len() && p(s[k]) && forall|j: int| i <= j < k ==> !p(#[trigger] s[j]),
            None => forall|j: int| i <= j < s.len() ==> !p(#[trigger] s[j]),
        },
    decreases s.len() - i,
{
    if i < s.len() && !p(s[i as int]) {
        lemma_first_from(s, p, i + 1);
    }
}

/// A position with nothing satisfying before it, from `i` on, is what
/// `first_from` finds (or the end, when nothing does).
pub proof fn lemma_first_at<T>(s: Seq<T>, p: spec_fn(T) -> bool, i: nat, k: nat)
    requires
        i <= k <= s.len(),
        forall|j: int| i <= j < k ==> !p(#[trigger] s[j]),
        k == s.len() || p(s[k as int]),
    ensures
        first_from(s, p, i) == (if k < s.len() {
            Some(k as int)
        } else {
            None
        }),
    decreases k - i,
{
    if i < k {
        lemma_first_at(s, p, i + 1, k);
    }
}

/// An entry keyed `key`.
pub open spec fn keyed(key: Seq<char>) -> spec_fn((Seq<char>, SequenceView)) -> bool {
    |e: (Seq<char>, SequenceView)| e.0 == key
}

/// A clip called `id`.
pub open spec fn named(id: Seq<char>) -> spec_fn(ClipView) -> bool {
    |c: ClipView| c.id == id
}

/// A track with a clip called `id`.
pub open spec fn holding(id: Seq<char>) -> spec_fn(TrackView) -> bool {
    |t: TrackView| first_from(t.clips, named(id), 0) is Some
}

/// The entry of the sequence being edited.
pub open spec fn active_entry(t: TimelineView) -> Option<int> {
    first_from(t.sequences, keyed(t.active), 0)
}

/// The tracks of the sequence being edited (where there is one).
pub open spec fn active_tracks(t: TimelineView) -> Seq<TrackView> {
    t.sequences[active_entry(t)->0].1.tracks
}

/// Where the clip `id` is: the first track holding it and its first place
/// there.
pub open spec fn clip_place(tracks: Seq<TrackView>, id: Seq<char>) -> Option<(int, int)> {
    match first_from(tracks, holding(id), 0) {
        Some(k) => Some((k, first_from(tracks[k].clips, named(id), 0)->0)),
        None => None,
    }
}

/// The timeline with the tracks of entry `e` replaced.
pub open spec fn with_tracks(t: TimelineView, e: int, tracks: Seq<TrackView>) -> TimelineView {
    TimelineView {
        sequences: t.sequences.update(e, (t.sequences[e].0, SequenceView { tracks, ..t.sequences[e].1 })),
        ..t
    }
}

/// A track with its clips replaced.
pub open spec fn with_clips(track: TrackView, clips: Seq<ClipView>) -> TrackView {
    TrackView { clips, ..track }
}

// ---------------------------------------------------------------------------
// Track numbers
// ---------------------------------------------------------------------------

/// The position of the last `c` in `s`.
pub open spec fn last_index(s: Seq<char>, c: char) -> Option<int>
    decreases s.len(),
{
    if s.len() == 0 {
        None
    } else if s.last() == c {
        Some(s.len() - 1)
    } else {
        last_index(s.drop_last(), c)
    }
}

/// The number a track identifier ends in: what follows its last `_`, read
/// as a `usize`.
pub open spec fn track_number(id: Seq<char>) -> Option<int> {
    match last_index(id, '_') {
        Some(k) => parse_usize(id.skip(k + 1)),
        None => None,
    }
}

/// The tracks of all the entries, in order.
pub open spec fn all_tracks(entries: Seq<(Seq<char>, SequenceView)>) -> Seq<TrackView>
    decreases entries.len(),
{
    if entries.len() == 0 {
        Seq::empty()
    } else {
        all_tracks(entries.drop_last()) + entries.last().1.tracks
    }
}

pub open spec fn larger(a: Option<int>, b: Option<int>) -> Option<int> {
    match (a, b) {
        (Some(x), Some(y)) => Some(if x >= y {
            x
        } else {
            y
        }),
        (Some(x), None) => Some(x),
        (None, y) => y,
    }
}

/// The highest number any of the tracks ends in.
pub open spec fn highest_number(tracks: Seq<TrackView>) -> Option<int>
    decreases tracks.len(),
{
    if tracks.len() == 0 {
        None
    } else {
        larger(highest_number(tracks.drop_last()), track_number(tracks.last().id))
    }
}

/// The number the next track takes: one past the highest, or zero.
pub open spec fn next_track_number(t: TimelineView) -> int {
    match highest_number(all_tracks(t.sequences)) {
        Some(m) => m + 1,
        None => 0,
    }
}

/// The next number can be written in a `usize`.
pub open spec fn numbering_fits(t: TimelineView) -> bool {
    next_track_number(t) <= usize::MAX
}

fn last_underscore(s: &Vec<char>) -> (r: Option<usize>)
    ensures
        r matches Some(k) ==> last_index(s@, '_') == Some(k as int) && k < s.len(),
        r is None ==> last_index(s@, '_') is None,
{
    let mut k = s.len();
    assert(s@.take(k as int) =~= s@);
    while k > 0
        invariant
            k <= s.len(),
            last_index(s@, '_') == last_index(s@.take(k as int), '_'),
        decreases k,
    {
        let ghost t = s@.take(k as int);
        if s[k - 1] == '_' {
            assert(t.last() == '_');
            return Some(k - 1);
        }
        assert(t.drop_last() =~= s@.take(k - 1));
        k = k - 1;
    }
    None
}

fn track_number_of(id: &String) -> (r: Option<usize>)
    ensures
        r matches Some(n) ==> track_number(id@) == Some(n as int),
        r is None ==> track_number(id@) is None,
{
    let chars = to_chars(id.as_str());
    match last_underscore(&chars) {
        None => None,
        Some(k) => {
            let tail = crate::text::slice_of(&chars, k + 1, chars.len());
            assert(tail@ =~= id@.skip(k + 1));
            parse_usize_chars(&tail)
        },
    }
}

impl Timeline {
    /// The highest number a track identifier ends in, over all sequences.
    fn highest_track_number(&self) -> (r: Option<usize>)
        ensures
            r matches Some(b) ==> highest_number(all_tracks(self@.sequences)) == Some(b as int),
            r is None ==> highest_number(all_tracks(self@.sequences)) is None,
    {
        let ghost entries = self@.sequences;
        let mut best: Option<usize> = None;
        let mut e: usize = 0;
        assert(entries.take(0) =~= Seq::<(Seq<char>, SequenceView)>::empty());
        while e < self.sequences.len()
            invariant
                e <= self.sequences.len(),
                entries == self@.sequences,
                match best {
                    Some(b) => highest_number(all_tracks(entries.take(e as int))) == Some(b as int),
                    None => highest_number(all_tracks(entries.take(e as int))) is None,
                },
            decreases self.sequences.len() - e,
        {
            let tracks = &self.sequences[e].1.tracks;
            let ghost before = all_tracks(entries.take(e as int));
            let ghost tv = tracks_view(tracks@);
            assert(entries[e as int].1.tracks == tv);
            let mut k: usize = 0;
            assert(before + tv.take(0) =~= before);
            while k < tracks.len()
                invariant
                    k <= tracks.len(),
                    tv == tracks_view(tracks@),
                    match best {
                        Some(b) => highest_number(before + tv.take(k as int)) == Some(b as int),
                        None => highest_number(before + tv.take(k as int)) is None,
                    },
                decreases tracks.len() - k,
            {
                let ghost prev = before + tv.take(k as int);
                let ghost next = before + tv.take(k + 1);
                assert(next.drop_last() =~= prev);
                assert(next.last() == track_view(tracks@[k as int]));
                let number = track_number_of(&tracks[k].id);
                best = match (best, number) {
                    (Some(b), Some(x)) => Some(if b >= x {
                        b
                    } else {
                        x
                    }),
                    (Some(b), None) => Some(b),
                    (None, y) => y,
                };
                k = k + 1;
            }
            assert(before + tv.take(tracks.len() as int) =~= before + tv);
            assert(entries.take(e + 1).drop_last() =~= entries.take(e as int));
            assert(all_tracks(entries.take(e + 1)) == before + tv);
            e = e + 1;
        }
        assert(entries.take(self.sequences.len() as int) =~= entries);
        best
    }

    /// The number the next track takes.
    fn next_track_id(&self) -> (n: usize)
        requires
            numbering_fits(self@),
        ensures
            n == next_track_number(self@),
    {
        match self.highest_track_number() {
            Some(b) => b + 1,
            None => 0,
        }
    }

    /// Whether the next track number can be written in a `usize`, which
    /// adding a track asks.
    pub fn can_number_tracks(&self) -> (b: bool)
        ensures
            b == numbering_fits(self@),
    {
        match self.highest_track_number() {
            Some(n) => n < usize::MAX,
            None => true,
        }
    }
}

// ---------------------------------------------------------------------------
// Building
// ---------------------------------------------------------------------------

/// A new, empty track.
pub open spec fn new_track(id: Seq<char>, track_type: TrackType) -> TrackView {
    TrackView { id, track_type, clips: Seq::empty(), muted: false, locked: false, sync_lock: false }
}

/// The timeline once a track is added to the sequence being edited (none
/// is, when it is missing).
pub open spec fn with_new_track(t: TimelineView, id: Seq<char>, track_type: TrackType) -> TimelineView {
    match active_entry(t) {
        Some(e) => with_tracks(t, e, t.sequences[e].1.tracks.push(new_track(id, track_type))),
        None => t,
    }
}

impl Timeline {
    /// A timeline holding one empty sequence, which is the one edited.
    pub fn new(sequence_id: &str, name: &str, width: u32, height: u32, fps: u64) -> (t: Self)
        ensures
            t@ == (TimelineView {
                sequences: seq![
                    (
                        sequence_id@,
                        SequenceView {
                            id: sequence_id@,
                            name: name@,
                            width,
                            height,
                            fps,
                            duration_frames: hour_frames(fps),
                            tracks: Seq::empty(),
                            nested_sequences: Seq::empty(),
                        },
                    ),
                ],
                active: sequence_id@,
                playhead: 0,
                zoom_level: 0x3F80_0000,
                snap_enabled: true,
                snap_threshold: 2,
                undo: Seq::empty(),
                redo: Seq::empty(),
                max_undo: 200,
            }),
    {
        let sequence = Sequence {
            id: sequence_id.to_string(),
            name: name.to_string(),
            width,
            height,
            fps,
            duration_frames: hour_frames_exec(fps),
            tracks: Vec::new(),
            nested_sequences: Vec::new(),
        };
        let mut sequences: Vec<(String, Sequence)> = Vec::new();
        sequences.push((sequence_id.to_string(), sequence));
        let t = Timeline {
            sequences,
            active_sequence: sequence_id.to_string(),
            playhead_frame: 0,
            zoom_level: 0x3F80_0000,
            snap_enabled: true,
            snap_threshold: 2,
            undo_stack: Vec::new(),
            redo_stack: Vec::new(),
            max_undo_entries: 200,
        };
        assert(t@.sequences[0].1.nested_sequences =~= Seq::<Seq<char>>::empty());
        assert(t@.sequences[0].1.tracks =~= Seq::<TrackView>::empty());
        assert(t@.sequences =~= seq![(sequence_id@, t@.sequences[0].1)]);
        assert(t@.undo =~= Seq::<CommandView>::empty());
        assert(t@.redo =~= Seq::<CommandView>::empty());
        t
    }

    /// The position of the entry being edited.
    fn find_active(&self) -> (r: Option<usize>)
        ensures
            r matches Some(e) ==> active_entry(self@) == Some(e as int) && e < self.sequences.len(),
            r is None ==> active_entry(self@) is None,
    {
        let ghost v = self@.sequences;
        let ghost p = keyed(self@.active);
        let mut i: usize = 0;
        while i < self.sequences.len()
            invariant
                i <= self.sequences.len(),
                v == self@.sequences,
                p == keyed(self@.active),
                forall|j: int| 0 <= j < i ==> !p(#[trigger] v[j]),
            decreases self.sequences.len() - i,
        {
            let key = to_chars(self.sequences[i].0.as_str());
            let active = to_chars(self.active_sequence.as_str());
            if chars_equal(&key, &active) {
                proof {
                    lemma_first_at(v, p, 0, i as nat);
                }
                return Some(i);
            }
            i = i + 1;
        }
        proof {
            lemma_first_at(v, p, 0, i as nat);
        }
        None
    }

    /// Adds a track of `track_type` called `id` to the sequence being edited.
    fn add_track_inner(&mut self, id: &str, track_type: TrackType)
        ensures
            final(self)@ == with_new_track(old(self)@, id@, track_type),
    {
        match self.find_active() {
            Some(e) => {
                let ghost before = self@;
                let (key, mut sequence) = self.sequences.remove(e);
                let track = Track {
                    id: id.to_string(),
                    track_type,
                    clips: Vec::new(),
                    muted: false,
                    locked: false,
                    sync_lock: false,
                };
                assert(track_view(track) == new_track(id@, track_type)) by {
                    assert(clips_view(track.clips@) =~= Seq::<ClipView>::empty());
                }
                sequence.tracks.push(track);
                assert(tracks_view(sequence.tracks@) =~= before.sequences[e as int].1.tracks.push(
                    new_track(id@, track_type),
                ));
                self.sequences.insert(e, (key, sequence));
                assert(self@.sequences =~= with_new_track(before, id@, track_type).sequences);
            },
            None => {},
        }
    }

    fn track_name(prefix: &str, n: usize) -> (r: String)
        ensures
            r@ == prefix@ + decimal(n as nat),
    {
        let mut out: Vec<char> = Vec::new();
        push_str(&mut out, prefix);
        push_decimal(&mut out, n as u64);
        chars_to_string(&out)
    }

    /// Adds a video track `vtrack_<n>` to the sequence being edited and
    /// returns its identifier.
    pub fn add_video_track(&mut self) -> (id: String)
        requires
            numbering_fits(old(self)@),
        ensures
            id@ == "vtrack_"@ + decimal(next_track_number(old(self)@) as nat),
            final(self)@ == with_new_track(old(self)@, id@, TrackType::Video),
    {
        let n = self.next_track_id();
        let id = Self::track_name("vtrack_", n);
        self.add_track_inner(id.as_str(), TrackType::Video);
        id
    }

    /// Adds an audio track `atrack_<n>` to the sequence being edited and
    /// returns its identifier.
    pub fn add_audio_track(&mut self) -> (id: String)
        requires
            numbering_fits(old(self)@),
        ensures
            id@ == "atrack_"@ + decimal(next_track_number(old(self)@) as nat),
            final(self)@ == with_new_track(old(self)@, id@, TrackType::Audio),
    {
        let n = self.next_track_id();
        let id = Self::track_name("atrack_", n);
        self.add_track_inner(id.as_str(), TrackType::Audio);
        id
    }
}

// ---------------------------------------------------------------------------
// History
// ---------------------------------------------------------------------------

/// The timeline once `c` is recorded: it tops the undo stack, which keeps
/// only its last `max_undo` entries, and the redo stack empties.
pub open spec fn pushed(t: TimelineView, c: CommandView) -> TimelineView {
    let u = t.undo.push(c);
    TimelineView {
        undo: if u.len() > t.max_undo {
            u.skip(u.len() - t.max_undo)
        } else {
            u
        },
        redo: Seq::empty(),
        ..t
    }
}

/// The timeline once the last edit is undone: it moves to the redo stack.
pub open spec fn undone(t: TimelineView) -> TimelineView {
    TimelineView { undo: t.undo.drop_last(), redo: t.redo.push(t.undo.last()), ..t }
}

/// The timeline once the last undone edit is redone: it moves back.
pub open spec fn redone(t: TimelineView) -> TimelineView {
    TimelineView { redo: t.redo.drop_last(), undo: t.undo.push(t.redo.last()), ..t }
}

impl Timeline {
    /// Records `cmd` as the last edit.
    fn push_undo(&mut self, cmd: TimelineCommand)
        ensures
            final(self)@ == pushed(old(self)@, command_view(cmd)),
    {
        let ghost before = self@;
        let mut stack: Vec<TimelineCommand> = Vec::new();
        std::mem::swap(&mut stack, &mut self.undo_stack);
        stack.push(cmd);
        let ghost u = stack@;
        assert(commands_view(u) =~= before.undo.push(command_view(cmd)));
        let max = self.max_undo_entries;
        if stack.len() > max {
            let excess = stack.len() - max;
            let mut i: usize = 0;
            while i < excess
                invariant
                    i <= excess,
                    excess == u.len() - max,
                    stack@ == u.skip(i as int),
                decreases excess - i,
            {
                stack.remove(0);
                i = i + 1;
                assert(stack@ =~= u.skip(i as int));
            }
            assert(commands_view(stack@) =~= commands_view(u).skip(excess as int));
        }
        self.undo_stack = stack;
        self.redo_stack = Vec::new();
        assert(self@.redo =~= Seq::<CommandView>::empty());
        assert(self@ =~= pushed(before, command_view(cmd)));
    }

    /// Takes back the last edit and returns it; it can be redone.
    pub fn undo(&mut self) -> (r: Option<TimelineCommand>)
        ensures
            old(self)@.undo.len() == 0 ==> r is None && final(self)@ == old(self)@,
            old(self)@.undo.len() > 0 ==> (r matches Some(c) && command_view(c) == old(self)@.undo.last()
                && final(self)@ == undone(old(self)@)),
    {
        let ghost before = self@;
        match self.undo_stack.pop() {
            Some(cmd) => {
                assert(commands_view(self.undo_stack@) =~= before.undo.drop_last());
                self.redo_stack.push(cmd.duplicate());
                assert(self@.redo =~= before.redo.push(command_view(cmd)));
                Some(cmd)
            },
            None => None,
        }
    }

    /// Makes again the last edit taken back and returns it.
    pub fn redo(&mut self) -> (r: Option<TimelineCommand>)
        ensures
            old(self)@.redo.len() == 0 ==> r is None && final(self)@ == old(self)@,
            old(self)@.redo.len() > 0 ==> (r matches Some(c) && command_view(c) == old(self)@.redo.last()
                && final(self)@ == redone(old(self)@)),
    {
        let ghost before = self@;
        match self.redo_stack.pop() {
            Some(cmd) => {
                assert(commands_view(self.redo_stack@) =~= before.redo.drop_last());
                self.undo_stack.push(cmd.duplicate());
                assert(self@.undo =~= before.undo.push(command_view(cmd)));
                Some(cmd)
            },
            None => None,
        }
    }

    /// Moves the playhead to `frame`.
    pub fn set_playhead(&mut self, frame: u64)
        ensures
            final(self)@ == (TimelineView { playhead: frame, ..old(self)@ }),
    {
        self.playhead_frame = frame;
    }

    /// The frame under the playhead.
    pub fn playhead(&self) -> (f: u64)
        ensures
            f == self@.playhead,
    {
        self.playhead_frame
    }

    /// The sequence being edited, if it exists.
    pub fn active_sequence(&self) -> (r: Option<&Sequence>)
        ensures
            match active_entry(self@) {
                Some(e) => r matches Some(s) && sequence_view(*s) == self@.sequences[e].1,
                None => r is None,
            },
    {
        match self.find_active() {
            Some(e) => Some(&self.sequences[e].1),
            None => None,
        }
    }

    /// The sequence being edited, if it exists, to change in place.
    pub fn active_sequence_mut(&mut self) -> (r: Option<&mut Sequence>)
        ensures
            match active_entry(old(self)@) {
                Some(e) => r matches Some(s) && sequence_view(*s) == old(self)@.sequences[e].1
                    && final(self)@ == (TimelineView {
                    sequences: old(self)@.sequences.update(e, (old(self)@.sequences[e].0, sequence_view(*final(s)))),
                    ..old(self)@
                }),
                None => r is None && final(self)@ == old(self)@,
            },
    {
        match self.find_active() {
            Some(e) => {
                let entry = &mut self.sequences[e];
                Some(&mut entry.1)
            },
            None => None,
        }
    }
}

/// Undoing an edit and redoing it gives back the timeline as it was.
pub proof fn lemma_undo_then_redo(t: TimelineView)
    requires
        t.undo.len() > 0,
    ensures
        redone(undone(t)) == t,
{
    assert(redone(undone(t)).undo =~= t.undo);
    assert(redone(undone(t)).redo =~= t.redo);
}

/// Redoing an edit and undoing it gives back the timeline as it was.
pub proof fn lemma_redo_then_undo(t: TimelineView)
    requires
        t.redo.len() > 0,
    ensures
        undone(redone(t)) == t,
{
    assert(undone(redone(t)).undo =~= t.undo);
    assert(undone(redone(t)).redo =~= t.redo);
}

/// Recording an edit keeps at most `max_undo` of them, the new one last
/// (when any is kept), and leaves nothing to redo.
pub proof fn lemma_history_is_capped(t: TimelineView, c: CommandView)
    ensures
        pushed(t, c).undo.len() <= t.max_undo,
        t.max_undo > 0 ==> pushed(t, c).undo.last() == c,
        t.undo.len() < t.max_undo ==> pushed(t, c).undo == t.undo.push(c),
        pushed(t, c).redo.len() == 0,
{
}

// ---------------------------------------------------------------------------
// Editing clips
// ---------------------------------------------------------------------------

/// The timeline once clip `c` is put at the end of its track in the
/// sequence being edited, or why it is not.
pub open spec fn clip_added(t: TimelineView, c: ClipView) -> Result<TimelineView, Seq<char>> {
    match active_entry(t) {
        None => Err("Active sequence not found"@),
        Some(e) => {
            let tracks = t.sequences[e].1.tracks;
            let i = c.track_index as int;
            if i < tracks.len() {
                Ok(
                    pushed(
                        with_tracks(t, e, tracks.update(i, with_clips(tracks[i], tracks[i].clips.push(c)))),
                        CommandView::AddClip { clip: c, sequence_id: t.active },
                    ),
                )
            } else {
                Err("Track index "@ + decimal(c.track_index as nat) + " out of range"@)
            }
        },
    }
}

/// The timeline once clip `id` leaves its track, or why it does not.
pub open spec fn clip_removed(t: TimelineView, id: Seq<char>) -> Result<TimelineView, Seq<char>> {
    match active_entry(t) {
        None => Err("Active sequence not found"@),
        Some(e) => {
            let tracks = t.sequences[e].1.tracks;
            match clip_place(tracks, id) {
                None => Err("Clip '"@ + id + "' not found"@),
                Some((k, p)) => Ok(
                    pushed(
                        with_tracks(t, e, tracks.update(k, with_clips(tracks[k], tracks[k].clips.remove(p)))),
                        CommandView::RemoveClip {
                            clip_id: id,
                            sequence_id: t.active,
                            track_index: tracks[k].clips[p].track_index,
                        },
                    ),
                ),
            }
        },
    }
}

/// The frames a clip covers (none when it ends before it starts).
pub open spec fn clip_length(c: ClipView) -> u64 {
    if c.end_frame >= c.start_frame {
        (c.end_frame - c.start_frame) as u64
    } else {
        0
    }
}

/// Clip `r` once the gap clip `c` leaves is closed: moved earlier by the
/// length of `c` when it starts at or after the end of `c`.
pub open spec fn pulled_back(r: ClipView, c: ClipView) -> ClipView {
    if r.start_frame >= c.end_frame {
        ClipView {
            start_frame: (r.start_frame - clip_length(c)) as u64,
            end_frame: (r.end_frame - clip_length(c)) as u64,
            ..r
        }
    } else {
        r
    }
}

/// The clips of a track once the gap of clip `c` is closed.
pub open spec fn closed_gap(rest: Seq<ClipView>, c: ClipView) -> Seq<ClipView> {
    rest.map_values(|r: ClipView| pulled_back(r, c))
}

/// Where clip `id` is in the sequence being edited, and the clip.
pub open spec fn located(t: TimelineView, id: Seq<char>) -> Option<(int, int, int)> {
    match active_entry(t) {
        Some(e) => match clip_place(t.sequences[e].1.tracks, id) {
            Some((k, p)) => Some((e, k, p)),
            None => None,
        },
        None => None,
    }
}

/// Closing the gap of clip `clips[p]` moves no clip before frame zero:
/// every clip moved ends at least the length of the gap after it.
pub open spec fn gap_fits(clips: Seq<ClipView>, p: int) -> bool {
    forall|j: int|
        0 <= j < clips.len() && j != p && (#[trigger] clips[j]).start_frame >= clips[p].end_frame
            ==> clips[j].end_frame >= clip_length(clips[p])
}

/// Closing the gap of clip `id` moves no clip before frame zero.
pub open spec fn ripple_fits(t: TimelineView, id: Seq<char>) -> bool {
    match located(t, id) {
        Some((e, k, p)) => gap_fits(t.sequences[e].1.tracks[k].clips, p),
        None => true,
    }
}

/// The timeline once clip `id` leaves its track and the clips after it on
/// that track move back to close the gap, or why it does not.
pub open spec fn rippled(t: TimelineView, id: Seq<char>) -> Result<TimelineView, Seq<char>> {
    match active_entry(t) {
        None => Err("Active sequence not found"@),
        Some(e) => {
            let tracks = t.sequences[e].1.tracks;
            match clip_place(tracks, id) {
                None => Err("Clip '"@ + id + "' not found"@),
                Some((k, p)) => {
                    let c = tracks[k].clips[p];
                    let rest = tracks[k].clips.remove(p);
                    Ok(
                        pushed(
                            with_tracks(
                                t,
                                e,
                                tracks.update(k, with_clips(tracks[k], closed_gap(rest, c))),
                            ),
                            CommandView::RippleDelete { clip_id: id, sequence_id: t.active },
                        ),
                    )
                },
            }
        },
    }
}

/// The second piece of clip `c` cut at frame `at`.
pub open spec fn split_piece(c: ClipView, at: u64) -> ClipView {
    ClipView { id: c.id + "_split_"@ + decimal(at as nat), start_frame: at, ..c }
}

/// The timeline once clip `id` is cut in two at frame `at`, and the second
/// piece; or why it is not.
pub open spec fn clip_split(t: TimelineView, id: Seq<char>, at: u64) -> Result<(TimelineView, ClipView), Seq<char>> {
    match active_entry(t) {
        None => Err("Active sequence not found"@),
        Some(e) => {
            let tracks = t.sequences[e].1.tracks;
            match clip_place(tracks, id) {
                None => Err("Clip '"@ + id + "' not found"@),
                Some((k, p)) => {
                    let c = tracks[k].clips[p];
                    if at <= c.start_frame || at >= c.end_frame {
                        Err("Split frame outside clip range"@)
                    } else {
                        let piece = split_piece(c, at);
                        let clips = tracks[k].clips.update(p, ClipView { end_frame: at, ..c }).insert(p + 1, piece);
                        Ok(
                            (
                                pushed(
                                    with_tracks(t, e, tracks.update(k, with_clips(tracks[k], clips))),
                                    CommandView::SplitClip { clip_id: id, split_frame: at },
                                ),
                                piece,
                            ),
                        )
                    }
                },
            }
        },
    }
}

fn text(s: &str) -> (r: String)
    ensures
        r@ == s@,
{
    s.to_string()
}

fn not_found(id: &str) -> (r: String)
    ensures
        r@ == "Clip '"@ + id@ + "' not found"@,
{
    let mut out: Vec<char> = Vec::new();
    push_str(&mut out, "Clip '");
    push_str(&mut out, id);
    push_str(&mut out, "' not found");
    chars_to_string(&out)
}

/// Where clip `id` is among `tracks`.
fn find_clip(tracks: &Vec<Track>, id: &str) -> (r: Option<(usize, usize)>)
    ensures
        r matches Some((k, p)) ==> clip_place(tracks_view(tracks@), id@) == Some((k as int, p as int)) && k
            < tracks.len() && p < tracks@[k as int].clips.len(),
        r is None ==> clip_place(tracks_view(tracks@), id@) is None,
{
    let ghost tv = tracks_view(tracks@);
    let ghost holds = holding(id@);
    let ghost is_it = named(id@);
    let wanted = to_chars(id);
    let mut k: usize = 0;
    while k < tracks.len()
        invariant
            k <= tracks.len(),
            tv == tracks_view(tracks@),
            holds == holding(id@),
            is_it == named(id@),
            wanted@ == id@,
            forall|j: int| 0 <= j < k ==> !holds(#[trigger] tv[j]),
        decreases tracks.len() - k,
    {
        let clips = &tracks[k].clips;
        let ghost cv = clips_view(clips@);
        assert(tv[k as int].clips == cv);
        let mut p: usize = 0;
        while p < clips.len()
            invariant
                p <= clips.len(),
                k < tracks.len(),
                cv == clips_view(clips@),
                clips == tracks@[k as int].clips,
                tv == tracks_view(tracks@),
                tv[k as int].clips == cv,
                holds == holding(id@),
                is_it == named(id@),
                wanted@ == id@,
                forall|j: int| 0 <= j < k ==> !holds(#[trigger] tv[j]),
                forall|j: int| 0 <= j < p ==> !is_it(#[trigger] cv[j]),
            decreases clips.len() - p,
        {
            let name = to_chars(clips[p].id.as_str());
            assert(cv[p as int] == clip_view(clips@[p as int]));
            if chars_equal(&name, &wanted) {
                proof {
                    lemma_first_at(cv, is_it, 0, p as nat);
                    lemma_first_at(tv, holds, 0, k as nat);
                }
                return Some((k, p));
            }
            p = p + 1;
        }
        proof {
            lemma_first_at(cv, is_it, 0, p as nat);
        }
        k = k + 1;
    }
    proof {
        lemma_first_at(tv, holds, 0, k as nat);
    }
    None
}

impl Timeline {
    /// Puts `clip` at the end of its track in the sequence being edited, and
    /// records it.
    pub fn add_clip(&mut self, clip: Clip) -> (r: Result<(), String>)
        ensures
            match clip_added(old(self)@, clip_view(clip)) {
                Ok(v) => r is Ok && final(self)@ == v,
                Err(m) => r matches Err(x) && x@ == m && final(self)@ == old(self)@,
            },
    {
        let ghost before = self@;
        let cmd = TimelineCommand::AddClip { clip: clip.duplicate(), sequence_id: copy_text(&self.active_sequence) };
        let e = match self.find_active() {
            Some(e) => e,
            None => {
                return Err(text("Active sequence not found"));
            },
        };
        let i = clip.track_index;
        if i >= self.sequences[e].1.tracks.len() {
            let mut out: Vec<char> = Vec::new();
            push_str(&mut out, "Track index ");
            push_decimal(&mut out, i as u64);
            push_str(&mut out, " out of range");
            return Err(chars_to_string(&out));
        }
        let ghost tracks = before.sequences[e as int].1.tracks;
        let ghost c = clip_view(clip);
        let (key, mut sequence) = self.sequences.remove(e);
        let ghost tv = sequence.tracks@;
        let mut track = sequence.tracks.remove(i);
        assert(track_view(track) == tracks[i as int]);
        track.clips.push(clip);
        assert(track_view(track) == with_clips(tracks[i as int], tracks[i as int].clips.push(c))) by {
            assert(clips_view(track.clips@) =~= tracks[i as int].clips.push(c));
        }
        sequence.tracks.insert(i, track);
        assert(tracks_view(sequence.tracks@) =~= tracks.update(
            i as int,
            with_clips(tracks[i as int], tracks[i as int].clips.push(c)),
        ));
        self.sequences.insert(e, (key, sequence));
        assert(self@ =~= with_tracks(
            before,
            e as int,
            tracks.update(i as int, with_clips(tracks[i as int], tracks[i as int].clips.push(c))),
        ));
        self.push_undo(cmd);
        Ok(())
    }

    /// Takes clip `clip_id` off its track in the sequence being edited, and
    /// records it.
    pub fn remove_clip(&mut self, clip_id: &str) -> (r: Result<(), String>)
        ensures
            match clip_removed(old(self)@, clip_id@) {
                Ok(v) => r is Ok && final(self)@ == v,
                Err(m) => r matches Err(x) && x@ == m && final(self)@ == old(self)@,
            },
    {
        let ghost before = self@;
        let e = match self.find_active() {
            Some(e) => e,
            None => {
                return Err(text("Active sequence not found"));
            },
        };
        let ghost tracks = before.sequences[e as int].1.tracks;
        assert(tracks == tracks_view(self.sequences@[e as int].1.tracks@));
        let (k, p) = match find_clip(&self.sequences[e].1.tracks, clip_id) {
            Some(place) => place,
            None => {
                return Err(not_found(clip_id));
            },
        };
        let (key, mut sequence) = self.sequences.remove(e);
        let mut track = sequence.tracks.remove(k);
        assert(track_view(track) == tracks[k as int]);
        let removed = track.clips.remove(p);
        assert(clip_view(removed) == tracks[k as int].clips[p as int]);
        assert(track_view(track) == with_clips(tracks[k as int], tracks[k as int].clips.remove(p as int))) by {
            assert(clips_view(track.clips@) =~= tracks[k as int].clips.remove(p as int));
        }
        let track_index = removed.track_index;
        sequence.tracks.insert(k, track);
        assert(tracks_view(sequence.tracks@) =~= tracks.update(
            k as int,
            with_clips(tracks[k as int], tracks[k as int].clips.remove(p as int)),
        ));
        self.sequences.insert(e, (key, sequence));
        assert(self@ =~= with_tracks(
            before,
            e as int,
            tracks.update(k as int, with_clips(tracks[k as int], tracks[k as int].clips.remove(p as int))),
        ));
        let cmd = TimelineCommand::RemoveClip {
            clip_id: clip_id.to_string(),
            sequence_id: copy_text(&self.active_sequence),
            track_index,
        };
        self.push_undo(cmd);
        Ok(())
    }

    /// Whether closing the gap of clip `clip_id` moves no clip before frame
    /// zero, which `ripple_delete` asks.
    pub fn can_ripple(&self, clip_id: &str) -> (b: bool)
        ensures
            b == ripple_fits(self@, clip_id@),
    {
        let e = match self.find_active() {
            Some(e) => e,
            None => {
                return true;
            },
        };
        let ghost tracks = self@.sequences[e as int].1.tracks;
        assert(tracks == tracks_view(self.sequences@[e as int].1.tracks@));
        let (k, p) = match find_clip(&self.sequences[e].1.tracks, clip_id) {
            Some(place) => place,
            None => {
                return true;
            },
        };
        assert(located(self@, clip_id@) == Some((e as int, k as int, p as int)));
        let clips = &self.sequences[e].1.tracks[k].clips;
        let ghost cv = clips_view(clips@);
        assert(cv == tracks[k as int].clips);
        let end = clips[p].end_frame;
        let length = clips[p].end_frame.saturating_sub(clips[p].start_frame);
        assert(cv[p as int] == clip_view(clips@[p as int]));
        assert(length == clip_length(cv[p as int]));
        let mut j: usize = 0;
        while j < clips.len()
            invariant
                j <= clips.len(),
                p < clips.len(),
                cv == clips_view(clips@),
                end == cv[p as int].end_frame,
                length == clip_length(cv[p as int]),
                located(self@, clip_id@) == Some((e as int, k as int, p as int)),
                self@.sequences[e as int].1.tracks[k as int].clips == cv,
                forall|i: int|
                    0 <= i < j && i != p && (#[trigger] cv[i]).start_frame >= cv[p as int].end_frame
                        ==> cv[i].end_frame >= clip_length(cv[p as int]),
            decreases clips.len() - j,
        {
            assert(cv[j as int] == clip_view(clips@[j as int]));
            if j != p && clips[j].start_frame >= end && clips[j].end_frame < length {
                assert(!gap_fits(cv, p as int)) by {
                    assert(cv[j as int].start_frame >= cv[p as int].end_frame);
                }
                return false;
            }
            j = j + 1;
        }
        true
    }

    /// Takes clip `clip_id` off its track and moves every clip after it on
    /// that track back by its length, and records it.
    pub fn ripple_delete(&mut self, clip_id: &str) -> (r: Result<(), String>)
        requires
            ripple_fits(old(self)@, clip_id@),
        ensures
            match rippled(old(self)@, clip_id@) {
                Ok(v) => r is Ok && final(self)@ == v,
                Err(m) => r matches Err(x) && x@ == m && final(self)@ == old(self)@,
            },
    {
        let ghost before = self@;
        let e = match self.find_active() {
            Some(e) => e,
            None => {
                return Err(text("Active sequence not found"));
            },
        };
        let ghost tracks = before.sequences[e as int].1.tracks;
        assert(tracks == tracks_view(self.sequences@[e as int].1.tracks@));
        let (k, p) = match find_clip(&self.sequences[e].1.tracks, clip_id) {
            Some(place) => place,
            None => {
                return Err(not_found(clip_id));
            },
        };
        let (key, mut sequence) = self.sequences.remove(e);
        let mut track = sequence.tracks.remove(k);
        assert(track_view(track) == tracks[k as int]);
        let removed = track.clips.remove(p);
        let ghost c = clip_view(removed);
        let ghost rest = tracks[k as int].clips.remove(p as int);
        assert(c == tracks[k as int].clips[p as int]);
        assert(clips_view(track.clips@) =~= rest);
        let length = removed.end_frame.saturating_sub(removed.start_frame);
        assert(length == clip_length(c));
        assert(located(before, clip_id@) == Some((e as int, k as int, p as int)));
        assert forall|i: int|
            0 <= i < rest.len() && (#[trigger] rest[i]).start_frame >= c.end_frame implies rest[i].end_frame
                >= clip_length(c) by {
            let clips = before.sequences[e as int].1.tracks[k as int].clips;
            assert(gap_fits(clips, p as int));
            if i < p {
                assert(rest[i] == clips[i]);
            } else {
                assert(rest[i] == clips[i + 1]);
            }
        }
        let mut moved: Vec<Clip> = Vec::new();
        let mut j: usize = 0;
        while j < track.clips.len()
            invariant
                j <= track.clips.len(),
                clips_view(track.clips@) == rest,
                length == clip_length(c),
                c.end_frame == removed.end_frame,
                forall|i: int|
                    0 <= i < rest.len() && (#[trigger] rest[i]).start_frame >= c.end_frame ==> rest[i].end_frame
                        >= clip_length(c),
                moved@.len() == j,
                forall|i: int| 0 <= i < j ==> clip_view(#[trigger] moved@[i]) == pulled_back(rest[i], c),
            decreases track.clips.len() - j,
        {
            let original = &track.clips[j];
            assert(rest[j as int] == clip_view(*original));
            let mut next = original.duplicate();
            if next.start_frame >= removed.end_frame {
                next.start_frame = next.start_frame - length;
                next.end_frame = next.end_frame - length;
            }
            assert(clip_view(next) == pulled_back(rest[j as int], c));
            moved.push(next);
            j = j + 1;
        }
        track.clips = moved;
        let ghost shifted = closed_gap(rest, c);
        assert(clips_view(track.clips@) =~= shifted);
        assert(track_view(track) == with_clips(tracks[k as int], shifted));
        sequence.tracks.insert(k, track);
        assert(tracks_view(sequence.tracks@) =~= tracks.update(k as int, with_clips(tracks[k as int], shifted)));
        self.sequences.insert(e, (key, sequence));
        assert(self@ =~= with_tracks(before, e as int, tracks.update(k as int, with_clips(tracks[k as int], shifted))));
        let cmd = TimelineCommand::RippleDelete {
            clip_id: clip_id.to_string(),
            sequence_id: copy_text(&self.active_sequence),
        };
        self.push_undo(cmd);
        Ok(())
    }

    /// Cuts clip `clip_id` in two at `split_frame`, records it, and returns
    /// the second piece, `<id>_split_<frame>`.
    pub fn split_clip(&mut self, clip_id: &str, split_frame: u64) -> (r: Result<Clip, String>)
        ensures
            match clip_split(old(self)@, clip_id@, split_frame) {
                Ok((v, piece)) => r matches Ok(c) && clip_view(c) == piece && final(self)@ == v,
                Err(m) => r matches Err(x) && x@ == m && final(self)@ == old(self)@,
            },
    {
        let ghost before = self@;
        let e = match self.find_active() {
            Some(e) => e,
            None => {
                return Err(text("Active sequence not found"));
            },
        };
        let ghost tracks = before.sequences[e as int].1.tracks;
        assert(tracks == tracks_view(self.sequences@[e as int].1.tracks@));
        let (k, p) = match find_clip(&self.sequences[e].1.tracks, clip_id) {
            Some(place) => place,
            None => {
                return Err(not_found(clip_id));
            },
        };
        let ghost c = tracks[k as int].clips[p as int];
        assert(c == clip_view(self.sequences@[e as int].1.tracks@[k as int].clips@[p as int]));
        let start = self.sequences[e].1.tracks[k].clips[p].start_frame;
        let end = self.sequences[e].1.tracks[k].clips[p].end_frame;
        if split_frame <= start || split_frame >= end {
            return Err(text("Split frame outside clip range"));
        }
        let (key, mut sequence) = self.sequences.remove(e);
        let mut track = sequence.tracks.remove(k);
        assert(track_view(track) == tracks[k as int]);
        let mut first = track.clips.remove(p);
        let mut name: Vec<char> = to_chars(first.id.as_str());
        push_str(&mut name, "_split_");
        push_decimal(&mut name, split_frame);
        let mut piece = first.duplicate();
        piece.id = chars_to_string(&name);
        piece.start_frame = split_frame;
        assert(clip_view(piece) == split_piece(c, split_frame));
        first.end_frame = split_frame;
        let ghost old_clips = tracks[k as int].clips;
        track.clips.insert(p, first);
        track.clips.insert(p + 1, piece.duplicate());
        let ghost clips = old_clips.update(p as int, ClipView { end_frame: split_frame, ..c }).insert(
            p + 1,
            split_piece(c, split_frame),
        );
        assert(clips_view(track.clips@) =~= clips);
        sequence.tracks.insert(k, track);
        assert(tracks_view(sequence.tracks@) =~= tracks.update(k as int, with_clips(tracks[k as int], clips)));
        self.sequences.insert(e, (key, sequence));
        assert(self@ =~= with_tracks(before, e as int, tracks.update(k as int, with_clips(tracks[k as int], clips))));
        let cmd = TimelineCommand::SplitClip { clip_id: clip_id.to_string(), split_frame };
        self.push_undo(cmd);
        Ok(piece)
    }
}

/// Where `located` finds a clip, it is there.
proof fn lemma_located(t: TimelineView, id: Seq<char>)
    ensures
        located(t, id) matches Some((e, k, p)) ==> 0 <= e < t.sequences.len() && 0 <= k
            < t.sequences[e].1.tracks.len() && 0 <= p < t.sequences[e].1.tracks[k].clips.len()
            && t.sequences[e].1.tracks[k].clips[p].id == id,
{
    lemma_first_from(t.sequences, keyed(t.active), 0);
    if let Some(e) = active_entry(t) {
        let tracks = t.sequences[e].1.tracks;
        lemma_first_from(tracks, holding(id), 0);
        if let Some(k) = first_from(tracks, holding(id), 0) {
            lemma_first_from(tracks[k].clips, named(id), 0);
        }
    }
}

/// Cutting a clip keeps the frames it covered: the first piece runs from
/// its start to the cut, the second from the cut to its end, right after
/// it; the other clips of the track stay as they were.
pub proof fn lemma_split_keeps_frames(t: TimelineView, id: Seq<char>, at: u64)
    ensures
        match (clip_split(t, id, at), located(t, id)) {
            (Ok((v, piece)), Some((e, k, p))) => {
                let before = t.sequences[e].1.tracks[k].clips;
                let after = v.sequences[e].1.tracks[k].clips;
                let c = before[p];
                &&& after.len() == before.len() + 1
                &&& after[p].start_frame == c.start_frame
                &&& after[p].end_frame == at
                &&& after[p + 1] == piece
                &&& piece.start_frame == at
                &&& piece.end_frame == c.end_frame
                &&& c.start_frame < at < c.end_frame
                &&& forall|j: int| 0 <= j < p ==> after[j] == before[j]
                &&& forall|j: int| p < j < before.len() ==> after[j + 1] == before[j]
            },
            _ => true,
        },
{
    lemma_located(t, id);
}

} // verus!
