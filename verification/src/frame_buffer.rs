//! In-memory cache of decoded frames with a global frame limit and
//! least-recently-used eviction.
use vstd::prelude::*;
use crate::decode::{same_frame, FrameInfo, PixelFormat};

verus! {

/// A cached frame, the source it was decoded from and its access stamp.
#[derive(Debug)]
pub struct FrameEntry {
    pub frame: FrameInfo,
    pub source_path: String,
    pub last_access: u64,
}

/// The cache. Frames are keyed by source path text and frame number; the
/// caller hands in paths in one canonical spelling. The entries are a list
/// with each key once rather than a map by key: text keys have no hashing whose behaviour the contracts can speak of, while a list is a plain sequence of values, so every lookup is a scan
/// proved against the list.
pub struct FrameBuffer {
    entries: Vec<FrameEntry>,
    max_ram_frames: usize,
    access_counter: u64,
}

/// Keys are unique, stamps are distinct and older than `counter`, and frame
/// numbers are not negative.
pub open spec fn entries_wf(s: Seq<FrameEntry>, counter: u64) -> bool {
    &&& forall|i: int, j: int|
        0 <= i < j < s.len() ==> key_of(#[trigger] s[i]) != key_of(#[trigger] s[j])
    &&& forall|i: int, j: int|
        0 <= i < j < s.len() ==> (#[trigger] s[i]).last_access != (#[trigger] s[j]).last_access
    &&& forall|i: int| 0 <= i < s.len() ==> (#[trigger] s[i]).last_access < counter
    &&& forall|i: int| 0 <= i < s.len() ==> (#[trigger] s[i]).frame.pts >= 0
}

/// Dropping an entry keeps the others well formed.
proof fn lemma_remove_wf(s: Seq<FrameEntry>, counter: u64, k: int)
    requires
        entries_wf(s, counter),
        0 <= k < s.len(),
    ensures
        entries_wf(s.remove(k), counter),
{
    let t = s.remove(k);
    assert forall|i: int, j: int| 0 <= i < j < t.len() implies key_of(#[trigger] t[i]) != key_of(
        #[trigger] t[j],
    ) && t[i].last_access != t[j].last_access by {
        let oi = if i < k {
            i
        } else {
            i + 1
        };
        let oj = if j < k {
            j
        } else {
            j + 1
        };
        assert(t[i] == s[oi] && t[j] == s[oj]);
        assert(key_of(s[oi]) != key_of(s[oj]));
        assert(s[oi].last_access != s[oj].last_access);
    }
    assert forall|i: int| 0 <= i < t.len() implies (#[trigger] t[i]).last_access < counter
        && t[i].frame.pts >= 0 by {
        if i < k {
            assert(t[i] == s[i]);
        } else {
            assert(t[i] == s[i + 1]);
        }
    }
}

/// The key of an entry: its source and the frame number.
pub open spec fn key_of(e: FrameEntry) -> (Seq<char>, int) {
    (e.source_path@, e.frame.pts as int)
}

/// `pts` is the timestamp of a frame that `decoder_fn` gives for some frame
/// number in `[start, end)`.
pub open spec fn decoded_in<F: Fn(u64) -> Result<FrameInfo, String>>(
    decoder_fn: F,
    start: u64,
    end: u64,
    pts: int,
) -> bool {
    exists|k: u64, f: FrameInfo|
        start <= k < end && #[trigger] decoder_fn.ensures((k,), Ok::<FrameInfo, String>(f)) && f.pts
            == pts
}

/// A frame as values.
pub struct FrameView {
    pub pts: i64,
    pub width: u32,
    pub height: u32,
    pub format: PixelFormat,
    pub data: Seq<u8>,
}

pub open spec fn frame_view(f: FrameInfo) -> FrameView {
    FrameView { pts: f.pts, width: f.width, height: f.height, format: f.format, data: f.data@ }
}

/// A cached entry as values: its source, its frame and its access stamp.
pub struct CachedView {
    pub source: Seq<char>,
    pub frame: FrameView,
    pub stamp: u64,
}

pub open spec fn cached_view(e: FrameEntry) -> CachedView {
    CachedView { source: e.source_path@, frame: frame_view(e.frame), stamp: e.last_access }
}

/// The entry of `s` at `i` is cached under `(source, pts)`.
pub open spec fn keyed(s: Seq<CachedView>, i: int, source: Seq<char>, pts: int) -> bool {
    0 <= i < s.len() && s[i].source == source && s[i].frame.pts == pts
}

/// Some entry of `s` is cached under `(source, pts)`.
pub open spec fn holds(s: Seq<CachedView>, source: Seq<char>, pts: int) -> bool {
    exists|i: int| #[trigger] keyed(s, i, source, pts)
}

/// The place of the entry cached under `(source, pts)`.
pub open spec fn place_of(s: Seq<CachedView>, source: Seq<char>, pts: int) -> int {
    choose|i: int| #[trigger] keyed(s, i, source, pts)
}

/// The entry at `v` was used no later than any other.
pub open spec fn is_least(s: Seq<CachedView>, v: int) -> bool {
    0 <= v < s.len() && forall|j: int| 0 <= j < s.len() ==> s[v].stamp <= #[trigger] s[j].stamp
}

/// The place of the entry used least recently.
pub open spec fn least_used(s: Seq<CachedView>) -> int {
    choose|v: int| #[trigger] is_least(s, v)
}

/// Keys are unique, stamps are distinct and below `counter`, and
/// timestamps are not negative.
pub open spec fn views_wf(s: Seq<CachedView>, counter: u64) -> bool {
    &&& forall|i: int, j: int|
        0 <= i < j < s.len() ==> ((#[trigger] s[i]).source != (#[trigger] s[j]).source || s[i].frame.pts
            != s[j].frame.pts)
    &&& forall|i: int, j: int| 0 <= i < j < s.len() ==> (#[trigger] s[i]).stamp != (#[trigger] s[j]).stamp
    &&& forall|i: int| 0 <= i < s.len() ==> (#[trigger] s[i]).stamp < counter
    &&& forall|i: int| 0 <= i < s.len() ==> (#[trigger] s[i]).frame.pts >= 0
}

/// `s` with the entry at `i` marked as used at `stamp`.
pub open spec fn touched(s: Seq<CachedView>, i: int, stamp: u64) -> Seq<CachedView> {
    s.update(i, CachedView { stamp, ..s[i] })
}

/// What caching `frame` under `source` at `stamp` makes of `s`, with the
/// limit `limit`: nothing with a zero limit or a negative timestamp;
/// otherwise the entry of that key is replaced when there is one, else the
/// frame is added at the end, and when the cache was full the entry used
/// least recently leaves.
pub open spec fn inserted(
    s: Seq<CachedView>,
    limit: nat,
    stamp: u64,
    source: Seq<char>,
    frame: FrameView,
) -> Seq<CachedView> {
    let e = CachedView { source, frame, stamp };
    if limit == 0 || frame.pts < 0 {
        s
    } else if holds(s, source, frame.pts as int) {
        s.update(place_of(s, source, frame.pts as int), e)
    } else if s.len() < limit {
        s.push(e)
    } else {
        s.remove(least_used(s)).push(e)
    }
}

/// Well formed entries give well formed views.
proof fn lemma_views_wf(s: Seq<FrameEntry>, counter: u64)
    requires
        entries_wf(s, counter),
    ensures
        views_wf(s.map_values(|e: FrameEntry| cached_view(e)), counter),
{
    let v = s.map_values(|e: FrameEntry| cached_view(e));
    assert forall|i: int, j: int| 0 <= i < j < v.len() implies ((#[trigger] v[i]).source != (
    #[trigger] v[j]).source || v[i].frame.pts != v[j].frame.pts) && v[i].stamp != v[j].stamp by {
        assert(key_of(s[i]) != key_of(s[j]));
        assert(s[i].last_access != s[j].last_access);
    }
    assert forall|i: int| 0 <= i < v.len() implies (#[trigger] v[i]).stamp < counter && v[i].frame.pts
        >= 0 by {
        assert(v[i] == cached_view(s[i]));
    }
}

/// The entry under a key is the only one with it.
proof fn lemma_place_of(s: Seq<CachedView>, counter: u64, i: int, source: Seq<char>, pts: int)
    requires
        views_wf(s, counter),
        keyed(s, i, source, pts),
    ensures
        holds(s, source, pts),
        place_of(s, source, pts) == i,
{
    let p = place_of(s, source, pts);
    assert(keyed(s, p, source, pts));
    if p < i {
        assert(s[p].source != s[i].source || s[p].frame.pts != s[i].frame.pts);
    } else if i < p {
        assert(s[i].source != s[p].source || s[i].frame.pts != s[p].frame.pts);
    }
}

/// The entry with the least stamp is the one used least recently.
proof fn lemma_least_used(s: Seq<CachedView>, counter: u64, v: int)
    requires
        views_wf(s, counter),
        0 <= v < s.len(),
        forall|j: int| 0 <= j < s.len() ==> s[v].stamp <= #[trigger] s[j].stamp,
    ensures
        least_used(s) == v,
{
    assert(is_least(s, v));
    let w = least_used(s);
    assert(is_least(s, w));
    assert(s[w].stamp <= s[v].stamp && s[v].stamp <= s[w].stamp);
    if w < v {
        assert(s[w].stamp != s[v].stamp);
    } else if v < w {
        assert(s[v].stamp != s[w].stamp);
    }
}

/// A cache with entries has one used least recently.
proof fn lemma_least_exists(s: Seq<CachedView>)
    requires
        s.len() > 0,
    ensures
        exists|v: int| #[trigger] is_least(s, v),
    decreases s.len(),
{
    if s.len() == 1 {
        assert(is_least(s, 0));
    } else {
        let d = s.drop_last();
        lemma_least_exists(d);
        let v = choose|v: int| #[trigger] is_least(d, v);
        if s[v].stamp <= s.last().stamp {
            assert forall|j: int| 0 <= j < s.len() implies s[v].stamp <= #[trigger] s[j].stamp by {
                if j < d.len() {
                    assert(d[j] == s[j]);
                }
            }
            assert(is_least(s, v));
        } else {
            assert forall|j: int| 0 <= j < s.len() implies s[s.len() - 1].stamp <= #[trigger] s[j].stamp by {
                if j < d.len() {
                    assert(d[j] == s[j]);
                    assert(d[v].stamp <= d[j].stamp);
                }
            }
            assert(is_least(s, s.len() - 1));
        }
    }
}

/// What `inserted` holds: each of its entries is the frame cached or was
/// held before; the frame cached is held, with its frame, whenever it is
/// cached at all; and nothing changes when it is not.
pub proof fn lemma_inserted_holds(s: Seq<CachedView>, limit: nat, stamp: u64, source: Seq<char>, frame: FrameView)
    ensures
        forall|j: int|
            0 <= j < inserted(s, limit, stamp, source, frame).len() ==> ((#[trigger] inserted(
                s,
                limit,
                stamp,
                source,
                frame,
            )[j]).source == source && inserted(s, limit, stamp, source, frame)[j].frame.pts == frame.pts)
                || holds(
                s,
                inserted(s, limit, stamp, source, frame)[j].source,
                inserted(s, limit, stamp, source, frame)[j].frame.pts as int,
            ),
        limit > 0 && frame.pts >= 0 ==> exists|j: int|
            #[trigger] keyed(inserted(s, limit, stamp, source, frame), j, source, frame.pts as int)
                && inserted(s, limit, stamp, source, frame)[j].frame == frame,
        limit == 0 || frame.pts < 0 ==> inserted(s, limit, stamp, source, frame) == s,
{
    let t = inserted(s, limit, stamp, source, frame);
    let e = CachedView { source, frame, stamp };
    if limit == 0 || frame.pts < 0 {
        assert forall|j: int| 0 <= j < t.len() implies ((#[trigger] t[j]).source == source && t[j].frame.pts
            == frame.pts) || holds(s, t[j].source, t[j].frame.pts as int) by {
            assert(keyed(s, j, t[j].source, t[j].frame.pts as int));
        }
    } else if holds(s, source, frame.pts as int) {
        let p = place_of(s, source, frame.pts as int);
        assert(keyed(s, p, source, frame.pts as int));
        assert(t == s.update(p, e));
        assert forall|j: int| 0 <= j < t.len() implies ((#[trigger] t[j]).source == source && t[j].frame.pts
            == frame.pts) || holds(s, t[j].source, t[j].frame.pts as int) by {
            if j != p {
                assert(keyed(s, j, t[j].source, t[j].frame.pts as int));
            }
        }
        assert(keyed(t, p, source, frame.pts as int));
    } else if s.len() < limit {
        assert(t == s.push(e));
        assert forall|j: int| 0 <= j < t.len() implies ((#[trigger] t[j]).source == source && t[j].frame.pts
            == frame.pts) || holds(s, t[j].source, t[j].frame.pts as int) by {
            if j < s.len() {
                assert(keyed(s, j, t[j].source, t[j].frame.pts as int));
            }
        }
        assert(keyed(t, s.len() as int, source, frame.pts as int));
    } else {
        lemma_least_exists(s);
        let v = least_used(s);
        assert(is_least(s, v));
        let r = s.remove(v);
        assert(t == r.push(e));
        assert forall|j: int| 0 <= j < t.len() implies ((#[trigger] t[j]).source == source && t[j].frame.pts
            == frame.pts) || holds(s, t[j].source, t[j].frame.pts as int) by {
            if j < r.len() {
                if j < v {
                    assert(t[j] == s[j]);
                    assert(keyed(s, j, t[j].source, t[j].frame.pts as int));
                } else {
                    assert(t[j] == s[j + 1]);
                    assert(keyed(s, j + 1, t[j].source, t[j].frame.pts as int));
                }
            }
        }
        assert(keyed(t, r.len() as int, source, frame.pts as int));
    }
}

/// A frame cached reads back as it was stored: after caching `frame` in a
/// well formed cache (limit above zero, timestamp not negative), the entry
/// under its key holds that frame with the newest stamp, and the cache stays
/// well formed.
pub proof fn lemma_cached_frame_reads_back(
    s: Seq<CachedView>,
    counter: u64,
    limit: nat,
    source: Seq<char>,
    frame: FrameView,
)
    requires
        views_wf(s, counter),
        counter < u64::MAX,
        s.len() <= limit,
        limit > 0,
        frame.pts >= 0,
    ensures
        views_wf(inserted(s, limit, counter, source, frame), (counter + 1) as u64),
        inserted(s, limit, counter, source, frame).len() <= limit,
        holds(inserted(s, limit, counter, source, frame), source, frame.pts as int),
        inserted(s, limit, counter, source, frame)[place_of(
            inserted(s, limit, counter, source, frame),
            source,
            frame.pts as int,
        )].frame == frame,
        inserted(s, limit, counter, source, frame)[place_of(
            inserted(s, limit, counter, source, frame),
            source,
            frame.pts as int,
        )].stamp == counter,
{
    let t = inserted(s, limit, counter, source, frame);
    let e = CachedView { source, frame, stamp: counter };
    let c1 = (counter + 1) as u64;
    let pts = frame.pts as int;
    let k: int;
    if holds(s, source, pts) {
        let p = place_of(s, source, pts);
        assert(keyed(s, p, source, pts));
        assert(t == s.update(p, e));
        assert forall|i: int, j: int| 0 <= i < j < t.len() implies ((#[trigger] t[i]).source != (
        #[trigger] t[j]).source || t[i].frame.pts != t[j].frame.pts) && t[i].stamp != t[j].stamp by {
            if i == p {
                assert(s[j].source != s[p].source || s[j].frame.pts != s[p].frame.pts);
            } else if j == p {
                assert(s[i].source != s[p].source || s[i].frame.pts != s[p].frame.pts);
            }
        }
        k = p;
    } else if s.len() < limit {
        assert(t == s.push(e));
        assert forall|i: int, j: int| 0 <= i < j < t.len() implies ((#[trigger] t[i]).source != (
        #[trigger] t[j]).source || t[i].frame.pts != t[j].frame.pts) && t[i].stamp != t[j].stamp by {
            if j == s.len() {
                assert(!keyed(s, i, source, pts));
            }
        }
        k = s.len() as int;
    } else {
        lemma_least_exists(s);
        let v = least_used(s);
        assert(is_least(s, v));
        let r = s.remove(v);
        assert(t == r.push(e));
        assert forall|i: int| 0 <= i < r.len() implies #[trigger] r[i] == s[if i < v { i } else { i + 1 }] by {}
        assert forall|i: int, j: int| 0 <= i < j < t.len() implies ((#[trigger] t[i]).source != (
        #[trigger] t[j]).source || t[i].frame.pts != t[j].frame.pts) && t[i].stamp != t[j].stamp by {
            let oi = if i < v { i } else { i + 1 };
            if j == r.len() {
                assert(t[i] == s[oi]);
                assert(!keyed(s, oi, source, pts));
            } else {
                let oj = if j < v { j } else { j + 1 };
                assert(t[i] == s[oi] && t[j] == s[oj]);
            }
        }
        assert forall|i: int| 0 <= i < t.len() implies (#[trigger] t[i]).stamp < c1 && t[i].frame.pts >= 0 by {
            if i < r.len() {
                assert(t[i] == s[if i < v { i } else { i + 1 }]);
            }
        }
        k = r.len() as int;
    }
    assert(keyed(t, k, source, pts));
    lemma_place_of(t, c1, k, source, pts);
}

/// The entry just used is the newest: marking it keeps the cache well
/// formed, changes no other entry, gives it a stamp above every other, and
/// so, with two entries or more, it is not the next to leave.
pub proof fn lemma_used_entry_is_newest(s: Seq<CachedView>, counter: u64, i: int)
    requires
        views_wf(s, counter),
        counter < u64::MAX,
        0 <= i < s.len(),
    ensures
        views_wf(touched(s, i, counter), (counter + 1) as u64),
        forall|j: int| 0 <= j < s.len() && j != i ==> #[trigger] touched(s, i, counter)[j] == s[j],
        touched(s, i, counter)[i].frame == s[i].frame,
        forall|j: int| 0 <= j < s.len() && j != i ==> (#[trigger] touched(s, i, counter)[j]).stamp < counter,
        s.len() >= 2 ==> least_used(touched(s, i, counter)) != i,
{
    let t = touched(s, i, counter);
    assert forall|a: int, b: int| 0 <= a < b < t.len() implies ((#[trigger] t[a]).source != (
    #[trigger] t[b]).source || t[a].frame.pts != t[b].frame.pts) && t[a].stamp != t[b].stamp by {}
    if s.len() >= 2 {
        lemma_least_exists(t);
        let v = least_used(t);
        assert(is_least(t, v));
        let other = if i == 0 { 1int } else { 0int };
        assert(t[v].stamp <= t[other].stamp);
    }
}

impl FrameBuffer {
    /// Keys are unique, stamps are distinct and older than the counter, and
    /// the cache never holds more than its limit.
    pub closed spec fn wf(&self) -> bool {
        &&& self.entries.len() <= self.max_ram_frames
        &&& entries_wf(self.entries@, self.access_counter)
    }

    /// The cached entries, in storage order.
    pub closed spec fn entries_view(&self) -> Seq<FrameEntry> {
        self.entries@
    }

    /// The most frames the cache holds.
    pub closed spec fn limit(&self) -> nat {
        self.max_ram_frames as nat
    }

    /// Access stamps handed out so far.
    pub closed spec fn stamps_used(&self) -> nat {
        self.access_counter as nat
    }

    /// The cached entries as values, in storage order.
    pub open spec fn cached(&self) -> Seq<CachedView> {
        self.entries_view().map_values(|e: FrameEntry| cached_view(e))
    }

    /// An empty cache holding at most `max_ram_frames` frames.
    pub fn new(max_ram_frames: usize, _disk_cache_enabled: bool) -> (b: Self)
        ensures
            b.wf(),
            b.entries_view().len() == 0,
            b.limit() == max_ram_frames,
            b.stamps_used() == 0,
    {
        FrameBuffer { entries: Vec::new(), max_ram_frames, access_counter: 0 }
    }

    fn find(&self, source: &String, frame_num: u64) -> (r: Option<usize>)
        ensures
            r matches Some(i) ==> i < self.entries.len() && key_of(self.entries@[i as int]) == (
            source@, frame_num as int),
            r is None ==> forall|i: int|
                0 <= i < self.entries.len() ==> key_of(#[trigger] self.entries@[i]) != (
                source@,
                frame_num as int,
            ),
    {
        let mut i: usize = 0;
        while i < self.entries.len()
            invariant
                i <= self.entries.len(),
                forall|j: int|
                    0 <= j < i ==> key_of(#[trigger] self.entries@[j]) != (source@, frame_num as int),
            decreases self.entries.len() - i,
        {
            let e = &self.entries[i];
            if e.frame.pts >= 0 && e.frame.pts as u64 == frame_num && e.source_path == *source {
                return Some(i);
            }
            i = i + 1;
        }
        None
    }

    /// The frame cached under `(source, frame_num)`, marking it as just used:
    /// its entry takes the newest stamp and every other entry stays as it
    /// was. Nothing changes when no frame is cached there.
    pub fn lookup(&mut self, source: &str, frame_num: u64) -> (r: Option<FrameInfo>)
        requires
            old(self).wf(),
            old(self).stamps_used() < u64::MAX,
        ensures
            final(self).wf(),
            final(self).limit() == old(self).limit(),
            r is Some <==> holds(old(self).cached(), source@, frame_num as int),
            holds(old(self).cached(), source@, frame_num as int) ==> {
                &&& r matches Some(f) && frame_view(f) == old(self).cached()[place_of(
                    old(self).cached(),
                    source@,
                    frame_num as int,
                )].frame
                &&& final(self).cached() == touched(
                    old(self).cached(),
                    place_of(old(self).cached(), source@, frame_num as int),
                    old(self).stamps_used() as u64,
                )
                &&& final(self).stamps_used() == old(self).stamps_used() + 1
            },
            !holds(old(self).cached(), source@, frame_num as int) ==> final(self).cached() == old(
                self,
            ).cached() && final(self).stamps_used() == old(self).stamps_used(),
    {
        let ghost before = self.cached();
        proof {
            lemma_views_wf(self.entries@, self.access_counter);
        }
        let src = source.to_owned();
        match self.find(&src, frame_num) {
            None => {
                assert(!holds(before, source@, frame_num as int)) by {
                    if holds(before, source@, frame_num as int) {
                        let i = choose|i: int| #[trigger] keyed(before, i, source@, frame_num as int);
                        assert(key_of(self.entries@[i]) == (source@, frame_num as int));
                    }
                }
                None
            },
            Some(i) => {
                proof {
                    assert(keyed(before, i as int, source@, frame_num as int));
                    lemma_place_of(before, self.access_counter, i as int, source@, frame_num as int);
                }
                let stamp = self.next_access();
                let frame = self.entries[i].frame.clone();
                let mut entry = self.entries[i].clone_entry();
                entry.last_access = stamp;
                let ghost pre = self.entries@;
                self.entries.set(i, entry);
                proof {
                    assert(self.entries@ == pre.update(i as int, entry));
                    assert(cached_view(entry) == CachedView { stamp, ..before[i as int] });
                    assert(self.cached() =~= touched(before, i as int, stamp));
                    assert forall|j: int| 0 <= j < self.entries.len() implies #[trigger] self.entries@[j].last_access
                        < self.access_counter by {}
                    assert forall|j: int, k: int| 0 <= j < k < self.entries.len() implies key_of(
                        #[trigger] self.entries@[j],
                    ) != key_of(#[trigger] self.entries@[k]) && self.entries@[j].last_access
                        != self.entries@[k].last_access by {
                        assert(key_of(self.entries@[j]) == key_of(pre[j]));
                        assert(key_of(self.entries@[k]) == key_of(pre[k]));
                    }
                }
                Some(frame)
            },
        }
    }

    /// The frame under `(source, frame_num)`: the cached one when there is
    /// one (marked as just used, as `lookup` does; the decoder is not
    /// called), else whatever `decoder_fn` returns, which is cached as
    /// `insert_frame` caches it when it is a frame; a failure changes nothing.
    pub fn get_frame<F: FnOnce() -> Result<FrameInfo, String>>(
        &mut self,
        source: &str,
        frame_num: u64,
        decoder_fn: F,
    ) -> (r: Result<FrameInfo, String>)
        requires
            old(self).wf(),
            old(self).stamps_used() + 1 < u64::MAX,
            decoder_fn.requires(()),
        ensures
            final(self).wf(),
            final(self).limit() == old(self).limit(),
            holds(old(self).cached(), source@, frame_num as int) ==> {
                &&& r matches Ok(f) && frame_view(f) == old(self).cached()[place_of(
                    old(self).cached(),
                    source@,
                    frame_num as int,
                )].frame
                &&& final(self).cached() == touched(
                    old(self).cached(),
                    place_of(old(self).cached(), source@, frame_num as int),
                    old(self).stamps_used() as u64,
                )
                &&& final(self).stamps_used() == old(self).stamps_used() + 1
            },
            !holds(old(self).cached(), source@, frame_num as int) ==> {
                &&& decoder_fn.ensures((), r)
                &&& r matches Ok(f) ==> final(self).cached() == inserted(
                    old(self).cached(),
                    old(self).limit(),
                    old(self).stamps_used() as u64,
                    source@,
                    frame_view(f),
                ) && final(self).stamps_used() == old(self).stamps_used() + (if old(self).limit() > 0
                    && f.pts >= 0 {
                    1int
                } else {
                    0int
                })
                &&& r is Err ==> final(self).cached() == old(self).cached() && final(self).stamps_used()
                    == old(self).stamps_used()
            },
    {
        match self.lookup(source, frame_num) {
            Some(frame) => Ok(frame),
            None => {
                let decoded = decoder_fn();
                match decoded {
                    Ok(frame) => {
                        let copy = frame.clone();
                        assert(frame_view(copy) == frame_view(frame));
                        self.insert_frame(source, copy);
                        Ok(frame)
                    },
                    Err(e) => Err(e),
                }
            },
        }
    }

    fn next_access(&mut self) -> (stamp: u64)
        requires
            old(self).access_counter < u64::MAX,
        ensures
            stamp == old(self).access_counter,
            final(self).access_counter == old(self).access_counter + 1,
            final(self).entries == old(self).entries,
            final(self).max_ram_frames == old(self).max_ram_frames,
    {
        let stamp = self.access_counter;
        self.access_counter = self.access_counter + 1;
        stamp
    }

    /// Caches `frame` under `(source, frame.pts)` with the newest stamp,
    /// replacing what was cached there; a new key is added at the end, and
    /// when the cache was full the entry used least recently leaves. Every
    /// other entry keeps its frame and its stamp. Nothing is cached with a
    /// zero limit or a negative timestamp.
    pub fn insert_frame(&mut self, source: &str, frame: FrameInfo)
        requires
            old(self).wf(),
            old(self).stamps_used() < u64::MAX,
        ensures
            final(self).wf(),
            final(self).limit() == old(self).limit(),
            final(self).cached() == inserted(
                old(self).cached(),
                old(self).limit(),
                old(self).stamps_used() as u64,
                source@,
                frame_view(frame),
            ),
            final(self).stamps_used() == old(self).stamps_used() + (if old(self).limit() > 0 && frame.pts
                >= 0 {
                1int
            } else {
                0int
            }),
    {
        let ghost before = self.cached();
        let ghost fv = frame_view(frame);
        proof {
            lemma_views_wf(self.entries@, self.access_counter);
        }
        if self.max_ram_frames == 0 || frame.pts < 0 {
            return;
        }
        let stamp = self.next_access();
        let key_frame = frame.pts as u64;
        let src = source.to_owned();
        let found = self.find(&src, key_frame);
        let entry = FrameEntry { frame, source_path: src, last_access: stamp };
        let ghost e = CachedView { source: source@, frame: fv, stamp };
        assert(cached_view(entry) == e);
        let ghost pre = self.entries@;
        match found {
            Some(i) => {
                proof {
                    assert(keyed(before, i as int, source@, key_frame as int));
                    lemma_place_of(before, stamp, i as int, source@, key_frame as int);
                }
                self.entries.set(i, entry);
                proof {
                    assert(self.entries@ == pre.update(i as int, entry));
                    assert(self.cached() =~= before.update(i as int, e));
                    self.lemma_replaced_wf(pre, i as int, entry);
                }
            },
            None => {
                assert(!holds(before, source@, key_frame as int)) by {
                    if holds(before, source@, key_frame as int) {
                        let i = choose|i: int| #[trigger] keyed(before, i, source@, key_frame as int);
                        assert(key_of(pre[i]) == (source@, key_frame as int));
                    }
                }
                self.entries.push(entry);
                proof {
                    self.lemma_pushed_wf(pre, entry);
                }
                let n = self.entries.len();
                if self.entries.len() > self.max_ram_frames {
                    let victim = self.least_recent();
                    let ghost full = self.entries@;
                    assert(full == pre.push(entry));
                    assert(victim != n - 1) by {
                        assert(full[n - 1].last_access == stamp);
                        assert(full[0].last_access < stamp);
                    }
                    proof {
                        assert forall|j: int| 0 <= j < before.len() implies before[victim as int].stamp
                            <= #[trigger] before[j].stamp by {
                            assert(full[j] == pre[j]);
                        }
                        lemma_least_used(before, stamp, victim as int);
                        lemma_remove_wf(full, self.access_counter, victim as int);
                    }
                    self.entries.remove(victim);
                    proof {
                        assert(self.entries@ == full.remove(victim as int));
                        assert(self.cached() =~= before.remove(victim as int).push(e));
                    }
                } else {
                    assert(self.cached() =~= before.push(e));
                }
            },
        }
    }

    /// Replacing an entry with one of the same key and the newest stamp
    /// keeps the cache well formed.
    proof fn lemma_replaced_wf(&self, pre: Seq<FrameEntry>, i: int, entry: FrameEntry)
        requires
            entries_wf(pre, (self.access_counter - 1) as u64),
            self.access_counter >= 1,
            0 <= i < pre.len(),
            key_of(pre[i]) == key_of(entry),
            entry.last_access == self.access_counter - 1,
            self.entries@ == pre.update(i, entry),
            pre.len() <= self.max_ram_frames,
        ensures
            self.wf(),
    {
        let s = self.entries@;
        assert forall|j: int, k: int| 0 <= j < k < s.len() implies key_of(#[trigger] s[j]) != key_of(
            #[trigger] s[k],
        ) && s[j].last_access != s[k].last_access by {
            assert(key_of(s[j]) == key_of(pre[j]));
            assert(key_of(s[k]) == key_of(pre[k]));
        }
        assert forall|j: int| 0 <= j < s.len() implies (#[trigger] s[j]).last_access < self.access_counter
            && s[j].frame.pts >= 0 by {
            if j != i {
                assert(s[j] == pre[j]);
            }
        }
    }

    /// Adding an entry of a new key with the newest stamp keeps the entries
    /// well formed.
    proof fn lemma_pushed_wf(&self, pre: Seq<FrameEntry>, entry: FrameEntry)
        requires
            entries_wf(pre, (self.access_counter - 1) as u64),
            self.access_counter >= 1,
            forall|j: int| 0 <= j < pre.len() ==> key_of(#[trigger] pre[j]) != key_of(entry),
            entry.last_access == self.access_counter - 1,
            entry.frame.pts >= 0,
            self.entries@ == pre.push(entry),
        ensures
            entries_wf(self.entries@, self.access_counter),
    {
        let s = self.entries@;
        assert forall|j: int, k: int| 0 <= j < k < s.len() implies key_of(#[trigger] s[j]) != key_of(
            #[trigger] s[k],
        ) && s[j].last_access != s[k].last_access by {
            assert(s[j] == pre[j]);
            if k < pre.len() {
                assert(s[k] == pre[k]);
            }
        }
        assert forall|j: int| 0 <= j < s.len() implies (#[trigger] s[j]).last_access < self.access_counter
            && s[j].frame.pts >= 0 by {
            if j < pre.len() {
                assert(s[j] == pre[j]);
            }
        }
    }

    /// The position of the entry used least recently.
    fn least_recent(&self) -> (r: usize)
        requires
            self.entries.len() > 0,
        ensures
            r < self.entries.len(),
            forall|j: int|
                0 <= j < self.entries.len() ==> self.entries@[r as int].last_access <= (
                #[trigger] self.entries@[j]).last_access,
    {
        let mut best: usize = 0;
        let mut i: usize = 1;
        while i < self.entries.len()
            invariant
                1 <= i <= self.entries.len(),
                best < i,
                forall|j: int|
                    0 <= j < i ==> self.entries@[best as int].last_access <= (
                    #[trigger] self.entries@[j]).last_access,
            decreases self.entries.len() - i,
        {
            if self.entries[i].last_access < self.entries[best].last_access {
                best = i;
            }
            i = i + 1;
        }
        best
    }

    /// Caches every frame that `decoder_fn` produces for `frame_range`, in
    /// order, as `insert_frame` does, skipping the numbers it fails on.
    /// Afterwards every cached entry was cached before or is a frame of
    /// `source` that `decoder_fn` gave for a number of the range; the frame
    /// it gave for the last number, when it gave one with a timestamp that
    /// is not negative, is cached (with a limit above zero); when it fails on
    /// every number, or with a zero limit, nothing changes.
    pub fn warmup<F: Fn(u64) -> Result<FrameInfo, String>>(
        &mut self,
        source: &str,
        frame_range: std::ops::Range<u64>,
        decoder_fn: F,
    )
        requires
            old(self).wf(),
            old(self).stamps_used() <= u64::MAX - (if frame_range.end > frame_range.start {
                frame_range.end - frame_range.start
            } else {
                0
            }),
            forall|i: u64|
                frame_range.start <= i < frame_range.end ==> decoder_fn.requires((i,)),
        ensures
            final(self).wf(),
            final(self).limit() == old(self).limit(),
            final(self).stamps_used() <= old(self).stamps_used() + (if frame_range.end
                > frame_range.start {
                frame_range.end - frame_range.start
            } else {
                0
            }),
            forall|j: int|
                0 <= j < final(self).cached().len() ==> holds(
                    old(self).cached(),
                    (#[trigger] final(self).cached()[j]).source,
                    final(self).cached()[j].frame.pts as int,
                ) || (final(self).cached()[j].source == source@ && decoded_in(
                    decoder_fn,
                    frame_range.start,
                    frame_range.end,
                    final(self).cached()[j].frame.pts as int,
                )),
            old(self).limit() == 0 ==> final(self).cached() == old(self).cached(),
            old(self).limit() > 0 && frame_range.start < frame_range.end ==> exists|r: Result<FrameInfo, String>|
                #[trigger] decoder_fn.ensures(((frame_range.end - 1) as u64,), r) && (r matches Ok(f) ==> (f.pts >= 0
                    ==> exists|j: int|
                        #[trigger] keyed(final(self).cached(), j, source@, f.pts as int)
                            && final(self).cached()[j].frame == frame_view(f))),
            (forall|k: u64, r: Result<FrameInfo, String>|
                frame_range.start <= k < frame_range.end && #[trigger] decoder_fn.ensures((k,), r) ==> r is Err)
                ==> final(self).cached() == old(self).cached(),
    {
        let start = frame_range.start;
        let end = frame_range.end;
        let ghost first = self.cached();
        assert forall|j: int| 0 <= j < first.len() implies holds(
            first,
            (#[trigger] first[j]).source,
            first[j].frame.pts as int,
        ) by {
            assert(keyed(first, j, first[j].source, first[j].frame.pts as int));
        }
        let mut i = start;
        while i < end
            invariant
                self.wf(),
                self.limit() == old(self).limit(),
                first == old(self).cached(),
                i >= start,
                start == frame_range.start,
                end == frame_range.end,
                start < end ==> i <= end,
                start >= end ==> i == start,
                i < end ==> self.stamps_used() <= u64::MAX - (end - i),
                self.stamps_used() <= old(self).stamps_used() + (i - start),
                forall|k: u64| start <= k < end ==> decoder_fn.requires((k,)),
                forall|j: int|
                    0 <= j < self.cached().len() ==> holds(
                        first,
                        (#[trigger] self.cached()[j]).source,
                        self.cached()[j].frame.pts as int,
                    ) || (self.cached()[j].source == source@ && decoded_in(
                        decoder_fn,
                        start,
                        i,
                        self.cached()[j].frame.pts as int,
                    )),
                old(self).limit() == 0 ==> self.cached() == first,
                old(self).limit() > 0 && i > start ==> exists|r: Result<FrameInfo, String>|
                    #[trigger] decoder_fn.ensures(((i - 1) as u64,), r) && (r matches Ok(f) ==> (f.pts >= 0
                        ==> exists|j: int|
                        #[trigger] keyed(self.cached(), j, source@, f.pts as int)
                            && self.cached()[j].frame == frame_view(f))),
                (forall|k: u64, r: Result<FrameInfo, String>|
                    start <= k < i && #[trigger] decoder_fn.ensures((k,), r) ==> r is Err)
                    ==> self.cached() == first,
            decreases end - i,
        {
            let ghost before = self.cached();
            let r = decoder_fn(i);
            let ghost got = r;
            match r {
                Ok(frame) => {
                    let ghost fr = frame;
                    let ghost stamp = self.stamps_used() as u64;
                    self.insert_frame(source, frame);
                    proof {
                        let after = self.cached();
                        lemma_inserted_holds(before, self.limit(), stamp, source@, frame_view(fr));
                        assert(decoder_fn.ensures((i,), Ok::<FrameInfo, String>(fr)));
                        assert(((i + 1 - 1) as u64) == i);
                        assert(decoder_fn.ensures(((i + 1 - 1) as u64,), got));
                        if forall|k: u64, r: Result<FrameInfo, String>|
                            start <= k < i + 1 && #[trigger] decoder_fn.ensures((k,), r) ==> r is Err {
                            assert(decoder_fn.ensures((i,), got));
                            assert(false);
                        }
                        assert forall|j: int| 0 <= j < after.len() implies holds(
                            first,
                            (#[trigger] after[j]).source,
                            after[j].frame.pts as int,
                        ) || (after[j].source == source@ && decoded_in(
                            decoder_fn,
                            start,
                            (i + 1) as u64,
                            after[j].frame.pts as int,
                        )) by {
                            let e = after[j];
                            if e.source == source@ && e.frame.pts == fr.pts {
                                assert(start <= i < i + 1);
                                assert(decoder_fn.ensures((i,), Ok::<FrameInfo, String>(fr)) && fr.pts
                                    == e.frame.pts as int);
                            } else {
                                assert(holds(before, e.source, e.frame.pts as int));
                                let w = choose|w: int| #[trigger] keyed(before, w, e.source, e.frame.pts as int);
                                assert(before[w].source == e.source);
                                if !holds(first, e.source, e.frame.pts as int) {
                                    assert(decoded_in(decoder_fn, start, i, before[w].frame.pts as int));
                                    let (k, f) = choose|k: u64, f: FrameInfo| start <= k < i
                                        && #[trigger] decoder_fn.ensures((k,), Ok::<FrameInfo, String>(f))
                                        && f.pts == e.frame.pts as int;
                                    assert(start <= k < i + 1);
                                }
                            }
                        }
                    }
                },
                Err(_) => {
                    proof {
                        assert forall|j: int| 0 <= j < before.len() implies holds(
                            first,
                            (#[trigger] before[j]).source,
                            before[j].frame.pts as int,
                        ) || (before[j].source == source@ && decoded_in(
                            decoder_fn,
                            start,
                            (i + 1) as u64,
                            before[j].frame.pts as int,
                        )) by {
                            let e = before[j];
                            if !holds(first, e.source, e.frame.pts as int) {
                                let (k, f) = choose|k: u64, f: FrameInfo| start <= k < i
                                    && #[trigger] decoder_fn.ensures((k,), Ok::<FrameInfo, String>(f))
                                    && f.pts == e.frame.pts as int;
                                assert(start <= k < i + 1);
                            }
                        }
                        assert(((i + 1 - 1) as u64) == i);
                        assert(decoder_fn.ensures(((i + 1 - 1) as u64,), got));
                        assert(got is Err);
                        if forall|k: u64, r: Result<FrameInfo, String>|
                            start <= k < i + 1 && #[trigger] decoder_fn.ensures((k,), r) ==> r is Err {
                            assert forall|k: u64, r: Result<FrameInfo, String>|
                                start <= k < i && #[trigger] decoder_fn.ensures((k,), r) implies r is Err by {}
                        }
                    }
                },
            }
            i = i + 1;
        }
    }

    /// Forgets every frame of `source`.
    pub fn clear_source(&mut self, source: &str)
        requires
            old(self).wf(),
        ensures
            final(self).wf(),
            final(self).limit() == old(self).limit(),
            final(self).entries_view() == old(self).entries_view().filter(
                |e: FrameEntry| e.source_path@ != source@,
            ),
            final(self).stamps_used() == old(self).stamps_used(),
    {
        let ghost pred = |e: FrameEntry| e.source_path@ != source@;
        let ghost orig = self.entries@;
        let src = source.to_owned();
        let mut i: usize = 0;
        let ghost mut j: int = 0;
        while i < self.entries.len()
            invariant
                i <= self.entries.len(),
                0 <= j <= orig.len(),
                self.entries.len() - i == orig.len() - j,
                self.wf(),
                self.max_ram_frames == old(self).max_ram_frames,
                self.access_counter == old(self).access_counter,
                self.entries@.take(i as int) == orig.take(j).filter(pred),
                self.entries@.skip(i as int) == orig.skip(j),
                pred == (|e: FrameEntry| e.source_path@ != source@),
                src@ == source@,
            decreases self.entries.len() - i,
        {
            reveal_with_fuel(Seq::filter, 1);
            let ghost cur = self.entries@;
            assert(cur.skip(i as int)[0] == orig.skip(j)[0]);
            let ghost e = orig[j];
            assert(orig.take(j + 1).drop_last() =~= orig.take(j));
            assert(cur.skip(i as int).skip(1) =~= cur.skip(i + 1));
            assert(orig.skip(j).skip(1) =~= orig.skip(j + 1));
            if self.entries[i].source_path == src {
                proof {
                    lemma_remove_wf(cur, self.access_counter, i as int);
                }
                self.entries.remove(i);
                assert(self.entries@.take(i as int) =~= cur.take(i as int));
                assert(self.entries@.skip(i as int) =~= orig.skip(j + 1));
            } else {
                assert(self.entries@.take(i + 1) =~= cur.take(i as int).push(e));
                assert(self.entries@.skip(i + 1) =~= orig.skip(j + 1));
                i = i + 1;
            }
            proof {
                j = j + 1;
            }
        }
        assert(orig.skip(j).len() == 0);
        assert(orig.take(j) =~= orig);
        assert(self.entries@.take(i as int) =~= self.entries@);
    }

    /// Forgets every frame.
    pub fn clear_all(&mut self)
        requires
            old(self).wf(),
        ensures
            final(self).wf(),
            final(self).limit() == old(self).limit(),
            final(self).entries_view().len() == 0,
            final(self).stamps_used() == old(self).stamps_used(),
    {
        self.entries = Vec::new();
    }

    /// How many access stamps were handed out; the cache can hand out
    /// stamps while this stays below `u64::MAX`.
    pub fn stamps(&self) -> (n: u64)
        ensures
            n == self.stamps_used(),
    {
        self.access_counter
    }

    /// `(keys, frames)` in the cache; each key holds one frame.
    pub fn cache_stats(&self) -> (r: (usize, usize))
        ensures
            r.0 == self.entries_view().len(),
            r.1 == self.entries_view().len(),
    {
        let n = self.entries.len();
        (n, n)
    }
}

/// A well formed cache has well formed entries, within its limit, so the
/// laws on `inserted` and `touched` apply to it with its own stamp count.
pub proof fn lemma_cache_views_wf(b: &FrameBuffer)
    requires
        b.wf(),
    ensures
        views_wf(b.cached(), b.stamps_used() as u64),
        b.cached().len() <= b.limit(),
{
    lemma_views_wf(b.entries@, b.access_counter);
}

/// The cache never holds more frames than its limit, whatever the sources.
pub proof fn lemma_limit_is_global(b: &FrameBuffer)
    requires
        b.wf(),
    ensures
        b.entries_view().len() <= b.limit(),
{
}

impl FrameEntry {
    fn clone_entry(&self) -> (r: FrameEntry)
        ensures
            same_frame(r.frame, self.frame),
            r.source_path@ == self.source_path@,
            r.last_access == self.last_access,
    {
        FrameEntry {
            frame: self.frame.clone(),
            source_path: self.source_path.clone(),
            last_access: self.last_access,
        }
    }
}

} // verus!
