//! Media browser: filters, the checks before dropping a medium on a track,
//! and a short-lived cache of which files exist.
use vstd::prelude::*;
use crate::text::{
    chars_contain, chars_equal, chars_le, chars_less_eq, chars_to_string, components_le,
    components_less_eq, contains_seq, lemma_chars_le_total, lemma_chars_le_transitive,
    lemma_components_le_antisymmetric, lemma_components_le_total, lemma_components_le_transitive,
    lowercase_of, push_str, split_words, string_views, to_chars, to_lowercase, views_of, words,
};

verus! {

/// Kind of a medium.
#[derive(Clone, Copy, Debug, Default, PartialEq, Eq, Structural)]
pub enum Kind {
    #[default]
    All,
    Video,
    Audio,
    Generated,
}

/// Proxy state of a medium.
#[derive(Clone, Copy, Debug, Default, PartialEq, Eq, Structural)]
pub enum Proxy {
    #[default]
    All,
    /// Without a linked proxy.
    Unlinked,
    Available,
    Missing,
}

/// Sort key of the browser.
#[derive(Clone, Copy, Debug, Default, PartialEq, Eq, Structural)]
pub enum Sort {
    #[default]
    Name,
    Duration,
    Usage,
}

/// The browser's filters and sort.
#[derive(Default, Clone, Copy)]
pub struct Options {
    pub kind: Kind,
    pub offline_only: bool,
    pub proxy: Proxy,
    pub sort: Sort,
    pub descending: bool,
}

/// Why a drop is refused, if it is: a locked track first, then a stream the
/// medium lacks.
pub open spec fn drop_refusal(locked: bool, is_video: bool, has_video: bool, has_audio: bool) -> Option<
    Seq<char>,
> {
    if locked {
        Some("La pista de destino esta bloqueada"@)
    } else if is_video && !has_video {
        Some("Ese medio no tiene video"@)
    } else if !is_video && !has_audio {
        Some("Ese medio no tiene audio"@)
    } else {
        None
    }
}

/// Checks a drop before taking an edit snapshot or clearing the destination
/// span: the track must be unlocked and the medium must carry the track's
/// stream.
pub fn validate_drop_destination(locked: bool, is_video: bool, has_video: bool, has_audio: bool) -> (r:
    Result<(), &'static str>)
    ensures
        match drop_refusal(locked, is_video, has_video, has_audio) {
            Some(m) => r matches Err(e) && e@ == m,
            None => r is Ok,
        },
{
    if locked {
        Err("La pista de destino esta bloqueada")
    } else if is_video && !has_video {
        Err("Ese medio no tiene video")
    } else if !is_video && !has_audio {
        Err("Ese medio no tiene audio")
    } else {
        Ok(())
    }
}

/// How long the answers of `FileStatus` are reused, in milliseconds.
pub open spec fn file_status_ttl() -> nat {
    2000
}

/// Which files exist, as the interface last asked. Answers are reused until
/// they are two seconds old; no folder walks, no probing of media.
pub struct FileStatus {
    entries: Vec<(String, bool)>,
    checked_at: Option<u64>,
}

impl FileStatus {
    /// The remembered answers, path by path.
    pub closed spec fn answers(&self) -> Seq<(Seq<char>, bool)> {
        self.entries@.map_values(|e: (String, bool)| (e.0@, e.1))
    }

    /// When the answers were started (milliseconds of a monotonic clock).
    pub closed spec fn started(&self) -> Option<u64> {
        self.checked_at
    }

    /// No answers yet.
    pub fn new() -> (s: Self)
        ensures
            s.answers().len() == 0,
            s.started() is None,
    {
        FileStatus { entries: Vec::new(), checked_at: None }
    }

    /// Starts a frame of the interface at `now_ms`: answers older than two
    /// seconds (or never started) are forgotten and the clock restarts.
    pub fn begin_frame(&mut self, now_ms: u64)
        ensures
            (old(self).started() matches Some(at) && now_ms >= at && now_ms - at < file_status_ttl())
                ==> *final(self) == *old(self),
            !(old(self).started() matches Some(at) && now_ms >= at && now_ms - at
                < file_status_ttl()) ==> final(self).answers().len() == 0 && final(self).started()
                == Some(now_ms),
    {
        let fresh = match self.checked_at {
            Some(at) => now_ms >= at && now_ms - at < 2000,
            None => false,
        };
        if !fresh {
            self.entries = Vec::new();
            self.checked_at = Some(now_ms);
            assert(self.answers() =~= Seq::<(Seq<char>, bool)>::empty());
        }
    }

    /// Whether `path` is a file: the remembered answer when there is one;
    /// else `probe` asks the file system, and its answer is remembered.
    pub fn is_file<F: FnOnce() -> bool>(&mut self, path: &str, probe: F) -> (b: bool)
        requires
            call_requires(probe, ()),
        ensures
            final(self).started() == old(self).started(),
            (exists|i: int| 0 <= i < old(self).answers().len() && (#[trigger] old(self).answers()[i]).0 == path@)
                ==> *final(self) == *old(self) && exists|i: int|
                0 <= i < old(self).answers().len() && (#[trigger] old(self).answers()[i]).0 == path@
                    && old(self).answers()[i].1 == b && forall|j: int|
                    0 <= j < i ==> (#[trigger] old(self).answers()[j]).0 != path@,
            !(exists|i: int| 0 <= i < old(self).answers().len() && (#[trigger] old(self).answers()[i]).0 == path@)
                ==> call_ensures(probe, (), b) && final(self).answers() == old(self).answers().push((path@, b)),
    {
        let key = path.to_owned();
        let mut i: usize = 0;
        while i < self.entries.len()
            invariant
                i <= self.entries.len(),
                key@ == path@,
                forall|j: int| 0 <= j < i ==> (#[trigger] self.answers()[j]).0 != path@,
            decreases self.entries.len() - i,
        {
            if self.entries[i].0 == key {
                let b = self.entries[i].1;
                assert(self.answers()[i as int].0 == path@);
                return b;
            }
            assert(self.answers()[i as int].0 == self.entries@[i as int].0@);
            i = i + 1;
        }
        let on_disk = probe();
        let ghost before = self.answers();
        self.entries.push((key, on_disk));
        assert(self.answers() =~= before.push((path@, on_disk)));
        on_disk
    }
}

impl Default for FileStatus {
    fn default() -> (s: Self)
        ensures
            s.answers().len() == 0,
            s.started() is None,
    {
        FileStatus::new()
    }
}


// ---------------------------------------------------------------------------
// Rows of the browser
// ---------------------------------------------------------------------------

/// The place of a double in `f64::total_cmp` order, from its bits: negative
/// values (sign bit set) reversed below the positive ones.
pub open spec fn total_key(bits: u64) -> int {
    if bits >= 0x8000_0000_0000_0000 {
        0xFFFF_FFFF_FFFF_FFFF - bits
    } else {
        bits + 0x8000_0000_0000_0000
    }
}

/// A double is finite unless its exponent bits are all set.
pub open spec fn finite_bits(bits: u64) -> bool {
    (bits / 0x10_0000_0000_0000) % 0x800 != 0x7ff
}

pub fn total_key_exec(bits: u64) -> (k: u64)
    ensures
        k == total_key(bits),
{
    if bits >= 0x8000_0000_0000_0000 {
        0xFFFF_FFFF_FFFF_FFFF - bits
    } else {
        bits + 0x8000_0000_0000_0000
    }
}

fn finite_exec(bits: u64) -> (b: bool)
    ensures
        b == finite_bits(bits),
{
    (bits / 0x10_0000_0000_0000) % 0x800 != 0x7ff
}

/// A use of a medium on the timeline. Its times are doubles, held by their
/// bits; its path also by its components (which order and identify it).
#[derive(Debug, Clone)]
pub struct Use {
    pub index: usize,
    pub path: String,
    pub components: Vec<String>,
    pub name: String,
    pub kind: Kind,
    pub duration: u64,
    pub start: u64,
    pub track: usize,
    pub offline: bool,
    pub proxy: Proxy,
}

/// A medium of the browser and its uses.
#[derive(Debug, Clone)]
pub struct Row {
    pub path: String,
    pub components: Vec<String>,
    pub name: String,
    pub kind: Kind,
    /// The longest duration among its uses (the bits of a double).
    pub duration: u64,
    /// Timeline order, including uses whose own names do not match a search.
    pub uses: Vec<usize>,
    pub offline: bool,
    /// Unlinked, available and missing linked proxies, counted per use.
    pub proxies: [usize; 3],
    search: String,
}

/// A row as values.
pub struct RowView {
    pub path: Seq<char>,
    pub components: Seq<Seq<char>>,
    pub name: Seq<char>,
    pub kind: Kind,
    pub duration: u64,
    pub uses: Seq<usize>,
    pub offline: bool,
    pub proxies: Seq<usize>,
    pub search: Seq<char>,
}

impl Row {
    pub closed spec fn search_view(&self) -> Seq<char> {
        self.search@
    }

    pub closed spec fn view_of(&self) -> RowView {
        RowView {
            path: self.path@,
            components: string_views(self.components@),
            name: self.name@,
            kind: self.kind,
            duration: self.duration,
            uses: self.uses@,
            offline: self.offline,
            proxies: self.proxies@,
            search: self.search_view(),
        }
    }
}

pub open spec fn rows_view(v: Seq<Row>) -> Seq<RowView> {
    v.map_values(|r: Row| r.view_of())
}

/// `a` comes no later than `b` on the timeline: by start, then track, then
/// index.
pub open spec fn use_le(a: Use, b: Use) -> bool {
    total_key(a.start) < total_key(b.start) || (total_key(a.start) == total_key(b.start) && (a.track
        < b.track || (a.track == b.track && a.index <= b.index)))
}

/// `x` placed after every element of the sorted `s` that `le` puts no later.
pub open spec fn insert_sorted<T>(s: Seq<T>, x: T, le: spec_fn(T, T) -> bool) -> Seq<T>
    decreases s.len(),
{
    if s.len() == 0 || le(s.last(), x) {
        s.push(x)
    } else {
        insert_sorted(s.drop_last(), x, le).push(s.last())
    }
}

/// `s` sorted by `le`, keeping the order of elements `le` puts together (as a
/// stable sort does).
pub open spec fn stable_sorted<T>(s: Seq<T>, le: spec_fn(T, T) -> bool) -> Seq<T>
    decreases s.len(),
{
    if s.len() == 0 {
        s
    } else {
        insert_sorted(stable_sorted(s.drop_last(), le), s.last(), le)
    }
}

pub open spec fn proxy_slot(p: Proxy) -> int {
    match p {
        Proxy::Available => 1,
        Proxy::Missing => 2,
        _ => 0,
    }
}

/// A new row for the medium of `u`, before `u` is counted.
pub open spec fn new_row(u: Use) -> RowView {
    RowView {
        path: u.path@,
        components: string_views(u.components@),
        name: u.name@,
        kind: u.kind,
        duration: 0,
        uses: Seq::empty(),
        offline: false,
        proxies: seq![0usize, 0usize, 0usize],
        search: lowercase_of(u.path@),
    }
}

/// The row once `u` is counted in it.
pub open spec fn with_use(r: RowView, u: Use) -> RowView {
    RowView {
        search: r.search + seq!['\n'] + lowercase_of(u.name@),
        uses: r.uses.push(u.index),
        offline: r.offline || u.offline,
        kind: if u.kind == Kind::Video {
            Kind::Video
        } else {
            r.kind
        },
        duration: if finite_bits(u.duration) && total_key(u.duration) > total_key(r.duration) {
            u.duration
        } else {
            r.duration
        },
        proxies: if u.kind != Kind::Generated {
            r.proxies.update(proxy_slot(u.proxy), (r.proxies[proxy_slot(u.proxy)] + 1) as usize)
        } else {
            r.proxies
        },
        ..r
    }
}

/// The first row made for a medium (not generated) with these components.
pub open spec fn keyed_row(rows: Seq<RowView>, keyed: Seq<bool>, components: Seq<Seq<char>>) -> Option<int> {
    if exists|p: int| 0 <= p < rows.len() && keyed[p] && #[trigger] rows[p].components == components {
        Some(
            choose|p: int|
                0 <= p < rows.len() && keyed[p] && #[trigger] rows[p].components == components && forall|q: int|
                    0 <= q < p ==> !(keyed[q] && #[trigger] rows[q].components == components),
        )
    } else {
        None
    }
}

/// The uses, in timeline order, gathered into rows: a generated item is a
/// row of its own; other uses share the row of their medium (by path).
/// Along with the rows, which of them stand for a medium.
pub open spec fn grouped(uses: Seq<Use>) -> (Seq<RowView>, Seq<bool>)
    decreases uses.len(),
{
    if uses.len() == 0 {
        (Seq::empty(), Seq::empty())
    } else {
        let (rows, keyed) = grouped(uses.drop_last());
        group_step(rows, keyed, uses.last())
    }
}

/// One use counted into the rows: into the row of its medium when there is
/// one (never for a generated item), else into a new row.
pub open spec fn group_step(rows: Seq<RowView>, keyed: Seq<bool>, u: Use) -> (Seq<RowView>, Seq<bool>) {
    let found = if u.kind == Kind::Generated {
        None
    } else {
        keyed_row(rows, keyed, string_views(u.components@))
    };
    match found {
        Some(p) => (rows.update(p, with_use(rows[p], u)), keyed),
        None => (rows.push(with_use(new_row(u), u)), keyed.push(u.kind != Kind::Generated)),
    }
}

/// The row passes the filters and holds every word of the (lowercased)
/// query in its path or the names of its uses.
pub open spec fn row_shown(r: RowView, tokens: Seq<Seq<char>>, o: Options) -> bool {
    &&& (o.kind == Kind::All || o.kind == r.kind)
    &&& (!o.offline_only || r.offline)
    &&& match o.proxy {
        Proxy::All => true,
        Proxy::Unlinked => r.proxies[0] > 0,
        Proxy::Available => r.proxies[1] > 0,
        Proxy::Missing => r.proxies[2] > 0,
    }
    &&& forall|i: int| 0 <= i < tokens.len() ==> contains_seq(r.search, #[trigger] tokens[i])
}

/// -1, 0 or 1 as `a` is below, equal to or above `b`.
pub open spec fn compare_int(a: int, b: int) -> int {
    if a < b {
        -1
    } else if a == b {
        0
    } else {
        1
    }
}

/// How two texts compare, as `str` ordering does.
pub open spec fn compare_text(a: Seq<char>, b: Seq<char>) -> int {
    if a == b {
        0
    } else if chars_le(a, b) {
        -1
    } else {
        1
    }
}

pub open spec fn compare_components(a: Seq<Seq<char>>, b: Seq<Seq<char>>) -> int {
    if a == b {
        0
    } else if components_le(a, b) {
        -1
    } else {
        1
    }
}

/// How two rows compare for the browser's sort: by the chosen key
/// (reversed when descending), then by path, then by first use.
pub open spec fn compare_rows(a: RowView, b: RowView, o: Options) -> int {
    let primary = match o.sort {
        Sort::Name => compare_text(lowercase_of(a.name), lowercase_of(b.name)),
        Sort::Duration => compare_int(total_key(a.duration), total_key(b.duration)),
        Sort::Usage => compare_int(a.uses.len() as int, b.uses.len() as int),
    };
    let primary = if o.descending {
        -primary
    } else {
        primary
    };
    if primary != 0 {
        primary
    } else {
        let by_path = compare_components(a.components, b.components);
        if by_path != 0 {
            by_path
        } else {
            compare_int(a.uses[0] as int, b.uses[0] as int)
        }
    }
}

/// The browser's rows for the uses of the timeline: gathered by medium in
/// timeline order, filtered, then sorted.
pub open spec fn rows_of(uses: Seq<Use>, query: Seq<char>, o: Options) -> Seq<RowView> {
    let ordered = stable_sorted(uses, timeline_order());
    let rows = grouped(ordered).0;
    let shown = rows.filter(shown_by(words(lowercase_of(query)), o));
    stable_sorted(shown, browser_order(o))
}

/// Timeline order of uses, as a relation.
pub open spec fn timeline_order() -> spec_fn(Use, Use) -> bool {
    |a: Use, b: Use| use_le(a, b)
}

/// The rows that pass the filters and the search, as a predicate.
pub open spec fn shown_by(tokens: Seq<Seq<char>>, o: Options) -> spec_fn(RowView) -> bool {
    |r: RowView| row_shown(r, tokens, o)
}

/// The browser's order of rows, as a relation.
pub open spec fn browser_order(o: Options) -> spec_fn(RowView, RowView) -> bool {
    |a: RowView, b: RowView| compare_rows(a, b, o) <= 0
}


/// Where `insert_sorted` puts `x`: after the first `k` elements.
pub proof fn lemma_insert_sorted_at<T>(s: Seq<T>, x: T, le: spec_fn(T, T) -> bool, k: int)
    requires
        0 <= k <= s.len(),
        k == 0 || le(s[k - 1], x),
        forall|j: int| k <= j < s.len() ==> !le(#[trigger] s[j], x),
    ensures
        insert_sorted(s, x, le) == s.take(k).push(x) + s.skip(k),
    decreases s.len(),
{
    if s.len() == 0 || le(s.last(), x) {
        if k < s.len() {
            assert(!le(s[s.len() - 1], x));
        }
        assert(s.take(k).push(x) + s.skip(k) =~= s.push(x));
    } else {
        lemma_insert_sorted_at(s.drop_last(), x, le, k);
        assert(s.drop_last().take(k) =~= s.take(k));
        assert((s.take(k).push(x) + s.drop_last().skip(k)).push(s.last()) =~= s.take(k).push(x)
            + s.skip(k));
    }
}

/// Every element comes no later, by `le`, than each one after it.
pub open spec fn sorted_by<T>(s: Seq<T>, le: spec_fn(T, T) -> bool) -> bool {
    forall|i: int, j: int| 0 <= i < j < s.len() ==> le(#[trigger] s[i], #[trigger] s[j])
}

/// `le` orders any two elements, and transitively.
pub open spec fn total_preorder<T>(le: spec_fn(T, T) -> bool) -> bool {
    &&& forall|a: T, b: T| #[trigger] le(a, b) || le(b, a)
    &&& forall|a: T, b: T, c: T| #[trigger] le(a, b) && #[trigger] le(b, c) ==> le(a, c)
}

/// Inserting adds `x` and keeps every other element.
pub proof fn lemma_insert_sorted_keeps<T>(s: Seq<T>, x: T, le: spec_fn(T, T) -> bool)
    ensures
        insert_sorted(s, x, le).to_multiset() == s.to_multiset().insert(x),
        insert_sorted(s, x, le).len() == s.len() + 1,
    decreases s.len(),
{
    broadcast use vstd::seq_lib::group_to_multiset_ensures;

    if s.len() == 0 || le(s.last(), x) {
    } else {
        let d = s.drop_last();
        lemma_insert_sorted_keeps(d, x, le);
        assert(s =~= d.push(s.last()));
        assert(insert_sorted(s, x, le).to_multiset() =~= d.to_multiset().insert(x).insert(s.last()));
        assert(s.to_multiset().insert(x) =~= d.to_multiset().insert(s.last()).insert(x));
    }
}

/// A stable sort keeps every element, whatever the relation.
pub proof fn lemma_stable_sorted_keeps<T>(s: Seq<T>, le: spec_fn(T, T) -> bool)
    ensures
        stable_sorted(s, le).to_multiset() == s.to_multiset(),
        stable_sorted(s, le).len() == s.len(),
    decreases s.len(),
{
    broadcast use vstd::seq_lib::group_to_multiset_ensures;

    if s.len() > 0 {
        let d = s.drop_last();
        lemma_stable_sorted_keeps(d, le);
        lemma_insert_sorted_keeps(stable_sorted(d, le), s.last(), le);
        assert(s =~= d.push(s.last()));
    }
}

/// Inserting into a sorted sequence keeps it sorted.
pub proof fn lemma_insert_sorted_sorted<T>(s: Seq<T>, x: T, le: spec_fn(T, T) -> bool)
    requires
        sorted_by(s, le),
        total_preorder(le),
    ensures
        sorted_by(insert_sorted(s, x, le), le),
    decreases s.len(),
{
    broadcast use vstd::seq_lib::group_to_multiset_ensures;

    if s.len() == 0 || le(s.last(), x) {
        let r = s.push(x);
        assert forall|i: int, j: int| 0 <= i < j < r.len() implies le(#[trigger] r[i], #[trigger] r[j]) by {
            if j == s.len() && i < s.len() - 1 {
                assert(le(s[i], s[s.len() - 1]));
                assert(le(s[i], s.last()) && le(s.last(), x));
            }
        }
    } else {
        let d = s.drop_last();
        assert(sorted_by(d, le)) by {
            assert forall|i: int, j: int| 0 <= i < j < d.len() implies le(#[trigger] d[i], #[trigger] d[j]) by {
                assert(le(s[i], s[j]));
            }
        }
        lemma_insert_sorted_sorted(d, x, le);
        lemma_insert_sorted_keeps(d, x, le);
        let r1 = insert_sorted(d, x, le);
        let r = r1.push(s.last());
        assert(le(x, s.last())) by {
            assert(le(s.last(), x) || le(x, s.last()));
        }
        assert forall|i: int, j: int| 0 <= i < j < r.len() implies le(#[trigger] r[i], #[trigger] r[j]) by {
            if j == r1.len() {
                let y = r1[i];
                assert(r1.to_multiset().count(y) > 0);
                assert(d.to_multiset().insert(x).count(y) > 0);
                if y != x {
                    assert(d.to_multiset().count(y) > 0);
                    let k = choose|k: int| 0 <= k < d.len() && d[k] == y;
                    assert(le(s[k], s[s.len() - 1]));
                }
            } else {
                assert(r[i] == r1[i] && r[j] == r1[j]);
            }
        }
    }
}

/// Where `x` lands when inserted into a sorted sequence: after every element
/// that comes no later than it, before every other.
pub proof fn lemma_insert_sorted_place<T>(s: Seq<T>, x: T, le: spec_fn(T, T) -> bool) -> (k: int)
    requires
        sorted_by(s, le),
        total_preorder(le),
    ensures
        0 <= k < insert_sorted(s, x, le).len(),
        insert_sorted(s, x, le)[k] == x,
        forall|i: int| 0 <= i < k ==> le(#[trigger] insert_sorted(s, x, le)[i], x),
        forall|i: int| k < i < insert_sorted(s, x, le).len() ==> !le(#[trigger] insert_sorted(s, x, le)[i], x),
    decreases s.len(),
{
    lemma_insert_sorted_keeps(s, x, le);
    if s.len() == 0 || le(s.last(), x) {
        let r = s.push(x);
        assert forall|i: int| 0 <= i < s.len() implies le(#[trigger] r[i], x) by {
            if i < s.len() - 1 {
                assert(le(s[i], s[s.len() - 1]));
                assert(le(s[i], s.last()) && le(s.last(), x));
            }
        }
        s.len() as int
    } else {
        let d = s.drop_last();
        assert(sorted_by(d, le)) by {
            assert forall|i: int, j: int| 0 <= i < j < d.len() implies le(#[trigger] d[i], #[trigger] d[j]) by {
                assert(le(s[i], s[j]));
            }
        }
        let k = lemma_insert_sorted_place(d, x, le);
        lemma_insert_sorted_keeps(d, x, le);
        let r1 = insert_sorted(d, x, le);
        let r = r1.push(s.last());
        assert forall|i: int| 0 <= i < k implies le(#[trigger] r[i], x) by {
            assert(r[i] == r1[i]);
        }
        assert forall|i: int| k < i < r.len() implies !le(#[trigger] r[i], x) by {
            if i < r1.len() {
                assert(r[i] == r1[i]);
            }
        }
        k
    }
}

/// A stable sort keeps the elements and sorts them.
pub proof fn lemma_stable_sorted<T>(s: Seq<T>, le: spec_fn(T, T) -> bool)
    requires
        total_preorder(le),
    ensures
        sorted_by(stable_sorted(s, le), le),
        stable_sorted(s, le).to_multiset() == s.to_multiset(),
        stable_sorted(s, le).len() == s.len(),
    decreases s.len(),
{
    broadcast use vstd::seq_lib::group_to_multiset_ensures;

    if s.len() > 0 {
        let d = s.drop_last();
        lemma_stable_sorted(d, le);
        lemma_insert_sorted_sorted(stable_sorted(d, le), s.last(), le);
        lemma_insert_sorted_keeps(stable_sorted(d, le), s.last(), le);
        assert(s =~= d.push(s.last()));
    }
}

fn use_le_exec(a: &Use, b: &Use) -> (r: bool)
    ensures
        r == use_le(*a, *b),
{
    let ka = total_key_exec(a.start);
    let kb = total_key_exec(b.start);
    ka < kb || (ka == kb && (a.track < b.track || (a.track == b.track && a.index <= b.index)))
}

/// The uses in timeline order (a stable sort).
fn sort_uses(uses: Vec<Use>) -> (r: Vec<Use>)
    ensures
        r@ == stable_sorted(uses@, timeline_order()),
{
    let ghost le = timeline_order();
    let ghost input = uses@;
    let count = uses.len();
    let mut rest = uses;
    let mut reversed: Vec<Use> = Vec::new();
    while rest.len() > 0
        invariant
            input == rest@ + reversed@.reverse(),
        decreases rest.len(),
    {
        let ghost before = rest@;
        let ghost rb = reversed@;
        let u = rest.pop().unwrap();
        reversed.push(u);
        assert(reversed@.reverse() =~= seq![u] + rb.reverse());
        assert(before =~= rest@.push(u));
        assert(input =~= rest@ + reversed@.reverse());
    }
    assert(reversed@.reverse() =~= input);
    let mut out: Vec<Use> = Vec::new();
    let mut k: usize = 0;
    assert(input.take(0) =~= Seq::<Use>::empty());
    while reversed.len() > 0
        invariant
            le == timeline_order(),
            k + reversed@.len() == input.len(),
            input.len() == count,
            reversed@.reverse() == input.skip(k as int),
            out@ == stable_sorted(input.take(k as int), le),
        decreases reversed.len(),
    {
        let ghost rb = reversed@;
        let u = reversed.pop().unwrap();
        assert(input[k as int] == u) by {
            assert(rb.reverse()[0] == rb[rb.len() - 1]);
            assert(input.skip(k as int)[0] == input[k as int]);
        }
        assert(reversed@.reverse() =~= rb.reverse().skip(1));
        assert(input.skip(k + 1) =~= input.skip(k as int).skip(1));
        let ghost sv = out@;
        let mut p = out.len();
        while p > 0 && !use_le_exec(&out[p - 1], &u)
            invariant
                p <= out.len(),
                sv == out@,
                le == timeline_order(),
                forall|j: int| p <= j < sv.len() ==> !le(#[trigger] sv[j], u),
            decreases p,
        {
            p = p - 1;
        }
        proof {
            lemma_insert_sorted_at(sv, u, le, p as int);
            assert(input.take(k + 1).drop_last() =~= input.take(k as int));
            assert(input.take(k + 1).last() == u);
        }
        out.insert(p, u);
        assert(out@ =~= sv.take(p as int).push(u) + sv.skip(p as int));
        k = k + 1;
    }
    assert(input.take(k as int) =~= input);
    out
}


fn components_equal(a: &Vec<String>, b: &Vec<String>) -> (r: bool)
    ensures
        r == (string_views(a@) == string_views(b@)),
{
    if a.len() != b.len() {
        assert(string_views(a@).len() != string_views(b@).len());
        return false;
    }
    let mut i: usize = 0;
    while i < a.len()
        invariant
            i <= a.len() == b.len(),
            forall|j: int| 0 <= j < i ==> a@[j]@ == b@[j]@,
        decreases a.len() - i,
    {
        if a[i] != b[i] {
            assert(string_views(a@)[i as int] != string_views(b@)[i as int]);
            return false;
        }
        i = i + 1;
    }
    assert(string_views(a@) =~= string_views(b@));
    true
}

fn copy_strings(v: &Vec<String>) -> (r: Vec<String>)
    ensures
        string_views(r@) == string_views(v@),
{
    let mut r: Vec<String> = Vec::new();
    let mut i: usize = 0;
    while i < v.len()
        invariant
            i <= v.len(),
            r@.len() == i,
            forall|j: int| 0 <= j < i ==> r@[j]@ == v@[j]@,
        decreases v.len() - i,
    {
        r.push(v[i].clone());
        i = i + 1;
    }
    assert(string_views(r@) =~= string_views(v@));
    r
}

/// A row is well counted: no proxy tally above its number of uses.
pub open spec fn counted(r: RowView) -> bool {
    &&& r.proxies.len() == 3
    &&& forall|k: int| 0 <= k < 3 ==> #[trigger] r.proxies[k] <= r.uses.len()
}

fn new_row_exec(u: &Use) -> (r: Row)
    ensures
        r.view_of() == new_row(*u),
        counted(r.view_of()),
{
    let r = Row {
        path: u.path.clone(),
        components: copy_strings(&u.components),
        name: u.name.clone(),
        kind: u.kind,
        duration: 0,
        uses: Vec::new(),
        offline: false,
        proxies: [0, 0, 0],
        search: to_lowercase(u.path.as_str()),
    };
    assert(r.view_of().proxies =~= seq![0usize, 0usize, 0usize]);
    assert(r.view_of().uses =~= Seq::<usize>::empty());
    r
}

fn with_use_exec(r: Row, u: &Use) -> (out: Row)
    requires
        counted(r.view_of()),
        r.uses@.len() < usize::MAX,
    ensures
        out.view_of() == with_use(r.view_of(), *u),
        counted(out.view_of()),
        out.view_of().uses.len() == r.view_of().uses.len() + 1,
{
    let ghost rv = r.view_of();
    let mut search = to_chars(r.search.as_str());
    search.push('\n');
    let lowered = to_lowercase(u.name.as_str());
    push_str(&mut search, lowered.as_str());
    let mut uses = r.uses;
    uses.push(u.index);
    let duration = if finite_exec(u.duration) && total_key_exec(u.duration) > total_key_exec(r.duration) {
        u.duration
    } else {
        r.duration
    };
    let mut proxies = r.proxies;
    if u.kind != Kind::Generated {
        let slot: usize = match u.proxy {
            Proxy::Available => 1,
            Proxy::Missing => 2,
            _ => 0,
        };
        assert(proxies@[slot as int] <= rv.uses.len());
        proxies[slot] = proxies[slot] + 1;
    }
    let out = Row {
        path: r.path,
        components: r.components,
        name: r.name,
        kind: if u.kind == Kind::Video {
            Kind::Video
        } else {
            r.kind
        },
        duration,
        uses,
        offline: r.offline || u.offline,
        proxies,
        search: chars_to_string(&search),
    };
    assert(out.view_of().search =~= rv.search + seq!['\n'] + lowercase_of(u.name@));
    assert(out.view_of().proxies =~= with_use(rv, *u).proxies);
    out
}

fn find_keyed(rows: &Vec<Row>, keyed: &Vec<bool>, components: &Vec<String>) -> (r: Option<usize>)
    requires
        rows.len() == keyed.len(),
    ensures
        r is None <==> keyed_row(rows_view(rows@), keyed@, string_views(components@)) is None,
        r matches Some(q) ==> q < rows.len() && keyed_row(rows_view(rows@), keyed@, string_views(components@))
            == Some(q as int),
{
    let ghost rv = rows_view(rows@);
    let ghost c = string_views(components@);
    let mut p: usize = 0;
    while p < rows.len()
        invariant
            p <= rows.len() == keyed.len(),
            rv == rows_view(rows@),
            c == string_views(components@),
            forall|q: int| 0 <= q < p ==> !(keyed@[q] && #[trigger] rv[q].components == c),
        decreases rows.len() - p,
    {
        assert(rv[p as int] == rows@[p as int].view_of());
        if keyed[p] && components_equal(&rows[p].components, components) {
            assert(rv[p as int].components == c);
            proof {
                let w = choose|w: int|
                    0 <= w < rv.len() && keyed@[w] && #[trigger] rv[w].components == c && forall|q: int|
                        0 <= q < w ==> !(keyed@[q] && #[trigger] rv[q].components == c);
                if w < p {
                } else if w > p {
                    assert(!(keyed@[p as int] && rv[p as int].components == c));
                }
            }
            return Some(p);
        }
        p = p + 1;
    }
    None
}

/// All rows are well counted, none with more uses than `n`.
pub open spec fn rows_bounded(rows: Seq<Row>, n: int) -> bool {
    forall|j: int|
        0 <= j < rows.len() ==> 1 <= #[trigger] rows[j].view_of().uses.len() <= n && counted(
            rows[j].view_of(),
        )
}

/// Counts `u` into the rows.
fn absorb(rows: &mut Vec<Row>, keyed: &mut Vec<bool>, u: &Use, n: usize)
    requires
        old(rows).len() == old(keyed).len(),
        rows_bounded(old(rows)@, n as int),
        n < usize::MAX,
    ensures
        final(rows).len() == final(keyed).len(),
        (rows_view(final(rows)@), final(keyed)@) == group_step(rows_view(old(rows)@), old(keyed)@, *u),
        rows_bounded(final(rows)@, n + 1),
{
    let ghost rv = rows_view(rows@);
    let found = if u.kind == Kind::Generated {
        None
    } else {
        find_keyed(rows, keyed, &u.components)
    };
    match found {
        Some(p) => {
            let old_row = rows.remove(p);
            assert(old_row.view_of() == rv[p as int]);
            let row = with_use_exec(old_row, u);
            rows.insert(p, row);
            assert(rows_view(rows@) =~= rv.update(p as int, with_use(rv[p as int], *u)));
            assert forall|j: int| 0 <= j < rows.len() implies 1 <= #[trigger] rows@[j].view_of().uses.len() <= n + 1
                && counted(rows@[j].view_of()) by {
                if j != p {
                    assert(rows@[j] == old(rows)@[j]);
                }
            }
        },
        None => {
            let fresh = new_row_exec(u);
            let row = with_use_exec(fresh, u);
            rows.push(row);
            keyed.push(u.kind != Kind::Generated);
            assert(rows_view(rows@) =~= rv.push(with_use(new_row(*u), *u)));
            assert forall|j: int| 0 <= j < rows.len() implies 1 <= #[trigger] rows@[j].view_of().uses.len() <= n + 1
                && counted(rows@[j].view_of()) by {
                if j < rv.len() {
                    assert(rows@[j] == old(rows)@[j]);
                }
            }
        },
    }
}

/// The uses (in timeline order) gathered into rows.
fn group_rows(uses: &Vec<Use>) -> (r: Vec<Row>)
    ensures
        rows_view(r@) == grouped(uses@).0,
        rows_bounded(r@, usize::MAX as int),
{
    let mut rows: Vec<Row> = Vec::new();
    let mut keyed: Vec<bool> = Vec::new();
    let mut i: usize = 0;
    assert(uses@.take(0) =~= Seq::<Use>::empty());
    assert(rows_view(rows@) =~= Seq::<RowView>::empty());
    while i < uses.len()
        invariant
            i <= uses.len(),
            rows.len() == keyed.len(),
            (rows_view(rows@), keyed@) == grouped(uses@.take(i as int)),
            rows_bounded(rows@, i as int),
        decreases uses.len() - i,
    {
        assert(uses@.take(i + 1).drop_last() =~= uses@.take(i as int));
        assert(uses@.take(i + 1).last() == uses@[i as int]);
        absorb(&mut rows, &mut keyed, &uses[i], i);
        i = i + 1;
    }
    assert(uses@.take(uses.len() as int) =~= uses@);
    assert forall|j: int| 0 <= j < rows@.len() implies 1 <= #[trigger] rows@[j].view_of().uses.len() <= usize::MAX
        && counted(rows@[j].view_of()) by {}
    rows
}


fn row_shown_exec(r: &Row, tokens: &Vec<Vec<char>>, o: &Options) -> (b: bool)
    requires
        counted(r.view_of()),
    ensures
        b == row_shown(r.view_of(), views_of(tokens@), *o),
{
    let ghost tv = views_of(tokens@);
    if !(o.kind == Kind::All || o.kind == r.kind) {
        return false;
    }
    if o.offline_only && !r.offline {
        return false;
    }
    let by_proxy = match o.proxy {
        Proxy::All => true,
        Proxy::Unlinked => r.proxies[0] > 0,
        Proxy::Available => r.proxies[1] > 0,
        Proxy::Missing => r.proxies[2] > 0,
    };
    if !by_proxy {
        return false;
    }
    let search = to_chars(r.search.as_str());
    let mut i: usize = 0;
    while i < tokens.len()
        invariant
            i <= tokens.len(),
            tv == views_of(tokens@),
            search@ == r.view_of().search,
            forall|k: int| 0 <= k < i ==> contains_seq(search@, #[trigger] tv[k]),
        decreases tokens.len() - i,
    {
        assert(tv[i as int] == tokens@[i as int]@);
        if !chars_contain(&search, &tokens[i]) {
            return false;
        }
        i = i + 1;
    }
    true
}

fn compare_numbers(a: u64, b: u64) -> (r: i8)
    ensures
        r == compare_int(a as int, b as int),
{
    if a < b {
        -1
    } else if a == b {
        0
    } else {
        1
    }
}

fn compare_rows_exec(a: &Row, b: &Row, o: &Options) -> (r: i8)
    requires
        a.view_of().uses.len() >= 1,
        b.view_of().uses.len() >= 1,
    ensures
        r == compare_rows(a.view_of(), b.view_of(), *o),
{
    let primary: i8 = match o.sort {
        Sort::Name => {
            let x = to_chars(to_lowercase(a.name.as_str()).as_str());
            let y = to_chars(to_lowercase(b.name.as_str()).as_str());
            if chars_equal(&x, &y) {
                0
            } else if chars_less_eq(&x, &y) {
                -1
            } else {
                1
            }
        },
        Sort::Duration => compare_numbers(total_key_exec(a.duration), total_key_exec(b.duration)),
        Sort::Usage => compare_numbers(a.uses.len() as u64, b.uses.len() as u64),
    };
    let primary: i8 = if o.descending {
        -primary
    } else {
        primary
    };
    if primary != 0 {
        return primary;
    }
    if components_equal(&a.components, &b.components) {
        compare_numbers(a.uses[0] as u64, b.uses[0] as u64)
    } else if components_less_eq(&a.components, &b.components) {
        -1
    } else {
        1
    }
}

/// The rows that pass the filters and the search, in their order.
fn shown_rows(rows: Vec<Row>, tokens: &Vec<Vec<char>>, o: &Options) -> (r: Vec<Row>)
    requires
        rows_bounded(rows@, usize::MAX as int),
    ensures
        rows_view(r@) == rows_view(rows@).filter(shown_by(views_of(tokens@), *o)),
        rows_bounded(r@, usize::MAX as int),
{
    let ghost pred = shown_by(views_of(tokens@), *o);
    let ghost input = rows@;
    let count = rows.len();
    let mut rest = rows;
    let mut reversed: Vec<Row> = Vec::new();
    while rest.len() > 0
        invariant
            input == rest@ + reversed@.reverse(),
        decreases rest.len(),
    {
        let ghost before = rest@;
        let ghost rb = reversed@;
        let x = rest.pop().unwrap();
        reversed.push(x);
        assert(reversed@.reverse() =~= seq![x] + rb.reverse());
        assert(before =~= rest@.push(x));
        assert(input =~= rest@ + reversed@.reverse());
    }
    assert(reversed@.reverse() =~= input);
    let mut kept: Vec<Row> = Vec::new();
    let mut k: usize = 0;
    assert(rows_view(input).take(0).filter(pred) =~= Seq::<RowView>::empty()) by {
        reveal_with_fuel(Seq::filter, 1);
    }
    while reversed.len() > 0
        invariant
            pred == shown_by(views_of(tokens@), *o),
            k + reversed@.len() == input.len(),
            input.len() == count,
            reversed@.reverse() == input.skip(k as int),
            rows_bounded(input, usize::MAX as int),
            rows_bounded(kept@, usize::MAX as int),
            rows_view(kept@) == rows_view(input).take(k as int).filter(pred),
        decreases reversed.len(),
    {
        let ghost rb = reversed@;
        let x = reversed.pop().unwrap();
        assert(input[k as int] == x) by {
            assert(rb.reverse()[0] == rb[rb.len() - 1]);
            assert(input.skip(k as int)[0] == input[k as int]);
        }
        assert(reversed@.reverse() =~= rb.reverse().skip(1));
        assert(input.skip(k + 1) =~= input.skip(k as int).skip(1));
        let ghost before = rows_view(kept@);
        assert(rows_view(input).take(k + 1).drop_last() =~= rows_view(input).take(k as int));
        assert(rows_view(input).take(k + 1).last() == x.view_of());
        reveal_with_fuel(Seq::filter, 1);
        if row_shown_exec(&x, tokens, o) {
            kept.push(x);
            assert(rows_view(kept@) =~= before.push(x.view_of()));
        }
        k = k + 1;
    }
    assert(rows_view(input).take(count as int) =~= rows_view(input));
    kept
}

/// The rows in the browser's order (a stable sort).
fn sort_rows(rows: Vec<Row>, o: &Options) -> (r: Vec<Row>)
    requires
        rows_bounded(rows@, usize::MAX as int),
    ensures
        rows_view(r@) == stable_sorted(rows_view(rows@), browser_order(*o)),
{
    let ghost le = browser_order(*o);
    let ghost input = rows@;
    let count = rows.len();
    let mut rest = rows;
    let mut reversed: Vec<Row> = Vec::new();
    while rest.len() > 0
        invariant
            input == rest@ + reversed@.reverse(),
        decreases rest.len(),
    {
        let ghost before = rest@;
        let ghost rb = reversed@;
        let x = rest.pop().unwrap();
        reversed.push(x);
        assert(reversed@.reverse() =~= seq![x] + rb.reverse());
        assert(before =~= rest@.push(x));
        assert(input =~= rest@ + reversed@.reverse());
    }
    assert(reversed@.reverse() =~= input);
    let mut out: Vec<Row> = Vec::new();
    let mut k: usize = 0;
    assert(rows_view(input).take(0) =~= Seq::<RowView>::empty());
    while reversed.len() > 0
        invariant
            le == browser_order(*o),
            k + reversed@.len() == input.len(),
            input.len() == count,
            reversed@.reverse() == input.skip(k as int),
            rows_bounded(input, usize::MAX as int),
            rows_bounded(out@, usize::MAX as int),
            rows_view(out@) == stable_sorted(rows_view(input).take(k as int), le),
        decreases reversed.len(),
    {
        let ghost rb = reversed@;
        let x = reversed.pop().unwrap();
        assert(input[k as int] == x) by {
            assert(rb.reverse()[0] == rb[rb.len() - 1]);
            assert(input.skip(k as int)[0] == input[k as int]);
        }
        assert(reversed@.reverse() =~= rb.reverse().skip(1));
        assert(input.skip(k + 1) =~= input.skip(k as int).skip(1));
        let ghost sv = rows_view(out@);
        let mut p = out.len();
        while p > 0 && compare_rows_exec(&out[p - 1], &x, o) > 0
            invariant
                p <= out.len(),
                sv == rows_view(out@),
                le == browser_order(*o),
                rows_bounded(out@, usize::MAX as int),
                x.view_of().uses.len() >= 1,
                forall|j: int| p <= j < sv.len() ==> !le(#[trigger] sv[j], x.view_of()),
            decreases p,
        {
            assert(sv[p - 1] == out@[p - 1].view_of());
            p = p - 1;
        }
        proof {
            if p > 0 {
                assert(sv[p - 1] == out@[p - 1].view_of());
            }
            lemma_insert_sorted_at(sv, x.view_of(), le, p as int);
            assert(rows_view(input).take(k + 1).drop_last() =~= rows_view(input).take(k as int));
            assert(rows_view(input).take(k + 1).last() == x.view_of());
        }
        let ghost ob = out@;
        out.insert(p, x);
        assert(rows_view(out@) =~= sv.take(p as int).push(x.view_of()) + sv.skip(p as int));
        assert forall|j: int| 0 <= j < out@.len() implies 1 <= #[trigger] out@[j].view_of().uses.len()
            <= usize::MAX && counted(out@[j].view_of()) by {
            if j < p {
                assert(out@[j] == ob[j]);
            } else if j > p {
                assert(out@[j] == ob[j - 1]);
            }
        }
        k = k + 1;
    }
    assert(rows_view(input).take(count as int) =~= rows_view(input));
    out
}

/// The browser's rows for the uses of the timeline: the uses put in
/// timeline order (start, track, index) and gathered by medium (a generated
/// item is a row of its own), so that every count sees the whole montage;
/// then the rows that pass the filters and hold every word of the query;
/// then sorted by the chosen key, by path and by first use.
pub fn rows(uses: Vec<Use>, query: &str, options: &Options) -> (r: Vec<Row>)
    ensures
        rows_view(r@) == rows_of(uses@, query@, *options),
{
    let ordered = sort_uses(uses);
    let grouped_rows = group_rows(&ordered);
    let lowered = to_chars(to_lowercase(query).as_str());
    let tokens = split_words(&lowered);
    let shown = shown_rows(grouped_rows, &tokens, options);
    sort_rows(shown, options)
}

/// The use before or after the selected one, wrapping around (the first or
/// the last when none of its uses is selected).
pub open spec fn adjacent_of(uses: Seq<usize>, selected: Option<usize>, next: bool) -> Option<usize> {
    if uses.len() == 0 {
        None
    } else {
        let n = uses.len() as int;
        let position = match selected {
            Some(s) => if exists|i: int| 0 <= i < n && uses[i] == s {
                Some(choose|i: int| 0 <= i < n && uses[i] == s && forall|j: int| 0 <= j < i ==> uses[j] != s)
            } else {
                None
            },
            None => None,
        };
        let p = match (position, next) {
            (Some(i), true) => (i + 1) % n,
            (Some(i), false) => (i + n - 1) % n,
            (None, true) => 0,
            (None, false) => n - 1,
        };
        Some(uses[p])
    }
}

/// Where `s` first occurs in `uses`.
fn first_position(uses: &Vec<usize>, s: usize) -> (r: Option<usize>)
    ensures
        r is None <==> !(exists|i: int| 0 <= i < uses@.len() && uses@[i] == s),
        r matches Some(q) ==> q < uses@.len() && (choose|i: int|
            0 <= i < uses@.len() && uses@[i] == s && forall|j: int| 0 <= j < i ==> uses@[j] != s) == q,
{
    let n = uses.len();
    let mut i: usize = 0;
    while i < n
        invariant
            i <= n == uses.len(),
            forall|j: int| 0 <= j < i ==> uses@[j] != s,
        decreases n - i,
    {
        if uses[i] == s {
            proof {
                let w = choose|w: int| 0 <= w < n && uses@[w] == s && forall|j: int|
                    0 <= j < w ==> uses@[j] != s;
                assert(0 <= i < n && uses@[i as int] == s && forall|j: int| 0 <= j < i ==> uses@[j] != s);
                if w < i {
                } else if w > i {
                }
            }
            return Some(i);
        }
        i = i + 1;
    }
    None
}

impl Row {
    /// The use before (or after) `selected` among this medium's uses, in
    /// timeline order and wrapping around.
    pub fn adjacent(&self, selected: Option<usize>, next: bool) -> (r: Option<usize>)
        ensures
            r == adjacent_of(self.view_of().uses, selected, next),
    {
        let n = self.uses.len();
        if n == 0 {
            return None;
        }
        let position = match selected {
            Some(s) => first_position(&self.uses, s),
            None => None,
        };
        let p = match (position, next) {
            (Some(i), true) => {
                assert((i + 1) % (n as int) == if i + 1 == n { 0 } else { i + 1 }) by (nonlinear_arith)
                    requires
                        0 <= i < n,
                ;
                if i + 1 == n {
                    0
                } else {
                    i + 1
                }
            },
            (Some(i), false) => {
                assert((i + n - 1) % (n as int) == if i == 0 { n - 1 } else { i - 1 }) by (nonlinear_arith)
                    requires
                        0 <= i < n,
                ;
                if i == 0 {
                    n - 1
                } else {
                    i - 1
                }
            },
            (None, true) => 0,
            (None, false) => n - 1,
        };
        Some(self.uses[p])
    }
}


/// How a comparison of three outcomes orders: opposite answers the other
/// way round, zero exactly on equal keys, and transitive.
spec fn orders<K>(c: spec_fn(K, K) -> int) -> bool {
    &&& forall|x: K, y: K| #[trigger] c(x, y) == -c(y, x)
    &&& forall|x: K, y: K| -1 <= #[trigger] c(x, y) <= 1
    &&& forall|x: K, y: K| #[trigger] c(x, y) == 0 <==> x == y
    &&& forall|x: K, y: K, z: K| #[trigger] c(x, y) < 0 && #[trigger] c(y, z) < 0 ==> c(x, z) < 0
}

proof fn lemma_text_orders()
    ensures
        orders(|a: Seq<char>, b: Seq<char>| compare_text(a, b)),
{
    let c = |a: Seq<char>, b: Seq<char>| compare_text(a, b);
    assert forall|x: Seq<char>, y: Seq<char>| #[trigger] c(x, y) == -c(y, x) by {
        lemma_chars_le_total(x, y);
    }
    assert forall|x: Seq<char>, y: Seq<char>, z: Seq<char>| #[trigger] c(x, y) < 0 && #[trigger] c(y, z) < 0
        implies c(x, z) < 0 by {
        lemma_chars_le_transitive(x, y, z);
        if x == z {
            lemma_chars_le_total(x, y);
        }
    }
}

proof fn lemma_components_order()
    ensures
        orders(|a: Seq<Seq<char>>, b: Seq<Seq<char>>| compare_components(a, b)),
{
    let c = |a: Seq<Seq<char>>, b: Seq<Seq<char>>| compare_components(a, b);
    assert forall|x: Seq<Seq<char>>, y: Seq<Seq<char>>| #[trigger] c(x, y) == -c(y, x) by {
        lemma_components_le_total(x, y);
        if components_le(x, y) && components_le(y, x) {
            lemma_components_le_antisymmetric(x, y);
        }
    }
    assert forall|x: Seq<Seq<char>>, y: Seq<Seq<char>>, z: Seq<Seq<char>>|
        #[trigger] c(x, y) < 0 && #[trigger] c(y, z) < 0 implies c(x, z) < 0 by {
        lemma_components_le_transitive(x, y, z);
        if x == z {
            lemma_components_le_antisymmetric(x, y);
        }
    }
}

/// The browser's key of a row under the chosen sort: the lowercased name,
/// the duration's order or the number of uses.
spec fn primary(a: RowView, b: RowView, o: Options) -> int {
    let p = match o.sort {
        Sort::Name => compare_text(lowercase_of(a.name), lowercase_of(b.name)),
        Sort::Duration => compare_int(total_key(a.duration), total_key(b.duration)),
        Sort::Usage => compare_int(a.uses.len() as int, b.uses.len() as int),
    };
    if o.descending {
        -p
    } else {
        p
    }
}

proof fn lemma_primary_orders(a: RowView, b: RowView, c: RowView, o: Options)
    ensures
        primary(a, b, o) == -primary(b, a, o),
        -1 <= primary(a, b, o) <= 1,
        primary(a, b, o) == 0 && primary(b, c, o) == 0 ==> primary(a, c, o) == 0,
        primary(a, b, o) == 0 && primary(b, c, o) < 0 ==> primary(a, c, o) < 0,
        primary(a, b, o) < 0 && primary(b, c, o) == 0 ==> primary(a, c, o) < 0,
        primary(a, b, o) < 0 && primary(b, c, o) < 0 ==> primary(a, c, o) < 0,
{
    lemma_text_orders();
    let t = |x: Seq<char>, y: Seq<char>| compare_text(x, y);
    let (la, lb, lc) = (lowercase_of(a.name), lowercase_of(b.name), lowercase_of(c.name));
    assert(t(la, lb) == compare_text(la, lb));
    assert(t(lb, la) == compare_text(lb, la));
    assert(t(lb, lc) == compare_text(lb, lc));
    assert(t(la, lc) == compare_text(la, lc));
    assert(t(lc, lb) == compare_text(lc, lb));
    assert(t(lb, la) == compare_text(lb, la));
    assert(t(lc, la) == compare_text(lc, la));
}

/// The browser's order of rows is a total preorder.
proof fn lemma_browser_order_total(o: Options)
    ensures
        total_preorder(browser_order(o)),
{
    lemma_components_order();
    let le = browser_order(o);
    let cc = |x: Seq<Seq<char>>, y: Seq<Seq<char>>| compare_components(x, y);
    assert forall|a: RowView, b: RowView| #[trigger] le(a, b) || le(b, a) by {
        lemma_primary_orders(a, b, b, o);
        assert(cc(a.components, b.components) == -cc(b.components, a.components));
    }
    assert forall|a: RowView, b: RowView, c: RowView| #[trigger] le(a, b) && #[trigger] le(b, c) implies le(a, c) by {
        lemma_primary_orders(a, b, c, o);
        let (ab, bc, ac) = (cc(a.components, b.components), cc(b.components, c.components), cc(
            a.components,
            c.components,
        ));
        assert(ab == compare_components(a.components, b.components));
        assert(bc == compare_components(b.components, c.components));
        assert(ac == compare_components(a.components, c.components));
        assert(-1 <= ab <= 1 && -1 <= bc <= 1);
        if ab == 0 {
            assert(a.components == b.components);
        }
        if bc == 0 {
            assert(b.components == c.components);
        }
    }
}

/// The browser lists its rows in its order: by the chosen key (reversed
/// when descending), then by path, then by first use.
pub proof fn lemma_rows_in_browser_order(uses: Seq<Use>, query: Seq<char>, o: Options)
    ensures
        sorted_by(rows_of(uses, query, o), browser_order(o)),
{
    lemma_browser_order_total(o);
    let ordered = stable_sorted(uses, timeline_order());
    let shown = grouped(ordered).0.filter(shown_by(words(lowercase_of(query)), o));
    lemma_stable_sorted(shown, browser_order(o));
}

/// Timeline order orders any two uses, and transitively.
proof fn lemma_timeline_order_total()
    ensures
        total_preorder(timeline_order()),
{
    let le = timeline_order();
    assert forall|a: Use, b: Use| #[trigger] le(a, b) || le(b, a) by {}
    assert forall|a: Use, b: Use, c: Use| #[trigger] le(a, b) && #[trigger] le(b, c) implies le(a, c) by {}
}

/// Two sequences sorted by one relation, with the same elements, among
/// which the relation puts no two different elements together, are equal.
proof fn lemma_sorted_unique<T>(a: Seq<T>, b: Seq<T>, le: spec_fn(T, T) -> bool)
    requires
        sorted_by(a, le),
        sorted_by(b, le),
        a.to_multiset() == b.to_multiset(),
        forall|x: T, y: T| a.contains(x) && a.contains(y) && le(x, y) && le(y, x) ==> x == y,
    ensures
        a == b,
    decreases a.len(),
{
    broadcast use vstd::seq_lib::group_to_multiset_ensures;

    assert(a.len() == b.len()) by {
        a.to_multiset_ensures();
        b.to_multiset_ensures();
    }
    if a.len() > 0 {
        let x = a.last();
        let y = b.last();
        assert(a.contains(x));
        assert(b.contains(y));
        assert(a.to_multiset().count(y) > 0);
        assert(a.contains(y));
        assert(b.to_multiset().count(x) > 0);
        assert(b.contains(x));
        let i = choose|i: int| 0 <= i < a.len() && a[i] == y;
        let j = choose|j: int| 0 <= j < b.len() && b[j] == x;
        if i < a.len() - 1 {
            assert(le(a[i], a[a.len() - 1]));
        }
        if j < b.len() - 1 {
            assert(le(b[j], b[b.len() - 1]));
        }
        assert(x == y);
        let a0 = a.drop_last();
        let b0 = b.drop_last();
        assert(a =~= a0.push(x));
        assert(b =~= b0.push(x));
        assert(a0.to_multiset() =~= b0.to_multiset()) by {
            assert(a.to_multiset() == a0.to_multiset().insert(x));
            assert(b.to_multiset() == b0.to_multiset().insert(x));
            assert forall|z: T| a0.to_multiset().count(z) == b0.to_multiset().count(z) by {
                broadcast use vstd::multiset::group_multiset_axioms;

                assert(a.to_multiset().count(z) == b.to_multiset().count(z));
                assert(a0.to_multiset().insert(x).count(z) == a0.to_multiset().count(z) + if z == x { 1int } else { 0int });
                assert(b0.to_multiset().insert(x).count(z) == b0.to_multiset().count(z) + if z == x { 1int } else { 0int });
            }
        }
        assert forall|u: int, v: int| 0 <= u < v < a0.len() implies le(#[trigger] a0[u], #[trigger] a0[v]) by {
            assert(le(a[u], a[v]));
        }
        assert forall|u: int, v: int| 0 <= u < v < b0.len() implies le(#[trigger] b0[u], #[trigger] b0[v]) by {
            assert(le(b[u], b[v]));
        }
        assert forall|p: T, q: T| a0.contains(p) && a0.contains(q) && le(p, q) && le(q, p) implies p == q by {
            let u = choose|u: int| 0 <= u < a0.len() && a0[u] == p;
            let v = choose|v: int| 0 <= v < a0.len() && a0[v] == q;
            assert(a[u] == p && a[v] == q);
            assert(a.contains(p));
            assert(a.contains(q));
        }
        lemma_sorted_unique(a0, b0, le);
    }
}

/// The browser's rows do not depend on the order in which the uses are
/// given: any reordering of uses with distinct indices gives the same rows.
pub proof fn lemma_rows_ignore_input_order(uses: Seq<Use>, other: Seq<Use>, query: Seq<char>, o: Options)
    requires
        other.to_multiset() == uses.to_multiset(),
        forall|i: int, j: int| 0 <= i < j < uses.len() ==> (#[trigger] uses[i]).index != (#[trigger] uses[j]).index,
    ensures
        rows_of(other, query, o) == rows_of(uses, query, o),
{
    broadcast use vstd::seq_lib::group_to_multiset_ensures;

    let le = timeline_order();
    lemma_timeline_order_total();
    let a = stable_sorted(uses, le);
    let b = stable_sorted(other, le);
    lemma_stable_sorted(uses, le);
    lemma_stable_sorted(other, le);
    assert forall|x: Use, y: Use| a.contains(x) && a.contains(y) && le(x, y) && le(y, x) implies x == y by {
        assert(a.to_multiset().count(x) > 0);
        assert(a.to_multiset().count(y) > 0);
        assert(uses.contains(x));
        assert(uses.contains(y));
        let i = choose|i: int| 0 <= i < uses.len() && uses[i] == x;
        let j = choose|j: int| 0 <= j < uses.len() && uses[j] == y;
        assert(x.index == y.index);
        if i < j {
            assert(uses[i].index != uses[j].index);
        } else if j < i {
            assert(uses[j].index != uses[i].index);
        }
    }
    lemma_sorted_unique(a, b, le);
}

} // verus!
