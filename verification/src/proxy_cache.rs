//! Disk budget of the proxy cache.
//!
//! The proxies live next to the project, so the folder may hold the user's
//! own material: everything here is limited to files whose name ends with the
//! suffix the generator writes (`-proxy.mp4`). A file without it is never
//! counted nor removed.
use vstd::prelude::*;
use vstd::string::StringSliceAdditionalSpecFns;
use vstd::arithmetic::power::pow;
use vstd::arithmetic::power2::{lemma2_to64, lemma_pow2_adds, lemma_pow2_pos, lemma_pow2_strictly_increases, pow2};
use crate::rounding::{
    f64_of, f64_of_exec, lemma_round_half_even_bounds, nearest_f64, nearest_f64_exec, round_half_even,
    round_half_even_exec,
};
use crate::edl::{last_part, path_stem, plain_path, stem_of_name};
use crate::text::{
    alphanumeric, char_is_alphanumeric, chars_equal, decimal, pad2, push_decimal, push_pad2, chars_le, chars_less_eq, chars_to_string,
    ends_with, hex_char, hex_digits, is_white_space, lemma_chars_le_total, lemma_chars_le_transitive,
    push_all, push_hex, to_chars, trim, trimmed,
};

verus! {

/// Exact suffix of the files the proxy generator writes.
pub const PROXY_SUFFIX: &'static str = "-proxy.mp4";

/// The characters of `PROXY_SUFFIX`.
pub open spec fn proxy_suffix() -> Seq<char> {
    seq!['-', 'p', 'r', 'o', 'x', 'y', '.', 'm', 'p', '4']
}

fn suffix_chars() -> (v: Vec<char>)
    ensures
        v@ == proxy_suffix(),
{
    let v = to_chars(PROXY_SUFFIX);
    proof {
        reveal_strlit("-proxy.mp4");
    }
    assert(v@ =~= proxy_suffix());
    v
}

/// Room taken by the proxy cache.
#[derive(Debug, Clone, PartialEq, Eq, Structural)]
pub struct CacheUsage {
    pub files: usize,
    pub total_bytes: u64,
    /// Taken by proxies that the open project links.
    pub in_use_bytes: u64,
}

impl Default for CacheUsage {
    fn default() -> (u: Self)
        ensures
            u == (CacheUsage { files: 0, total_bytes: 0, in_use_bytes: 0 }),
    {
        CacheUsage { files: 0, total_bytes: 0, in_use_bytes: 0 }
    }
}

impl CacheUsage {
    /// The bytes that the budget may free: everything not in use.
    pub fn evictable_bytes(&self) -> (b: u64)
        ensures
            b == (if self.total_bytes >= self.in_use_bytes {
                self.total_bytes - self.in_use_bytes
            } else {
                0
            }),
    {
        self.total_bytes.saturating_sub(self.in_use_bytes)
    }
}

/// What a pass of the budget did.
#[derive(Debug, Clone, PartialEq, Eq, Structural)]
pub struct Eviction {
    pub removed: usize,
    pub freed_bytes: u64,
    pub remaining_bytes: u64,
    /// The open project alone takes more than the limit. It is left alone:
    /// evicting it would re-encode what the preview needs right now.
    pub over_budget: bool,
}

impl Default for Eviction {
    fn default() -> (e: Self)
        ensures
            e == (Eviction { removed: 0, freed_bytes: 0, remaining_bytes: 0, over_budget: false }),
    {
        Eviction { removed: 0, freed_bytes: 0, remaining_bytes: 0, over_budget: false }
    }
}

/// A proxy found in the cache folder: its path, its size, and when it was
/// last opened (nanoseconds from the Unix epoch; negative before it).
#[derive(Debug, Clone)]
pub struct ProxyFile {
    pub path: String,
    pub bytes: u64,
    pub accessed: i128,
}

/// A file name the proxy generator writes: longer than the suffix, ending
/// with it.
pub open spec fn is_proxy_name(name: Seq<char>) -> bool {
    name.len() > proxy_suffix().len() && ends_with(name, proxy_suffix())
}

/// Whether the file named `file_name` is a generated proxy; a path without
/// a (UTF-8) file name is not.
pub fn is_proxy(file_name: Option<&str>) -> (b: bool)
    ensures
        b == (file_name matches Some(n) && is_proxy_name(n@)),
{
    match file_name {
        None => false,
        Some(name) => {
            let chars = to_chars(name);
            let suffix = suffix_chars();
            chars.len() > suffix.len() && crate::text::chars_end_with(&chars, &suffix)
        },
    }
}

/// Total size of a list of proxies.
pub open spec fn total_bytes(s: Seq<ProxyFile>) -> int
    decreases s.len(),
{
    if s.len() == 0 {
        0
    } else {
        total_bytes(s.drop_last()) + s.last().bytes
    }
}

/// The paths of a list of strings, as character sequences.
pub open spec fn paths_of(v: Seq<String>) -> Seq<Seq<char>> {
    v.map_values(|p: String| p@)
}

/// Size of the proxies whose path is in `in_use`.
pub open spec fn in_use_bytes_of(s: Seq<ProxyFile>, in_use: Seq<Seq<char>>) -> int
    decreases s.len(),
{
    if s.len() == 0 {
        0
    } else {
        in_use_bytes_of(s.drop_last(), in_use) + (if in_use.contains(s.last().path@) {
            s.last().bytes as int
        } else {
            0
        })
    }
}

proof fn lemma_in_use_le_total(s: Seq<ProxyFile>, in_use: Seq<Seq<char>>)
    ensures
        0 <= in_use_bytes_of(s, in_use) <= total_bytes(s),
    decreases s.len(),
{
    if s.len() > 0 {
        lemma_in_use_le_total(s.drop_last(), in_use);
    }
}

/// Whether `path` is one of `paths`.
fn contains_path(paths: &Vec<String>, path: &String) -> (b: bool)
    ensures
        b == paths_of(paths@).contains(path@),
{
    let mut i: usize = 0;
    while i < paths.len()
        invariant
            i <= paths.len(),
            forall|j: int| 0 <= j < i ==> paths@[j]@ != path@,
        decreases paths.len() - i,
    {
        if paths[i] == *path {
            assert(paths_of(paths@)[i as int] == path@);
            return true;
        }
        i = i + 1;
    }
    assert forall|j: int| 0 <= j < paths_of(paths@).len() implies paths_of(paths@)[j] != path@ by {
        assert(paths_of(paths@)[j] == paths@[j]@);
    }
    false
}

/// Whether the open project links the proxy `entry`: its path is one of
/// `in_use` (paths in one canonical spelling, as the caller gives them).
pub fn linked(entry: &ProxyFile, in_use: &Vec<String>) -> (b: bool)
    ensures
        b == paths_of(in_use@).contains(entry.path@),
{
    contains_path(in_use, &entry.path)
}

/// Counts the proxies of the cache and the room they take, and how much of
/// it the open project links (`in_use` holds the linked paths, each in one
/// canonical spelling, as a list rather than a set of paths: text keys have no hashing whose behaviour the contracts can speak of, while a list is a plain sequence of values, so membership is a scan proved against the
/// list).
pub fn usage(entries: &Vec<ProxyFile>, in_use: &Vec<String>) -> (u: CacheUsage)
    requires
        total_bytes(entries@) <= u64::MAX,
    ensures
        u.files == entries@.len(),
        u.total_bytes == total_bytes(entries@),
        u.in_use_bytes == in_use_bytes_of(entries@, paths_of(in_use@)),
{
    let mut total: u64 = 0;
    let mut used: u64 = 0;
    let mut i: usize = 0;
    while i < entries.len()
        invariant
            i <= entries.len(),
            total_bytes(entries@) <= u64::MAX,
            total == total_bytes(entries@.take(i as int)),
            used == in_use_bytes_of(entries@.take(i as int), paths_of(in_use@)),
        decreases entries.len() - i,
    {
        let ghost prefix = entries@.take(i + 1);
        assert(prefix.drop_last() =~= entries@.take(i as int));
        proof {
            lemma_total_prefix(entries@, i + 1);
            lemma_in_use_le_total(prefix, paths_of(in_use@));
        }
        total = total + entries[i].bytes;
        if contains_path(in_use, &entries[i].path) {
            used = used + entries[i].bytes;
        }
        i = i + 1;
    }
    assert(entries@.take(entries.len() as int) =~= entries@);
    CacheUsage { files: entries.len(), total_bytes: total, in_use_bytes: used }
}

proof fn lemma_total_prefix(s: Seq<ProxyFile>, k: int)
    requires
        0 <= k <= s.len(),
    ensures
        0 <= total_bytes(s.take(k)) <= total_bytes(s),
    decreases s.len(),
{
    if s.len() > 0 {
        if k == s.len() {
            assert(s.take(k) =~= s);
            lemma_total_prefix(s.drop_last(), k - 1);
        } else {
            assert(s.drop_last().take(k) =~= s.take(k));
            lemma_total_prefix(s.drop_last(), k);
        }
    }
}

// ---------------------------------------------------------------------------
// Eviction order
// ---------------------------------------------------------------------------

/// `a` is evicted no later than `b`: older first, and the path breaks ties.
pub open spec fn evicted_before(a: ProxyFile, b: ProxyFile) -> bool {
    a.accessed < b.accessed || (a.accessed == b.accessed && chars_le(a.path@, b.path@))
}

pub open spec fn in_eviction_order(s: Seq<ProxyFile>) -> bool {
    forall|i: int, j: int| 0 <= i < j < s.len() ==> evicted_before(#[trigger] s[i], #[trigger] s[j])
}

proof fn lemma_evicted_before_total(a: ProxyFile, b: ProxyFile)
    ensures
        evicted_before(a, b) || evicted_before(b, a),
{
    lemma_chars_le_total(a.path@, b.path@);
}

proof fn lemma_evicted_before_transitive(a: ProxyFile, b: ProxyFile, c: ProxyFile)
    requires
        evicted_before(a, b),
        evicted_before(b, c),
    ensures
        evicted_before(a, c),
{
    if a.accessed == b.accessed && b.accessed == c.accessed {
        lemma_chars_le_transitive(a.path@, b.path@, c.path@);
    }
}

fn evicted_first(a: &ProxyFile, b: &ProxyFile) -> (r: bool)
    ensures
        r == evicted_before(*a, *b),
{
    if a.accessed != b.accessed {
        a.accessed < b.accessed
    } else {
        let pa = to_chars(a.path.as_str());
        let pb = to_chars(b.path.as_str());
        chars_less_eq(&pa, &pb)
    }
}

/// The proxies in the order the budget evicts them: least recently opened
/// first, the path breaking ties so that two passes evict alike.
pub fn eviction_order(entries: Vec<ProxyFile>) -> (out: Vec<ProxyFile>)
    ensures
        out@.to_multiset() == entries@.to_multiset(),
        in_eviction_order(out@),
{
    let mut out: Vec<ProxyFile> = Vec::new();
    let mut rest = entries;
    let ghost all = rest@;
    proof {
        broadcast use vstd::multiset::group_multiset_axioms;
        assert(out@ =~= Seq::<ProxyFile>::empty());
        vstd::seq_lib::lemma_seq_union_to_multiset_commutative(out@, rest@);
        assert(out@ + rest@ =~= rest@);
        vstd::seq_lib::lemma_multiset_commutative(out@, rest@);
    }
    while rest.len() > 0
        invariant
            out@.to_multiset().add(rest@.to_multiset()) == all.to_multiset(),
            in_eviction_order(out@),
        decreases rest.len(),
    {
        let ghost before_rest = rest@;
        let x = rest.pop().unwrap();
        proof {
            assert(before_rest == rest@.push(x));
            vstd::seq_lib::to_multiset_build(rest@, x);
            assert(before_rest.to_multiset() == rest@.to_multiset().insert(x));
        }
        let mut p: usize = 0;
        while p < out.len() && evicted_first(&out[p], &x)
            invariant
                p <= out.len(),
                forall|k: int| 0 <= k < p ==> evicted_before(#[trigger] out@[k], x),
            decreases out.len() - p,
        {
            p = p + 1;
        }
        let ghost old_out = out@;
        proof {
            if p < old_out.len() {
                lemma_evicted_before_total(old_out[p as int], x);
            }
        }
        out.insert(p, x);
        proof {
            assert(out@ == old_out.insert(p as int, x));
            assert forall|i: int, j: int| 0 <= i < j < out@.len() implies evicted_before(
                #[trigger] out@[i],
                #[trigger] out@[j],
            ) by {
                if j < p {
                } else if j == p {
                    assert(out@[i] == old_out[i]);
                } else if i == p {
                    assert(out@[j] == old_out[j - 1]);
                    if j - 1 > p {
                        assert(evicted_before(old_out[p as int], old_out[j - 1]));
                        lemma_evicted_before_transitive(x, old_out[p as int], old_out[j - 1]);
                    }
                } else if i < p {
                    assert(out@[i] == old_out[i]);
                    assert(out@[j] == old_out[j - 1]);
                } else {
                    assert(out@[i] == old_out[i - 1]);
                    assert(out@[j] == old_out[j - 1]);
                }
            }
            vstd::seq_lib::to_multiset_insert(old_out, p as int, x);
            broadcast use vstd::multiset::group_multiset_axioms;
            assert(out@.to_multiset().add(rest@.to_multiset()) =~= all.to_multiset());
        }
    }
    proof {
        broadcast use vstd::multiset::group_multiset_axioms;
        rest@.to_multiset_ensures();
        assert(rest@ =~= Seq::<ProxyFile>::empty());
        assert(out@.to_multiset() =~= all.to_multiset());
    }
    out
}

// ---------------------------------------------------------------------------
// The budget, step by step
// ---------------------------------------------------------------------------

/// What to do with the next proxy in eviction order.
#[derive(Debug, Clone, Copy, PartialEq, Eq, Structural)]
pub enum BudgetStep {
    /// The cache fits (or the budget is off): stop.
    Stop,
    /// The open project links it: leave it and go on.
    Keep,
    /// Remove the file, then report whether that worked.
    Remove,
}

/// Progress of a pass of the budget over the proxies in eviction order.
#[derive(Debug, Clone, PartialEq, Eq, Structural)]
pub struct BudgetState {
    pub limit_bytes: u64,
    pub removed: usize,
    pub freed_bytes: u64,
    pub remaining_bytes: u64,
}

impl BudgetState {
    /// A pass over `entries` towards `limit_bytes`; a limit of zero turns the
    /// budget off.
    pub fn start(entries: &Vec<ProxyFile>, limit_bytes: u64) -> (s: BudgetState)
        requires
            total_bytes(entries@) <= u64::MAX,
        ensures
            s == (BudgetState {
                limit_bytes,
                removed: 0,
                freed_bytes: 0,
                remaining_bytes: total_bytes(entries@) as u64,
            }),
    {
        let mut total: u64 = 0;
        let mut i: usize = 0;
        while i < entries.len()
            invariant
                i <= entries.len(),
                total_bytes(entries@) <= u64::MAX,
                total == total_bytes(entries@.take(i as int)),
            decreases entries.len() - i,
        {
            assert(entries@.take(i + 1).drop_last() =~= entries@.take(i as int));
            proof {
                lemma_total_prefix(entries@, i + 1);
            }
            total = total + entries[i].bytes;
            i = i + 1;
        }
        assert(entries@.take(entries.len() as int) =~= entries@);
        BudgetState { limit_bytes, removed: 0, freed_bytes: 0, remaining_bytes: total }
    }

    /// The decision for the next proxy: stop once the cache fits (or the
    /// budget is off), keep what the open project links, remove the rest.
    pub fn step(&self, in_use: bool) -> (d: BudgetStep)
        ensures
            d == (if self.limit_bytes == 0 || self.remaining_bytes <= self.limit_bytes {
                BudgetStep::Stop
            } else if in_use {
                BudgetStep::Keep
            } else {
                BudgetStep::Remove
            }),
    {
        if self.limit_bytes == 0 || self.remaining_bytes <= self.limit_bytes {
            BudgetStep::Stop
        } else if in_use {
            BudgetStep::Keep
        } else {
            BudgetStep::Remove
        }
    }

    /// Accounts for a proxy of `bytes` that was removed.
    pub fn record_removal(&mut self, bytes: u64)
        requires
            bytes <= old(self).remaining_bytes,
            old(self).removed < usize::MAX,
            old(self).freed_bytes + bytes <= u64::MAX,
        ensures
            *final(self) == (BudgetState {
                limit_bytes: old(self).limit_bytes,
                removed: (old(self).removed + 1) as usize,
                freed_bytes: (old(self).freed_bytes + bytes) as u64,
                remaining_bytes: (old(self).remaining_bytes - bytes) as u64,
            }),
    {
        self.removed = self.removed + 1;
        self.freed_bytes = self.freed_bytes + bytes;
        self.remaining_bytes = self.remaining_bytes - bytes;
    }

    /// The report of the pass: over budget when the budget is on and the
    /// cache still does not fit.
    pub fn outcome(&self) -> (e: Eviction)
        ensures
            e == (Eviction {
                removed: self.removed,
                freed_bytes: self.freed_bytes,
                remaining_bytes: self.remaining_bytes,
                over_budget: self.limit_bytes != 0 && self.remaining_bytes > self.limit_bytes,
            }),
    {
        Eviction {
            removed: self.removed,
            freed_bytes: self.freed_bytes,
            remaining_bytes: self.remaining_bytes,
            over_budget: self.limit_bytes != 0 && self.remaining_bytes > self.limit_bytes,
        }
    }
}

// ---------------------------------------------------------------------------
// Fingerprints and names
// ---------------------------------------------------------------------------

/// FNV-1a, 64 bits, folding `bytes` into `hash`.
pub open spec fn fnv1a(hash: u64, bytes: Seq<u8>) -> u64
    decreases bytes.len(),
{
    if bytes.len() == 0 {
        hash
    } else {
        ((fnv1a(hash, bytes.drop_last()) ^ (bytes.last() as u64)) as u64).wrapping_mul(
            0x0000_0100_0000_01b3,
        )
    }
}

/// The FNV-1a offset basis.
pub open spec fn fnv_offset() -> u64 {
    0xcbf2_9ce4_8422_2325
}

/// Folds `bytes` into the FNV-1a hash `hash`.
pub fn fnv1a_extend(hash: u64, bytes: &[u8]) -> (h: u64)
    ensures
        h == fnv1a(hash, bytes@),
{
    let mut h = hash;
    let mut i: usize = 0;
    while i < bytes.len()
        invariant
            i <= bytes.len(),
            h == fnv1a(hash, bytes@.take(i as int)),
        decreases bytes.len() - i,
    {
        assert(bytes@.take(i + 1).drop_last() =~= bytes@.take(i as int));
        h = (h ^ bytes[i] as u64).wrapping_mul(0x0000_0100_0000_01b3);
        i = i + 1;
    }
    assert(bytes@.take(bytes.len() as int) =~= bytes@);
    h
}

/// The eight little-endian bytes of `x`.
pub open spec fn le_bytes(x: u64) -> Seq<u8> {
    Seq::new(8, |i: int| ((x as int / vstd::arithmetic::power::pow(256, i as nat)) % 256) as u8)
}

/// `u64::to_le_bytes`.
pub fn le_bytes_of(x: u64) -> (b: Vec<u8>)
    ensures
        b@ == le_bytes(x),
{
    let mut out: Vec<u8> = Vec::new();
    let mut v = x;
    let mut i: usize = 0;
    proof {
        vstd::arithmetic::power::lemma_pow0(256);
    }
    while i < 8
        invariant
            i <= 8,
            out@.len() == i,
            v as int == x as int / vstd::arithmetic::power::pow(256, i as nat),
            forall|k: int| 0 <= k < i ==> out@[k] == le_bytes(x)[k],
        decreases 8 - i,
    {
        proof {
            vstd::arithmetic::power::lemma_pow_positive(256, i as nat);
            vstd::arithmetic::div_mod::lemma_div_denominator(
                x as int,
                vstd::arithmetic::power::pow(256, i as nat),
                256,
            );
            vstd::arithmetic::power::lemma_pow_adds(256, i as nat, 1);
            vstd::arithmetic::power::lemma_pow1(256);
        }
        out.push((v % 256) as u8);
        v = v / 256;
        i = i + 1;
    }
    assert(out@ =~= le_bytes(x));
    out
}

/// The fingerprint of a source medium: FNV-1a over the path text (UTF-8),
/// then the little-endian size, then the little-endian modification time in
/// seconds. Replacing the file changes it, so its proxy stops matching.
pub open spec fn fingerprint_of(path: Seq<u8>, len: u64, modified_secs: u64) -> u64 {
    fnv1a(fnv1a(fnv1a(fnv_offset(), path), le_bytes(len)), le_bytes(modified_secs))
}

/// The fingerprint of a medium from its path text, size and modification
/// time (seconds from the Unix epoch; zero when unknown).
pub fn fingerprint_hash(path: &str, len: u64, modified_secs: u64) -> (h: u64)
    ensures
        h == fingerprint_of(path.spec_bytes(), len, modified_secs),
{
    let h = fnv1a_extend(0xcbf2_9ce4_8422_2325, path.as_bytes());
    let lb = le_bytes_of(len);
    let h = fnv1a_extend(h, lb.as_slice());
    let mb = le_bytes_of(modified_secs);
    fnv1a_extend(h, mb.as_slice())
}

/// Characters that any file system takes in a name are kept; others become
/// `_`.
pub open spec fn safe_char(c: char) -> char {
    if char_is_alphanumeric(c) || c == ' ' || c == '-' || c == '_' || c == '.' {
        c
    } else {
        '_'
    }
}

/// `s` without the `.` at its end.
pub open spec fn trim_end_dots(s: Seq<char>) -> Seq<char>
    decreases s.len(),
{
    if s.len() > 0 && s.last() == '.' {
        trim_end_dots(s.drop_last())
    } else {
        s
    }
}

pub open spec fn clip_name() -> Seq<char> {
    seq!['c', 'l', 'i', 'p']
}

/// The stem of a proxy name: the medium's stem (`clip` when it has none),
/// each character made safe, cut at 48 characters, trimmed of white space
/// and of trailing dots; `clip` when nothing is left.
pub open spec fn safe_stem_of(stem: Option<Seq<char>>) -> Seq<char> {
    let raw = match stem {
        Some(s) => s,
        None => clip_name(),
    };
    let n = if raw.len() < 48 {
        raw.len()
    } else {
        48
    };
    let mapped = Seq::new(n, |i: int| safe_char(raw[i]));
    let cleaned = trim_end_dots(trim(mapped));
    if cleaned.len() == 0 {
        clip_name()
    } else {
        cleaned
    }
}

fn clip_chars() -> (v: Vec<char>)
    ensures
        v@ == clip_name(),
{
    let mut v: Vec<char> = Vec::new();
    v.push('c');
    v.push('l');
    v.push('i');
    v.push('p');
    assert(v@ =~= clip_name());
    v
}

/// The safe stem of a medium whose file stem is `stem`.
fn safe_stem(stem: Option<&str>) -> (out: Vec<char>)
    ensures
        out@ == safe_stem_of(
            match stem {
                Some(s) => Some(s@),
                None => None,
            },
        ),
{
    let raw = match stem {
        Some(s) => to_chars(s),
        None => clip_chars(),
    };
    let n = if raw.len() < 48 {
        raw.len()
    } else {
        48
    };
    let mut mapped: Vec<char> = Vec::new();
    let mut i: usize = 0;
    while i < n
        invariant
            i <= n <= raw.len(),
            mapped@ == Seq::new(i as nat, |k: int| safe_char(raw@[k])),
        decreases n - i,
    {
        let c = raw[i];
        let safe = if alphanumeric(c) || c == ' ' || c == '-' || c == '_' || c == '.' {
            c
        } else {
            '_'
        };
        mapped.push(safe);
        i = i + 1;
        assert(mapped@ =~= Seq::new(i as nat, |k: int| safe_char(raw@[k])));
    }
    let t = trimmed(&mapped);
    let mut end = t.len();
    assert(t@.subrange(0, t.len() as int) =~= t@);
    while end > 0 && t[end - 1] == '.'
        invariant
            end <= t.len(),
            trim_end_dots(t@) == trim_end_dots(t@.subrange(0, end as int)),
        decreases end,
    {
        assert(t@.subrange(0, end as int).drop_last() =~= t@.subrange(0, end - 1));
        end = end - 1;
    }
    proof {
        assert(t@.subrange(0, t.len() as int) =~= t@);
    }
    let cleaned = crate::text::slice_of(&t, 0, end);
    if cleaned.len() == 0 {
        clip_chars()
    } else {
        cleaned
    }
}

/// The proxy name of a medium: its safe stem, `-`, the fingerprint in
/// sixteen lowercase hexadecimal digits, and the suffix.
pub open spec fn proxy_name_of(stem: Option<Seq<char>>, fingerprint: u64) -> Seq<char> {
    safe_stem_of(stem) + seq!['-'] + hex_digits(fingerprint as nat, 16) + proxy_suffix()
}

/// The name of a medium's proxy. It follows the medium, not the clip that
/// uses it: two clips of one file share a proxy. `stem` is the medium's file
/// stem (`None` when it has none in UTF-8).
pub fn proxy_file_name(stem: Option<&str>, fingerprint: u64) -> (s: String)
    ensures
        s@ == proxy_name_of(
            match stem {
                Some(t) => Some(t@),
                None => None,
            },
            fingerprint,
        ),
{
    let mut out = safe_stem(stem);
    out.push('-');
    push_hex(&mut out, fingerprint, 16);
    let suffix = suffix_chars();
    push_all(&mut out, &suffix);
    chars_to_string(&out)
}

/// The proxy name a medium gets, or `None` when the medium cannot be read
/// (no fingerprint).
pub fn proxy_target(stem: Option<&str>, fingerprint: Option<u64>) -> (r: Option<String>)
    ensures
        r matches Some(s) ==> fingerprint matches Some(f) && s@ == proxy_name_of(
            match stem {
                Some(t) => Some(t@),
                None => None,
            },
            f,
        ),
        r is None <==> fingerprint is None,
{
    match fingerprint {
        None => None,
        Some(f) => Some(proxy_file_name(stem, f)),
    }
}

/// Whether the linked proxy named `proxy_name` describes the medium as it
/// is today; proxies named by the old per-clip scheme do not.
pub fn proxy_matches_source(proxy_name: Option<&str>, stem: Option<&str>, fingerprint: Option<u64>) -> (b: bool)
    ensures
        b == (proxy_name matches Some(n) && fingerprint matches Some(f) && n@ == proxy_name_of(
            match stem {
                Some(t) => Some(t@),
                None => None,
            },
            f,
        )),
{
    match (proxy_name, fingerprint) {
        (Some(name), Some(f)) => {
            let expected = proxy_file_name(stem, f);
            let a = to_chars(name);
            let b = to_chars(expected.as_str());
            chars_equal(&a, &b)
        },
        _ => false,
    }
}


/// The stem the proxy name of the medium at `source` takes: for a plain
/// path, the stem of its file name.
pub open spec fn stem_of_plain(source: Seq<char>) -> Option<Seq<char>> {
    Some(stem_of_name(last_part(source)))
}

/// The name of the proxy of the medium at `source`, from its file stem
/// (`Path::file_stem`): for a plain path the stem of its file name, so the
/// folders do not matter.
pub fn proxy_file_name_of_path(source: &str, fingerprint: u64) -> (s: String)
    ensures
        plain_path(source@) ==> s@ == proxy_name_of(stem_of_plain(source@), fingerprint),
        exists|stem: Option<Seq<char>>| s@ == #[trigger] proxy_name_of(stem, fingerprint),
{
    let stem = path_stem(source);
    let s = match &stem {
        Some(t) => proxy_file_name(Some(t.as_str()), fingerprint),
        None => proxy_file_name(None, fingerprint),
    };
    proof {
        let st = match stem {
            Some(t) => Some(t@),
            None => None,
        };
        assert(s@ == proxy_name_of(st, fingerprint));
    }
    s
}

/// The proxy name the medium at `source` gets, or `None` when it cannot be
/// read (no fingerprint).
pub fn proxy_target_of_path(source: &str, fingerprint: Option<u64>) -> (r: Option<String>)
    ensures
        r is None <==> fingerprint is None,
        r matches Some(s) ==> (fingerprint matches Some(f) && (plain_path(source@) ==> s@ == proxy_name_of(
            stem_of_plain(source@),
            f,
        ))),
{
    match fingerprint {
        None => None,
        Some(f) => Some(proxy_file_name_of_path(source, f)),
    }
}

/// Whether the linked proxy named `proxy_name` describes the medium at
/// `source` as it is today.
pub fn proxy_matches_path(proxy_name: Option<&str>, source: &str, fingerprint: Option<u64>) -> (b: bool)
    ensures
        plain_path(source@) ==> (b == (proxy_name matches Some(n) && fingerprint matches Some(f) && n@
            == proxy_name_of(stem_of_plain(source@), f))),
        b ==> (proxy_name matches Some(n) && fingerprint is Some && is_proxy_name(n@)),
{
    match (proxy_name, fingerprint) {
        (Some(name), Some(f)) => {
            let expected = proxy_file_name_of_path(source, f);
            let a = to_chars(name);
            let e = to_chars(expected.as_str());
            let same = chars_equal(&a, &e);
            proof {
                if same {
                    let st = choose|stem: Option<Seq<char>>| expected@ == #[trigger] proxy_name_of(stem, f);
                    lemma_proxy_names_are_proxies(st, f);
                }
            }
            same
        },
        _ => false,
    }
}

// ---------------------------------------------------------------------------
// Sizes as the interface shows them
// ---------------------------------------------------------------------------

/// The significand of 0.1 as a double: 0.1 is `0x1999999999999a / 2^56`.
pub open spec fn tenth_significand() -> nat {
    0x19_9999_9999_999a
}

/// The text of a cache size of `bytes`, as the interface computes it in
/// doubles: with `b = bytes as f64`, whole megabytes (`b / 1e6`) while
/// `b / 1e9 < 0.1`, else gigabytes (`b / 1e9`) with two decimals. Each
/// quotient is the double nearest it, and its text rounds that double's exact
/// value, ties to even.
pub open spec fn size_text(bytes: nat) -> Seq<char> {
    let b = f64_of(bytes);
    let gb = nearest_f64(b, 1_000_000_000);
    if gb.0 * pow2(56) < tenth_significand() * pow2(gb.1) {
        let mb = nearest_f64(b, 1_000_000);
        decimal(round_half_even(mb.0, pow2(mb.1))) + seq![' ', 'M', 'B']
    } else {
        let hundredths = round_half_even(gb.0 * 100, pow2(gb.1));
        decimal(hundredths / 100) + seq!['.'] + pad2(hundredths % 100) + seq![' ', 'G', 'B']
    }
}

/// A size for people: whole megabytes below a tenth of a gigabyte,
/// gigabytes with two decimals from there on.
#[verifier::spinoff_prover]
pub fn format_size(bytes: u64) -> (s: String)
    ensures
        s@ == size_text(bytes as nat),
{
    let b = f64_of_exec(bytes);
    let mut out: Vec<char> = Vec::new();
    if b == 0 {
        proof {
            let gb = nearest_f64(0, 1_000_000_000);
            let mb = nearest_f64(0, 1_000_000);
            lemma_pow2_pos(gb.1);
            lemma_pow2_pos(mb.1);
            let kg = gb.1;
            let km = mb.1;
            let pg = pow2(kg);
            let pm = pow2(km);
            assert(0nat * pg == 0) by (nonlinear_arith);
            assert(0nat * pm == 0) by (nonlinear_arith);
            assert(gb.0 == round_half_even(0, 1_000_000_000));
            assert(mb.0 == round_half_even(0, 1_000_000));
            assert(gb.0 == 0);
            assert(mb.0 == 0);
            assert(round_half_even(0, pow2(mb.1)) == 0);
        }
        out.push('0');
        out.push(' ');
        out.push('M');
        out.push('B');
        assert(out@ =~= size_text(bytes as nat));
        return chars_to_string(&out);
    }
    let (gm, gp) = nearest_f64_exec(b, 1_000_000_000);
    let ghost gk = nearest_f64(b as nat, 1_000_000_000).1;
    proof {
        lemma2_to64();
        vstd::arithmetic::power2::lemma2_to64_rest();
    }
    let two56: u128 = 0x100_0000_0000_0000;
    let tenth: u128 = 0x19_9999_9999_999a;
    let below_tenth = if gp >= two56 {
        proof {
            if gk < 56 {
                lemma_pow2_strictly_increases(gk, 56);
            }
            lemma_pow2_adds(56, (gk - 56) as nat);
            let q = pow2((gk - 56) as nat);
            assert(gp / two56 == q) by (nonlinear_arith)
                requires
                    gp == two56 * q,
                    two56 > 0,
            ;
            assert((gm * two56 < tenth * gp) == (gm < tenth * q)) by (nonlinear_arith)
                requires
                    gp == two56 * q,
                    two56 > 0,
            ;
        }
        gm < tenth * (gp / two56)
    } else {
        proof {
            if gk >= 56 {
                if gk > 56 {
                    lemma_pow2_strictly_increases(56, gk);
                }
            }
            lemma_pow2_adds(gk, (56 - gk) as nat);
            let q = pow2((56 - gk) as nat);
            lemma_pow2_pos(gk);
            assert(two56 / gp == q) by (nonlinear_arith)
                requires
                    two56 == gp * q,
                    gp > 0,
            ;
            assert((gm * two56 < tenth * gp) == (gm * q < tenth)) by (nonlinear_arith)
                requires
                    two56 == gp * q,
                    gp > 0,
            ;
            assert(gm * q <= 0x20_0000_0000_0000 * 0x100_0000_0000_0000) by (nonlinear_arith)
                requires
                    gm <= 0x20_0000_0000_0000,
                    q <= 0x100_0000_0000_0000,
            ;
        }
        gm * (two56 / gp) < tenth
    };
    if below_tenth {
        let (xm, xp) = nearest_f64_exec(b, 1_000_000);
        proof {
            lemma_round_half_even_bounds(xm as nat, xp as nat);
        }
        let whole = round_half_even_exec(xm, xp);
        proof {
            assert(xm / xp <= xm);
        }
        push_decimal(&mut out, whole as u64);
        out.push(' ');
        out.push('M');
        out.push('B');
    } else {
        proof {
            lemma_round_half_even_bounds((gm * 100) as nat, gp as nat);
            assert(((gm * 100) as int) / (gp as int) <= gm * 100);
        }
        let hundredths = round_half_even_exec(gm * 100, gp);
        push_decimal(&mut out, (hundredths / 100) as u64);
        out.push('.');
        push_pad2(&mut out, (hundredths % 100) as u64);
        out.push(' ');
        out.push('G');
        out.push('B');
    }
    assert(out@ =~= size_text(bytes as nat));
    chars_to_string(&out)
}

// ---------------------------------------------------------------------------
// What the names promise
// ---------------------------------------------------------------------------

proof fn lemma_hex_char_injective(a: nat, b: nat)
    requires
        a < 16,
        b < 16,
        hex_char(a) == hex_char(b),
    ensures
        a == b,
{
}

proof fn lemma_hex_digits_injective(x: nat, y: nat, n: nat)
    requires
        x < pow(16, n),
        y < pow(16, n),
        hex_digits(x, n) == hex_digits(y, n),
    ensures
        x == y,
    decreases n,
{
    reveal(pow);
    if n > 0 {
        let p = pow(16, (n - 1) as nat);
        let dx = hex_digits(x, n);
        let dy = hex_digits(y, n);
        assert(dx.last() == dy.last());
        lemma_hex_char_injective(x % 16, y % 16);
        assert(dx.drop_last() =~= hex_digits(x / 16, (n - 1) as nat));
        assert(dy.drop_last() =~= hex_digits(y / 16, (n - 1) as nat));
        assert(x / 16 < p) by (nonlinear_arith)
            requires
                x < 16 * p,
        ;
        assert(y / 16 < p) by (nonlinear_arith)
            requires
                y < 16 * p,
        ;
        lemma_hex_digits_injective(x / 16, y / 16, (n - 1) as nat);
    }
}

proof fn lemma_hex_digits_len(x: nat, n: nat)
    ensures
        hex_digits(x, n).len() == n,
    decreases n,
{
    if n > 0 {
        lemma_hex_digits_len(x / 16, (n - 1) as nat);
    }
}

/// Every proxy name is one that the budget counts as a proxy.
pub proof fn lemma_proxy_names_are_proxies(stem: Option<Seq<char>>, fingerprint: u64)
    ensures
        is_proxy_name(proxy_name_of(stem, fingerprint)),
{
    let name = proxy_name_of(stem, fingerprint);
    let head = safe_stem_of(stem) + seq!['-'] + hex_digits(fingerprint as nat, 16);
    assert(name == head + proxy_suffix());
    assert(name.subrange(name.len() - proxy_suffix().len(), name.len() as int) =~= proxy_suffix());
}

/// A proxy name determines the fingerprint it was made for: once the medium
/// changes (another fingerprint), no proxy made before matches it.
pub proof fn lemma_proxy_name_determines_fingerprint(
    stem: Option<Seq<char>>,
    fingerprint: u64,
    other_stem: Option<Seq<char>>,
    other_fingerprint: u64,
)
    requires
        proxy_name_of(stem, fingerprint) == proxy_name_of(other_stem, other_fingerprint),
    ensures
        fingerprint == other_fingerprint,
{
    let a = proxy_name_of(stem, fingerprint);
    let b = proxy_name_of(other_stem, other_fingerprint);
    let ha = hex_digits(fingerprint as nat, 16);
    let hb = hex_digits(other_fingerprint as nat, 16);
    lemma_hex_digits_len(fingerprint as nat, 16);
    lemma_hex_digits_len(other_fingerprint as nat, 16);
    assert(a.subrange(a.len() - 26, a.len() - 10) =~= ha);
    assert(b.subrange(b.len() - 26, b.len() - 10) =~= hb);
    assert(pow(16, 16) == 0x1_0000_0000_0000_0000) by {
        reveal_with_fuel(pow, 17);
    }
    lemma_hex_digits_injective(fingerprint as nat, other_fingerprint as nat, 16);
}

/// A character a proxy name keeps: a letter or digit, a space, `-`, `_` or
/// `.`.
pub open spec fn kept_char(c: char) -> bool {
    char_is_alphanumeric(c) || crate::edl::is_ascii_alphanumeric(c) || c == ' ' || c == '-' || c == '_' || c
        == '.'
}

/// Taking the dots off the end keeps a prefix that does not end with `.`.
proof fn lemma_trim_end_dots_shape(s: Seq<char>) -> (k: int)
    ensures
        0 <= k <= s.len(),
        trim_end_dots(s) == s.take(k),
        k > 0 ==> s[k - 1] != '.',
    decreases s.len(),
{
    if s.len() > 0 && s.last() == '.' {
        let k = lemma_trim_end_dots_shape(s.drop_last());
        assert(s.drop_last().take(k) =~= s.take(k));
        k
    } else {
        assert(s.take(s.len() as int) =~= s);
        s.len() as int
    }
}

/// The stem of a proxy name has from one to 48 characters, each one that a
/// proxy name keeps; it does not start with white space nor end with `.`.
/// The name is that stem, `-`, sixteen hexadecimal digits and the suffix,
/// so it has at most 75 characters.
pub proof fn lemma_proxy_name_shape(stem: Option<Seq<char>>, fingerprint: u64)
    ensures
        1 <= safe_stem_of(stem).len() <= 48,
        forall|i: int| 0 <= i < safe_stem_of(stem).len() ==> kept_char(#[trigger] safe_stem_of(stem)[i]),
        !is_white_space(safe_stem_of(stem)[0]),
        safe_stem_of(stem).last() != '.',
        proxy_name_of(stem, fingerprint).len() == safe_stem_of(stem).len() + 27,
        proxy_name_of(stem, fingerprint).len() <= 75,
{
    let raw = match stem {
        Some(s) => s,
        None => clip_name(),
    };
    let n = if raw.len() < 48 {
        raw.len()
    } else {
        48
    };
    let mapped = Seq::new(n, |i: int| safe_char(raw[i]));
    let (a, b) = crate::text::lemma_trim_shape(mapped);
    let t = trim(mapped);
    let k = lemma_trim_end_dots_shape(t);
    let out = safe_stem_of(stem);
    if k == 0 {
        assert(out == clip_name());
        assert forall|i: int| 0 <= i < out.len() implies kept_char(#[trigger] out[i]) by {}
    } else {
        assert(out == t.take(k));
        assert(t.len() == b - a);
        assert(out[0] == mapped[a]);
        assert(out.last() == t[k - 1]);
        assert forall|i: int| 0 <= i < out.len() implies kept_char(#[trigger] out[i]) by {
            assert(out[i] == mapped[a + i]);
            assert(mapped[a + i] == safe_char(raw[a + i]));
        }
    }
    lemma_hex_digits_len(fingerprint as nat, 16);
}

} // verus!
