//! Finds in a folder the media that a project has lost.
//!
//! Moving a whole shoot to another disk is the usual way to break a project,
//! and relinking file by file is no answer when there are two hundred. The
//! tree is walked once and everything is resolved together: the walk itself
//! (reading folders) belongs to the caller, which reports every file it meets
//! to a `RelinkWalk` and stops when told to.
use vstd::prelude::*;
use std::collections::HashMap;
use crate::text::{
    chars_to_string, components_le, components_less_eq, decimal, lemma_components_le_total,
    lemma_components_le_transitive, lowercase_of, push_decimal, push_str, string_views,
    to_lowercase,
};

verus! {

/// A medium that the project cannot find.
#[derive(Debug, Clone, PartialEq, Eq)]
pub struct MissingMedia {
    pub key: usize,
    pub name: String,
    /// Known size of the original; zero when unknown.
    pub bytes: u64,
}

/// The result of a search.
#[derive(Debug, Clone, PartialEq, Eq)]
pub struct RelinkOutcome {
    pub found: HashMap<usize, String>,
    /// Names that did not turn up, in the order they were asked for.
    pub missing: Vec<String>,
    pub scanned: usize,
    /// The walk stopped at its cap: the chosen folder is huge and the file
    /// could lie beyond it.
    pub truncated: bool,
}

impl Default for RelinkOutcome {
    fn default() -> (o: Self)
        ensures
            o.found@ == Map::<usize, String>::empty(),
            o.missing@.len() == 0,
            o.scanned == 0,
            !o.truncated,
    {
        RelinkOutcome { found: HashMap::new(), missing: Vec::new(), scanned: 0, truncated: false }
    }
}

/// A file met during the walk whose name one of the media asks for.
#[derive(Debug, Clone)]
pub struct Candidate {
    /// Its file name, lowercased.
    pub name: String,
    pub path: String,
    /// The components of its path; their number is its depth.
    pub components: Vec<String>,
    pub bytes: u64,
}

/// The state of a search while the caller walks the folder.
pub struct RelinkWalk {
    wanted: Vec<String>,
    candidates: Vec<Candidate>,
    scanned: usize,
    truncated: bool,
    max_files: usize,
}

/// The candidate matches the medium's size (a known one).
pub open spec fn size_matches(media: MissingMedia, c: Candidate) -> bool {
    media.bytes > 0 && c.bytes == media.bytes
}

/// `a` is preferred to `b`, or tied with it, for `media`: a size match
/// first, then the shallower path, then the path order.
pub open spec fn preferred(media: MissingMedia, a: Candidate, b: Candidate) -> bool {
    if size_matches(media, a) != size_matches(media, b) {
        size_matches(media, a)
    } else if a.components.len() != b.components.len() {
        a.components.len() < b.components.len()
    } else {
        components_le(string_views(a.components@), string_views(b.components@))
    }
}

proof fn lemma_preferred_total(media: MissingMedia, a: Candidate, b: Candidate)
    ensures
        preferred(media, a, b) || preferred(media, b, a),
{
    lemma_components_le_total(string_views(a.components@), string_views(b.components@));
}

proof fn lemma_preferred_transitive(media: MissingMedia, a: Candidate, b: Candidate, c: Candidate)
    requires
        preferred(media, a, b),
        preferred(media, b, c),
    ensures
        preferred(media, a, c),
{
    if size_matches(media, a) == size_matches(media, b) && size_matches(media, b) == size_matches(
        media,
        c,
    ) && a.components.len() == b.components.len() && b.components.len() == c.components.len() {
        lemma_components_le_transitive(
            string_views(a.components@),
            string_views(b.components@),
            string_views(c.components@),
        );
    }
}

/// The candidate is a file of the medium's name (compared in lowercase).
pub open spec fn named_as(media: MissingMedia, c: Candidate) -> bool {
    c.name@ == lowercase_of(media.name@)
}

/// `i` is the first of the best candidates for `media`.
pub open spec fn is_best(media: MissingMedia, cands: Seq<Candidate>, i: int) -> bool {
    &&& 0 <= i < cands.len()
    &&& named_as(media, cands[i])
    &&& forall|j: int|
        0 <= j < cands.len() && named_as(media, #[trigger] cands[j]) ==> preferred(
            media,
            cands[i],
            cands[j],
        )
    &&& forall|j: int|
        0 <= j < i && named_as(media, #[trigger] cands[j]) ==> !preferred(media, cands[j], cands[i])
}

/// Some candidate bears the medium's name.
pub open spec fn has_candidate(media: MissingMedia, cands: Seq<Candidate>) -> bool {
    exists|j: int| 0 <= j < cands.len() && named_as(media, #[trigger] cands[j])
}

/// What the search resolves for the first `wanted` media: each found one
/// maps its key to its best candidate's path (a later medium with the same
/// key wins).
pub open spec fn resolved(wanted: Seq<MissingMedia>, cands: Seq<Candidate>) -> Map<usize, String>
    decreases wanted.len(),
{
    if wanted.len() == 0 {
        Map::empty()
    } else {
        let prev = resolved(wanted.drop_last(), cands);
        let media = wanted.last();
        if has_candidate(media, cands) {
            let i = choose|i: int| is_best(media, cands, i);
            prev.insert(media.key, cands[i].path)
        } else {
            prev
        }
    }
}

/// The names of the media without any candidate, in order.
pub open spec fn unresolved(wanted: Seq<MissingMedia>, cands: Seq<Candidate>) -> Seq<Seq<char>>
    decreases wanted.len(),
{
    if wanted.len() == 0 {
        Seq::empty()
    } else {
        let prev = unresolved(wanted.drop_last(), cands);
        let media = wanted.last();
        if has_candidate(media, cands) {
            prev
        } else {
            prev.push(media.name@)
        }
    }
}

/// The first best candidate exists whenever a candidate bears the name, and
/// is unique.
proof fn lemma_best_unique(media: MissingMedia, cands: Seq<Candidate>, i: int, k: int)
    requires
        is_best(media, cands, i),
        is_best(media, cands, k),
    ensures
        i == k,
{
    if i < k {
        assert(named_as(media, cands[i]));
    } else if k < i {
        assert(named_as(media, cands[k]));
    }
}

impl RelinkWalk {
    /// The lowercased names the search looks for.
    pub closed spec fn wanted_names(&self) -> Seq<Seq<char>> {
        string_views(self.wanted@)
    }

    /// The files met so far that bear a wanted name.
    pub closed spec fn candidates_view(&self) -> Seq<Candidate> {
        self.candidates@
    }

    pub closed spec fn scanned_count(&self) -> nat {
        self.scanned as nat
    }

    pub closed spec fn is_truncated(&self) -> bool {
        self.truncated
    }

    pub closed spec fn cap(&self) -> nat {
        self.max_files as nat
    }

    /// A search for `wanted` that looks at no more than `max_files` files.
    pub fn new(wanted: &Vec<MissingMedia>, max_files: usize) -> (w: RelinkWalk)
        ensures
            w.wanted_names() == wanted@.map_values(|m: MissingMedia| lowercase_of(m.name@)),
            w.candidates_view().len() == 0,
            w.scanned_count() == 0,
            !w.is_truncated(),
            w.cap() == max_files,
    {
        let mut names: Vec<String> = Vec::new();
        let mut i: usize = 0;
        while i < wanted.len()
            invariant
                i <= wanted.len(),
                names@.len() == i,
                string_views(names@) == wanted@.take(i as int).map_values(
                    |m: MissingMedia| lowercase_of(m.name@),
                ),
            decreases wanted.len() - i,
        {
            let ghost before = names@;
            names.push(to_lowercase(wanted[i].name.as_str()));
            i = i + 1;
            assert forall|k: int| 0 <= k < i implies string_views(names@)[k] == lowercase_of(
                wanted@[k].name@,
            ) by {
                if k < i - 1 {
                    assert(names@[k] == before[k]);
                    assert(string_views(before)[k] == lowercase_of(wanted@.take(i - 1)[k].name@));
                }
            }
            assert(string_views(names@) =~= wanted@.take(i as int).map_values(
                |m: MissingMedia| lowercase_of(m.name@),
            ));
        }
        assert(wanted@.take(wanted.len() as int) =~= wanted@);
        RelinkWalk { wanted: names, candidates: Vec::new(), scanned: 0, truncated: false, max_files }
    }

    /// Reports a regular file met by the walk (`file_name` is its name, when
    /// it has one in UTF-8). Returns whether the walk goes on: it stops at
    /// once when nothing is wanted, and at the cap, which marks the search as
    /// truncated.
    pub fn visit_file(
        &mut self,
        file_name: Option<&str>,
        path: String,
        components: Vec<String>,
        bytes: u64,
    ) -> (go_on: bool)
        ensures
            final(self).wanted_names() == old(self).wanted_names(),
            final(self).cap() == old(self).cap(),
            old(self).wanted_names().len() == 0 ==> !go_on && *final(self) == *old(self),
            old(self).wanted_names().len() > 0 && old(self).scanned_count() >= old(self).cap() ==> {
                &&& !go_on
                &&& final(self).is_truncated()
                &&& final(self).scanned_count() == old(self).scanned_count()
                &&& final(self).candidates_view() == old(self).candidates_view()
            },
            old(self).wanted_names().len() > 0 && old(self).scanned_count() < old(self).cap() ==> {
                &&& go_on
                &&& final(self).is_truncated() == old(self).is_truncated()
                &&& final(self).scanned_count() == old(self).scanned_count() + 1
                &&& match file_name {
                    Some(n) => if old(self).wanted_names().contains(lowercase_of(n@)) {
                        &&& final(self).candidates_view() == old(self).candidates_view().push(
                            Candidate {
                                name: final(self).candidates_view().last().name,
                                path,
                                components,
                                bytes,
                            },
                        )
                        &&& final(self).candidates_view().last().name@ == lowercase_of(n@)
                    } else {
                        final(self).candidates_view() == old(self).candidates_view()
                    },
                    None => final(self).candidates_view() == old(self).candidates_view(),
                }
            },
    {
        if self.wanted.len() == 0 {
            return false;
        }
        if self.scanned >= self.max_files {
            self.truncated = true;
            return false;
        }
        self.scanned = self.scanned + 1;
        match file_name {
            None => {},
            Some(n) => {
                let lower = to_lowercase(n);
                let mut i: usize = 0;
                let mut hit = false;
                while i < self.wanted.len()
                    invariant
                        i <= self.wanted.len(),
                        hit == exists|j: int| 0 <= j < i && self.wanted@[j]@ == lower@,
                    decreases self.wanted.len() - i,
                {
                    if self.wanted[i] == lower {
                        hit = true;
                    }
                    i = i + 1;
                }
                proof {
                    if hit {
                        let j = choose|j: int| 0 <= j < self.wanted.len() && self.wanted@[j]@ == lower@;
                        assert(string_views(self.wanted@)[j] == lower@);
                    }
                    if string_views(self.wanted@).contains(lower@) {
                        let j = choose|j: int|
                            0 <= j < string_views(self.wanted@).len() && string_views(self.wanted@)[j]
                                == lower@;
                        assert(self.wanted@[j]@ == lower@);
                    }
                }
                if hit {
                    self.candidates.push(Candidate { name: lower, path, components, bytes });
                }
            },
        }
        true
    }

    /// The index of the first best candidate for `media`, if any.
    fn best_for(&self, media: &MissingMedia) -> (r: Option<usize>)
        ensures
            r matches Some(i) ==> is_best(*media, self.candidates@, i as int),
            r is None ==> !has_candidate(*media, self.candidates@),
    {
        let target = to_lowercase(media.name.as_str());
        let mut best: Option<usize> = None;
        let mut i: usize = 0;
        let ghost cands = self.candidates@;
        while i < self.candidates.len()
            invariant
                i <= self.candidates.len(),
                cands == self.candidates@,
                target@ == lowercase_of(media.name@),
                best is None ==> forall|j: int| 0 <= j < i ==> !named_as(*media, #[trigger] cands[j]),
                best matches Some(b) ==> {
                    &&& b < i
                    &&& named_as(*media, cands[b as int])
                    &&& forall|j: int|
                        0 <= j < i && named_as(*media, #[trigger] cands[j]) ==> preferred(
                            *media,
                            cands[b as int],
                            cands[j],
                        )
                    &&& forall|j: int|
                        0 <= j < b && named_as(*media, #[trigger] cands[j]) ==> !preferred(
                            *media,
                            cands[j],
                            cands[b as int],
                        )
                },
            decreases self.candidates.len() - i,
        {
            let c = &self.candidates[i];
            if c.name == target {
                proof {
                    lemma_preferred_total(*media, cands[i as int], cands[i as int]);
                }
                match best {
                    None => {
                        best = Some(i);
                    },
                    Some(b) => {
                        if !self.prefers(media, &self.candidates[b], c) {
                            proof {
                                lemma_preferred_total(*media, cands[b as int], cands[i as int]);
                                assert forall|j: int|
                                    0 <= j < i + 1 && named_as(*media, #[trigger] cands[j])
                                        implies preferred(*media, cands[i as int], cands[j]) by {
                                    if j < i {
                                        lemma_preferred_transitive(
                                            *media,
                                            cands[i as int],
                                            cands[b as int],
                                            cands[j],
                                        );
                                    }
                                }
                                assert forall|j: int|
                                    0 <= j < i && named_as(*media, #[trigger] cands[j])
                                        implies !preferred(*media, cands[j], cands[i as int]) by {
                                    if preferred(*media, cands[j], cands[i as int]) {
                                        lemma_preferred_transitive(
                                            *media,
                                            cands[b as int],
                                            cands[j],
                                            cands[i as int],
                                        );
                                    }
                                }
                            }
                            best = Some(i);
                        }
                    },
                }
            }
            i = i + 1;
        }
        best
    }

    fn prefers(&self, media: &MissingMedia, a: &Candidate, b: &Candidate) -> (r: bool)
        ensures
            r == preferred(*media, *a, *b),
    {
        let ma = media.bytes > 0 && a.bytes == media.bytes;
        let mb = media.bytes > 0 && b.bytes == media.bytes;
        if ma != mb {
            ma
        } else if a.components.len() != b.components.len() {
            a.components.len() < b.components.len()
        } else {
            components_less_eq(&a.components, &b.components)
        }
    }

    /// Resolves every medium of `wanted`: its best candidate (a size match
    /// first, then the shallowest, then the first path) when one bears its
    /// name (in lowercase), else its name joins the missing ones.
    pub fn finish(&self, wanted: &Vec<MissingMedia>) -> (o: RelinkOutcome)
        ensures
            o.found@ == resolved(wanted@, self.candidates_view()),
            string_views(o.missing@) == unresolved(wanted@, self.candidates_view()),
            o.scanned == self.scanned_count(),
            o.truncated == self.is_truncated(),
    {
        let mut found: HashMap<usize, String> = HashMap::new();
        let mut missing: Vec<String> = Vec::new();
        let mut i: usize = 0;
        while i < wanted.len()
            invariant
                i <= wanted.len(),
                found@ == resolved(wanted@.take(i as int), self.candidates@),
                string_views(missing@) == unresolved(wanted@.take(i as int), self.candidates@),
            decreases wanted.len() - i,
        {
            let media = &wanted[i];
            let ghost pre = wanted@.take(i as int);
            assert(wanted@.take(i + 1).drop_last() =~= pre);
            assert(wanted@.take(i + 1).last() == *media);
            match self.best_for(media) {
                Some(b) => {
                    proof {
                        let k = choose|k: int| is_best(*media, self.candidates@, k);
                        lemma_best_unique(*media, self.candidates@, b as int, k);
                    }
                    found.insert(media.key, self.candidates[b].path.clone());
                },
                None => {
                    missing.push(media.name.clone());
                    assert(string_views(missing@) =~= unresolved(wanted@.take(i + 1), self.candidates@));
                },
            }
            i = i + 1;
        }
        assert(wanted@.take(wanted.len() as int) =~= wanted@);
        RelinkOutcome { found, missing, scanned: self.scanned, truncated: self.truncated }
    }
}

/// `""` for one, `"s"` otherwise.
pub open spec fn plural_of(count: nat) -> Seq<char> {
    if count == 1 {
        Seq::empty()
    } else {
        seq!['s']
    }
}

fn plural(count: usize) -> (s: &'static str)
    ensures
        s@ == plural_of(count as nat),
{
    proof {
        reveal_strlit("");
        reveal_strlit("s");
    }
    if count == 1 {
        ""
    } else {
        "s"
    }
}

/// The first three names of `names`, joined by `", "`.
pub open spec fn sample_of(names: Seq<Seq<char>>) -> Seq<char>
    decreases names.len(),
{
    let n = if names.len() < 3 {
        names.len()
    } else {
        3
    };
    if n == 0 {
        Seq::empty()
    } else if n == 1 {
        names[0]
    } else if n == 2 {
        names[0] + ", "@ + names[1]
    } else {
        names[0] + ", "@ + names[1] + ", "@ + names[2]
    }
}

/// The one-line report of a search.
pub open spec fn summary_of(found: nat, missing: Seq<Seq<char>>, truncated: bool) -> Seq<char> {
    decimal(found) + " medio"@ + plural_of(found) + " revinculado"@ + plural_of(found) + (if missing.len()
        > 0 {
        " · "@ + decimal(missing.len()) + " sin localizar: "@ + sample_of(missing)
    } else {
        Seq::empty()
    }) + (if truncated {
        " · carpeta demasiado grande, la búsqueda se detuvo antes de terminar"@
    } else {
        Seq::empty()
    })
}

/// A one-line report of what a search relinked, what it could not find
/// (the first three names) and whether it stopped at the cap.
pub fn summarize(outcome: &RelinkOutcome) -> (s: String)
    ensures
        s@ == summary_of(
            outcome.found@.len(),
            string_views(outcome.missing@),
            outcome.truncated,
        ),
{
    let found = outcome.found.len();
    let mut out: Vec<char> = Vec::new();
    push_decimal(&mut out, found as u64);
    push_str(&mut out, " medio");
    push_str(&mut out, plural(found));
    push_str(&mut out, " revinculado");
    push_str(&mut out, plural(found));
    let ghost head = out@;
    let n = outcome.missing.len();
    if n > 0 {
        push_str(&mut out, " · ");
        push_decimal(&mut out, n as u64);
        push_str(&mut out, " sin localizar: ");
        push_str(&mut out, outcome.missing[0].as_str());
        if n > 1 {
            push_str(&mut out, ", ");
            push_str(&mut out, outcome.missing[1].as_str());
        }
        if n > 2 {
            push_str(&mut out, ", ");
            push_str(&mut out, outcome.missing[2].as_str());
        }
        let ghost names = string_views(outcome.missing@);
        assert(names[0] == outcome.missing@[0]@);
        assert(n > 1 ==> names[1] == outcome.missing@[1]@);
        assert(n > 2 ==> names[2] == outcome.missing@[2]@);
    }
    if outcome.truncated {
        push_str(&mut out, " · carpeta demasiado grande, la búsqueda se detuvo antes de terminar");
    }
    assert(out@ =~= summary_of(
        outcome.found@.len(),
        string_views(outcome.missing@),
        outcome.truncated,
    ));
    chars_to_string(&out)
}

// ---------------------------------------------------------------------------
// The order of the walk
// ---------------------------------------------------------------------------

/// The folders of a walk in the order they are found, by the depth of each
/// (the root is at depth zero), and how many have been read: the walk is
/// breadth first, so the next folder read is always the oldest one found
/// and not yet read.
pub struct FolderQueue {
    depths: Vec<usize>,
    read: usize,
}

/// Depths that never go down.
pub open spec fn shallow_first(d: Seq<usize>) -> bool {
    forall|i: int, j: int| 0 <= i <= j < d.len() ==> d[i] <= d[j]
}

impl FolderQueue {
    /// The depths of the folders found, in the order found.
    pub closed spec fn depths_view(&self) -> Seq<usize> {
        self.depths@
    }

    /// How many folders have been read.
    pub closed spec fn read_count(&self) -> nat {
        self.read as nat
    }

    /// The depth of the folder being read (the root's before any is read).
    pub open spec fn current_depth(&self) -> nat {
        if self.read_count() == 0 {
            0
        } else {
            self.depths_view()[self.read_count() - 1] as nat
        }
    }

    /// The root comes first at depth zero; depths never go down, no folder
    /// is deeper than the number of folders before it, the last found is at
    /// most one below the folder being read, and no more are read than found.
    pub open spec fn wf(&self) -> bool {
        let d = self.depths_view();
        &&& d.len() >= 1
        &&& d[0] == 0
        &&& shallow_first(d)
        &&& forall|i: int| 0 <= i < d.len() ==> #[trigger] d[i] <= i
        &&& self.read_count() <= d.len()
        &&& d.last() <= self.current_depth() + 1
    }

    /// A walk that has found the root and read nothing.
    pub fn new() -> (q: FolderQueue)
        ensures
            q.wf(),
            q.depths_view() == seq![0usize],
            q.read_count() == 0,
    {
        let mut depths: Vec<usize> = Vec::new();
        depths.push(0);
        FolderQueue { depths, read: 0 }
    }

    /// The place, in the order found, of the next folder to read: the oldest
    /// not read yet; `None` when all have been read.
    pub fn next_folder(&mut self) -> (r: Option<usize>)
        requires
            old(self).wf(),
        ensures
            final(self).wf(),
            final(self).depths_view() == old(self).depths_view(),
            old(self).read_count() < old(self).depths_view().len() ==> r == Some(old(self).read_count() as usize)
                && final(self).read_count() == old(self).read_count() + 1,
            old(self).read_count() == old(self).depths_view().len() ==> r is None && final(self).read_count()
                == old(self).read_count(),
            final(self).current_depth() >= old(self).current_depth(),
    {
        if self.read < self.depths.len() {
            let r = self.read;
            self.read = self.read + 1;
            assert(self.depths@[r as int] >= self.depths@[0]);
            if r > 0 {
                assert(self.depths@[r as int] >= self.depths@[r - 1]);
            }
            Some(r)
        } else {
            None
        }
    }

    /// Records a folder found inside the folder being read, one level below
    /// it. Returns `false`, and records nothing, when no more can be counted.
    pub fn add_subfolder(&mut self) -> (added: bool)
        requires
            old(self).wf(),
        ensures
            final(self).wf(),
            final(self).read_count() == old(self).read_count(),
            added == (old(self).depths_view().len() < usize::MAX),
            added ==> final(self).depths_view() == old(self).depths_view().push(
                (old(self).current_depth() + 1) as usize,
            ),
            !added ==> final(self).depths_view() == old(self).depths_view(),
    {
        if self.depths.len() == usize::MAX {
            return false;
        }
        let current = if self.read == 0 {
            0
        } else {
            self.depths[self.read - 1]
        };
        assert(current <= self.read);
        let ghost before = self.depths@;
        self.depths.push(current + 1);
        assert(self.depths@ == before.push((current + 1) as usize));
        assert forall|i: int, j: int| 0 <= i <= j < self.depths@.len() implies self.depths@[i] <= self.depths@[j] by {
            if j == before.len() && i < j {
                assert(before[i] <= before.last());
            }
        }
        assert forall|i: int| 0 <= i < self.depths@.len() implies #[trigger] self.depths@[i] <= i by {
            if i < before.len() {
                assert(self.depths@[i] == before[i]);
            }
        }
        true
    }
}

/// Folders are read shallowest first: a folder read later is never
/// shallower than one read before it, so every file of a level is met
/// before any file of a deeper level.
pub proof fn lemma_folders_read_shallow_first(q: FolderQueue, i: int, j: int)
    requires
        q.wf(),
        0 <= i <= j < q.read_count(),
    ensures
        q.depths_view()[i] <= q.depths_view()[j],
{
}

} // verus!
