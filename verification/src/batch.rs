//! Editing a selection writes only the fields that were chosen: which
//! fields there are, the category each belongs to, which clips take a
//! category, what a batch edit decides for each selected clip and how the
//! outcome is reported.
use vstd::prelude::*;

verus! {

/// An editable field of a clip.
#[derive(Clone, Copy, Debug, PartialEq, Eq, Structural)]
pub enum Field {
    X,
    Y,
    Scale,
    Rotation,
    Opacity,
    Exposure,
    Contrast,
    Saturation,
    Vignette,
    Blur,
    Gain,
    Pan,
    Mute,
    FadeIn,
    FadeOut,
}

/// Transform 0, colour and effects 1, audio 2, fades 3.
pub open spec fn category_of(f: Field) -> nat {
    match f {
        Field::X | Field::Y | Field::Scale | Field::Rotation | Field::Opacity => 0,
        Field::Exposure | Field::Contrast | Field::Saturation | Field::Vignette | Field::Blur => 1,
        Field::Gain | Field::Pan | Field::Mute => 2,
        Field::FadeIn | Field::FadeOut => 3,
    }
}

impl Field {
    /// The category of the field (transform, colour and effects, audio,
    /// fades).
    pub fn category(self) -> (c: usize)
        ensures
            c == category_of(self),
    {
        match self {
            Field::X | Field::Y | Field::Scale | Field::Rotation | Field::Opacity => 0,
            Field::Exposure | Field::Contrast | Field::Saturation | Field::Vignette | Field::Blur => 1,
            Field::Gain | Field::Pan | Field::Mute => 2,
            Field::FadeIn | Field::FadeOut => 3,
        }
    }
}

/// What a clip is, as far as batch editing cares.
#[derive(Clone, Copy, Debug, PartialEq, Eq, Structural)]
pub struct ClipTraits {
    /// The clip is a nested sequence.
    pub nested: bool,
    /// The clip is a title.
    pub title: bool,
    pub has_video: bool,
    pub has_audio: bool,
    pub is_adjustment: bool,
}

/// Which categories a clip takes (4 is its label): none for nested
/// sequences and titles.
pub open spec fn supports_of(c: ClipTraits, category: nat) -> bool {
    if c.nested || c.title {
        false
    } else if category == 0 {
        c.has_video && !c.is_adjustment
    } else if category == 1 {
        c.has_video
    } else if category == 2 {
        c.has_audio && !c.is_adjustment
    } else if category == 3 {
        (c.has_video || c.has_audio) && !c.is_adjustment
    } else {
        category == 4
    }
}

/// Whether a clip takes fields of `category`.
pub fn supports(c: &ClipTraits, category: usize) -> (b: bool)
    ensures
        b == supports_of(*c, category as nat),
{
    if c.nested || c.title {
        return false;
    }
    match category {
        0 => c.has_video && !c.is_adjustment,
        1 => c.has_video,
        2 => c.has_audio && !c.is_adjustment,
        3 => (c.has_video || c.has_audio) && !c.is_adjustment,
        4 => true,
        _ => false,
    }
}

/// What a batch edit writes.
#[derive(Clone, Debug)]
pub enum Request {
    /// Set these fields; each value comes with whether it is a finite number.
    Fields(Vec<(Field, bool)>),
    /// Copy the enabled categories (transform, colour and effects, audio,
    /// fades, label) from a clip with these traits: a copied clip when
    /// pasting, a default clip when resetting.
    Categories(ClipTraits, [bool; 5]),
}

/// How many items a request holds: its fields, or the five categories.
pub open spec fn item_count(r: Request) -> nat {
    match r {
        Request::Fields(fs) => fs@.len(),
        Request::Categories(_, _) => 5,
    }
}

/// Item `k` of the request is written to a clip with traits `c`.
pub open spec fn item_accepted(c: ClipTraits, r: Request, k: int) -> bool {
    match r {
        Request::Fields(fs) => supports_of(c, category_of(fs@[k].0)) && fs@[k].1,
        Request::Categories(source, enabled) => enabled@[k] && supports_of(c, k as nat)
            && supports_of(source, k as nat),
    }
}

/// Item `k` of the request asks for something the clip (or the source)
/// cannot take, or gives a value that is not a number.
pub open spec fn item_rejected(c: ClipTraits, r: Request, k: int) -> bool {
    match r {
        Request::Fields(fs) => !(supports_of(c, category_of(fs@[k].0)) && fs@[k].1),
        Request::Categories(source, enabled) => enabled@[k] && !(supports_of(c, k as nat)
            && supports_of(source, k as nat)),
    }
}

/// What a batch edit does to one selected clip.
#[derive(Clone, Debug, PartialEq, Eq)]
pub enum Outcome {
    /// The clip lies on a locked track and is left alone.
    Locked,
    /// Nothing asked for applies to the clip, and it is left alone.
    Incompatible,
    /// The items marked in `accepted` are written; `partial` when some
    /// other item was refused.
    Write { accepted: Vec<bool>, partial: bool },
}

/// The view of an outcome: `None` for a write, else whether it is locked.
pub open spec fn outcome_of(c: ClipTraits, locked: bool, r: Request) -> (Option<bool>, Seq<bool>, bool) {
    let n = item_count(r) as int;
    let accepted = Seq::new(n as nat, |k: int| item_accepted(c, r, k));
    let rejected = exists|k: int| 0 <= k < n && item_rejected(c, r, k);
    if locked {
        (Some(true), Seq::empty(), false)
    } else if !(exists|k: int| 0 <= k < n && item_accepted(c, r, k)) && rejected {
        (Some(false), Seq::empty(), false)
    } else {
        (None, accepted, rejected)
    }
}

pub open spec fn outcome_view(o: Outcome) -> (Option<bool>, Seq<bool>, bool) {
    match o {
        Outcome::Locked => (Some(true), Seq::empty(), false),
        Outcome::Incompatible => (Some(false), Seq::empty(), false),
        Outcome::Write { accepted, partial } => (None, accepted@, partial),
    }
}

/// What the request does to a clip with traits `c`, on a locked track or
/// not: a locked clip is left alone; one that takes nothing asked for while
/// something was refused is incompatible; any other gets the items it
/// takes written, partially when something was refused.
pub fn outcome(c: &ClipTraits, locked: bool, r: &Request) -> (o: Outcome)
    ensures
        outcome_view(o) == outcome_of(*c, locked, *r),
{
    if locked {
        return Outcome::Locked;
    }
    let mut accepted: Vec<bool> = Vec::new();
    let mut any_accepted = false;
    let mut any_rejected = false;
    let n: usize = match r {
        Request::Fields(fs) => fs.len(),
        Request::Categories(_, _) => 5,
    };
    let mut k: usize = 0;
    while k < n
        invariant
            k <= n,
            n == item_count(*r),
            accepted@ == Seq::new(k as nat, |j: int| item_accepted(*c, *r, j)),
            any_accepted == exists|j: int| 0 <= j < k && item_accepted(*c, *r, j),
            any_rejected == exists|j: int| 0 <= j < k && item_rejected(*c, *r, j),
        decreases n - k,
    {
        let (takes, refused) = match r {
            Request::Fields(fs) => {
                let (field, finite) = fs[k];
                let ok = supports(c, field.category()) && finite;
                (ok, !ok)
            },
            Request::Categories(source, enabled) => {
                if enabled[k] {
                    let ok = supports(c, k) && supports(source, k);
                    (ok, !ok)
                } else {
                    (false, false)
                }
            },
        };
        assert(takes == item_accepted(*c, *r, k as int));
        assert(refused == item_rejected(*c, *r, k as int));
        accepted.push(takes);
        any_accepted = any_accepted || takes;
        any_rejected = any_rejected || refused;
        k = k + 1;
        assert(accepted@ =~= Seq::new(k as nat, |j: int| item_accepted(*c, *r, j)));
    }
    if !any_accepted && any_rejected {
        Outcome::Incompatible
    } else {
        Outcome::Write { accepted, partial: any_rejected }
    }
}

/// The distinct indices of `indices` that name one of `len` clips, in
/// increasing order.
pub fn distinct_in_range(indices: &Vec<usize>, len: usize) -> (r: Vec<usize>)
    ensures
        forall|a: int, b: int| 0 <= a < b < r.len() ==> r@[a] < r@[b],
        forall|i: usize| r@.contains(i) <==> (i < len && indices@.contains(i)),
{
    let mut marked: Vec<bool> = Vec::new();
    let mut i: usize = 0;
    while i < len
        invariant
            i <= len,
            marked@.len() == i,
            forall|j: int| 0 <= j < i ==> !marked@[j],
        decreases len - i,
    {
        marked.push(false);
        i = i + 1;
    }
    let mut k: usize = 0;
    while k < indices.len()
        invariant
            k <= indices.len(),
            marked@.len() == len,
            forall|j: int| 0 <= j < len ==> (marked@[j] <==> indices@.take(k as int).contains(j as usize)),
        decreases indices.len() - k,
    {
        let x = indices[k];
        proof {
            assert forall|j: int| 0 <= j < len implies (#[trigger] indices@.take(k + 1).contains(j as usize)
                <==> (indices@.take(k as int).contains(j as usize) || x == j)) by {
                let t = indices@.take(k + 1);
                if t.contains(j as usize) {
                    let w = choose|w: int| 0 <= w < t.len() && t[w] == j as usize;
                    if w < k {
                        assert(indices@.take(k as int)[w] == j as usize);
                    }
                }
                if indices@.take(k as int).contains(j as usize) {
                    let w = choose|w: int| 0 <= w < k && indices@.take(k as int)[w] == j as usize;
                    assert(t[w] == j as usize);
                }
                if x == j {
                    assert(t[k as int] == x);
                }
            }
        }
        if x < len {
            marked.set(x, true);
        }
        k = k + 1;
    }
    assert(indices@.take(indices.len() as int) =~= indices@);
    let mut r: Vec<usize> = Vec::new();
    let mut i: usize = 0;
    while i < len
        invariant
            i <= len,
            marked@.len() == len,
            forall|j: int| 0 <= j < len ==> (marked@[j] <==> indices@.contains(j as usize)),
            forall|a: int, b: int| 0 <= a < b < r.len() ==> r@[a] < r@[b],
            forall|a: int| 0 <= a < r.len() ==> r@[a] < i,
            forall|j: usize| r@.contains(j) <==> (j < i && indices@.contains(j)),
        decreases len - i,
    {
        if marked[i] {
            let ghost before = r@;
            r.push(i);
            assert forall|j: usize| r@.contains(j) <==> (j < i + 1 && indices@.contains(j)) by {
                if r@.contains(j) {
                    let w = choose|w: int| 0 <= w < r@.len() && r@[w] == j;
                    if w < before.len() {
                        assert(before.contains(j));
                    }
                }
                if j < i + 1 && indices@.contains(j) {
                    if j < i {
                        assert(before.contains(j));
                        let w = choose|w: int| 0 <= w < before.len() && before[w] == j;
                        assert(r@[w] == j);
                    } else {
                        assert(r@[before.len() as int] == j);
                    }
                }
            }
        } else {
            assert forall|j: usize| r@.contains(j) <==> (j < i + 1 && indices@.contains(j)) by {
                if j == i && indices@.contains(j) {
                    assert(marked@[i as int]);
                }
            }
        }
        i = i + 1;
    }
    r
}

/// A clip of the selection, as a batch edit sees it.
#[derive(Clone, Copy, Debug, PartialEq, Eq, Structural)]
pub struct Target {
    pub traits: ClipTraits,
    /// The clip lies on a locked track.
    pub locked: bool,
}

/// What a batch edit does to each distinct selected clip, in index order;
/// indices that name no clip are skipped.
pub fn plan(indices: &Vec<usize>, clips: &Vec<Target>, r: &Request) -> (p: Vec<(usize, Outcome)>)
    ensures
        forall|a: int, b: int| 0 <= a < b < p.len() ==> p@[a].0 < p@[b].0,
        forall|i: usize| (exists|k: int| 0 <= k < p.len() && p@[k].0 == i) <==> (i < clips.len()
            && indices@.contains(i)),
        forall|k: int| 0 <= k < p.len() ==> p@[k].0 < clips.len() && outcome_view(#[trigger] p@[k].1)
            == outcome_of(clips@[p@[k].0 as int].traits, clips@[p@[k].0 as int].locked, *r),
{
    let order = distinct_in_range(indices, clips.len());
    let mut p: Vec<(usize, Outcome)> = Vec::new();
    let mut k: usize = 0;
    while k < order.len()
        invariant
            k <= order.len(),
            forall|a: int, b: int| 0 <= a < b < order.len() ==> order@[a] < order@[b],
            forall|i: usize| order@.contains(i) <==> (i < clips.len() && indices@.contains(i)),
            p.len() == k,
            forall|a: int| 0 <= a < k ==> (#[trigger] p@[a]).0 == order@[a],
            forall|a: int| 0 <= a < k ==> (#[trigger] p@[a]).0 < clips.len(),
            forall|a: int| 0 <= a < k ==> outcome_view(#[trigger] p@[a].1)
                == outcome_of(clips@[p@[a].0 as int].traits, clips@[p@[a].0 as int].locked, *r),
        decreases order.len() - k,
    {
        let i = order[k];
        assert(order@.contains(i));
        let o = outcome(&clips[i].traits, clips[i].locked, r);
        p.push((i, o));
        k = k + 1;
    }
    assert forall|i: usize| (exists|k: int| 0 <= k < p.len() && p@[k].0 == i) <==> (i < clips.len()
        && indices@.contains(i)) by {
        if exists|k: int| 0 <= k < p.len() && p@[k].0 == i {
            let w = choose|w: int| 0 <= w < p.len() && p@[w].0 == i;
            assert(order@[w] == i);
            assert(order@.contains(i));
        }
        if i < clips.len() && indices@.contains(i) {
            assert(order@.contains(i));
            let w = choose|w: int| 0 <= w < order.len() && order@[w] == i;
            assert(p@[w].0 == i);
        }
    }
    p
}

/// How many selected clips a batch edit changed, left as they were, found
/// locked or incompatible, and wrote only in part.
#[derive(Clone, Copy, Debug, Default, PartialEq, Eq, Structural)]
pub struct Report {
    pub changed: usize,
    pub unchanged: usize,
    pub locked: usize,
    pub incompatible: usize,
    pub partial: usize,
}

/// How many of `os` satisfy `f`.
pub open spec fn count_of(os: Seq<(Outcome, bool)>, f: spec_fn((Outcome, bool)) -> bool) -> nat
    decreases os.len(),
{
    if os.len() == 0 {
        0
    } else {
        count_of(os.drop_last(), f) + (if f(os.last()) { 1nat } else { 0nat })
    }
}

pub open spec fn is_locked() -> spec_fn((Outcome, bool)) -> bool {
    |x: (Outcome, bool)| x.0 is Locked
}

pub open spec fn is_incompatible() -> spec_fn((Outcome, bool)) -> bool {
    |x: (Outcome, bool)| x.0 is Incompatible
}

pub open spec fn is_partial() -> spec_fn((Outcome, bool)) -> bool {
    |x: (Outcome, bool)| x.0 matches Outcome::Write { partial, .. } && partial
}

pub open spec fn is_changed() -> spec_fn((Outcome, bool)) -> bool {
    |x: (Outcome, bool)| x.0 is Write && x.1
}

pub open spec fn is_unchanged() -> spec_fn((Outcome, bool)) -> bool {
    |x: (Outcome, bool)| x.0 is Write && !x.1
}

/// The outcomes of a plan, each with whether writing it changed the clip.
pub open spec fn with_changes(p: Seq<(usize, Outcome)>, changed: Seq<bool>) -> Seq<(Outcome, bool)> {
    Seq::new(p.len(), |k: int| (p[k].1, changed[k]))
}

/// The report of a plan whose writes changed the clips marked in
/// `changed` (one mark per planned clip).
pub fn tally(p: &Vec<(usize, Outcome)>, changed: &Vec<bool>) -> (rep: Report)
    requires
        changed.len() == p.len(),
    ensures
        rep.locked == count_of(with_changes(p@, changed@), is_locked()),
        rep.incompatible == count_of(with_changes(p@, changed@), is_incompatible()),
        rep.partial == count_of(with_changes(p@, changed@), is_partial()),
        rep.changed == count_of(with_changes(p@, changed@), is_changed()),
        rep.unchanged == count_of(with_changes(p@, changed@), is_unchanged()),
{
    let ghost all = with_changes(p@, changed@);
    let mut rep = Report { changed: 0, unchanged: 0, locked: 0, incompatible: 0, partial: 0 };
    let mut k: usize = 0;
    while k < p.len()
        invariant
            k <= p.len() == changed.len(),
            all == with_changes(p@, changed@),
            rep.locked == count_of(all.take(k as int), is_locked()),
            rep.incompatible == count_of(all.take(k as int), is_incompatible()),
            rep.partial == count_of(all.take(k as int), is_partial()),
            rep.changed == count_of(all.take(k as int), is_changed()),
            rep.unchanged == count_of(all.take(k as int), is_unchanged()),
            rep.locked + rep.incompatible + rep.changed + rep.unchanged <= k,
            rep.partial <= k,
        decreases p.len() - k,
    {
        assert(all.take(k + 1).drop_last() =~= all.take(k as int));
        assert(all.take(k + 1).last() == (p@[k as int].1, changed@[k as int]));
        match &p[k].1 {
            Outcome::Locked => rep.locked = rep.locked + 1,
            Outcome::Incompatible => rep.incompatible = rep.incompatible + 1,
            Outcome::Write { partial, .. } => {
                if *partial {
                    rep.partial = rep.partial + 1;
                }
                if changed[k] {
                    rep.changed = rep.changed + 1;
                } else {
                    rep.unchanged = rep.unchanged + 1;
                }
            },
        }
        k = k + 1;
    }
    assert(all.take(k as int) =~= all);
    rep
}

/// Every outcome is counted once: as locked, incompatible, changed or
/// unchanged.
pub proof fn lemma_counted_once(os: Seq<(Outcome, bool)>)
    ensures
        count_of(os, is_locked()) + count_of(os, is_incompatible()) + count_of(os, is_changed())
            + count_of(os, is_unchanged()) == os.len(),
        count_of(os, is_partial()) <= count_of(os, is_changed()) + count_of(os, is_unchanged()),
    decreases os.len(),
{
    if os.len() > 0 {
        lemma_counted_once(os.drop_last());
    }
}

/// A batch edit accounts for every distinct selected clip exactly once in
/// its report (changed, unchanged, locked or incompatible), never writes a
/// clip on a locked track, and writes nothing to a clip that takes none of
/// what was asked.
pub proof fn lemma_batch_accounts_for_each_clip(
    indices: Seq<usize>,
    clips: Seq<Target>,
    r: Request,
    p: Seq<(usize, Outcome)>,
    changed: Seq<bool>,
)
    requires
        changed.len() == p.len(),
        forall|a: int, b: int| 0 <= a < b < p.len() ==> p[a].0 < p[b].0,
        forall|i: usize| (exists|k: int| 0 <= k < p.len() && p[k].0 == i) <==> (i < clips.len()
            && indices.contains(i)),
        forall|k: int| 0 <= k < p.len() ==> p[k].0 < clips.len() && outcome_view(#[trigger] p[k].1)
            == outcome_of(clips[p[k].0 as int].traits, clips[p[k].0 as int].locked, r),
    ensures
        count_of(with_changes(p, changed), is_locked()) + count_of(with_changes(p, changed), is_incompatible())
            + count_of(with_changes(p, changed), is_changed()) + count_of(with_changes(p, changed), is_unchanged())
            == p.len(),
        p.len() == Set::new(|i: usize| i < clips.len() && indices.contains(i)).len(),
        forall|k: int| 0 <= k < p.len() && clips[p[k].0 as int].locked ==> (#[trigger] p[k].1) is Locked,
        forall|k: int|
            0 <= k < p.len() && !clips[p[k].0 as int].locked && (#[trigger] p[k].1) is Write
                ==> forall|j: int| 0 <= j < item_count(r) && p[k].1->accepted@[j] ==> item_accepted(
                    clips[p[k].0 as int].traits,
                    r,
                    j,
                ),
{
    lemma_counted_once(with_changes(p, changed));
    let keys = p.map_values(|x: (usize, Outcome)| x.0);
    assert forall|a: int, b: int| 0 <= a < b < keys.len() implies keys[a] != keys[b] by {
        assert(p[a].0 < p[b].0);
    }
    let s = Set::new(|i: usize| i < clips.len() && indices.contains(i));
    assert(keys.to_set() =~= s) by {
        assert forall|i: usize| keys.to_set().contains(i) <==> s.contains(i) by {
            if keys.to_set().contains(i) {
                let w = choose|w: int| 0 <= w < keys.len() && keys[w] == i;
                assert(p[w].0 == i);
            }
            if s.contains(i) {
                let w = choose|w: int| 0 <= w < p.len() && p[w].0 == i;
                assert(keys[w] == i);
            }
        }
    }
    keys.unique_seq_to_set();
    assert forall|k: int| 0 <= k < p.len() && clips[p[k].0 as int].locked implies (#[trigger] p[k].1) is Locked by {
        let o = p[k].1;
        assert(outcome_view(o).0 == Some(true));
    }
    assert forall|k: int|
        0 <= k < p.len() && !clips[p[k].0 as int].locked && (#[trigger] p[k].1) is Write
            implies forall|j: int| 0 <= j < item_count(r) && p[k].1->accepted@[j] ==> item_accepted(
                clips[p[k].0 as int].traits,
                r,
                j,
            ) by {
        let c = clips[p[k].0 as int];
        assert(outcome_view(p[k].1).1 == Seq::new(item_count(r), |j: int| item_accepted(c.traits, r, j)));
    }
}

// ---------------------------------------------------------------------------
// What the inspector remembers
// ---------------------------------------------------------------------------

/// What the batch inspector remembers between frames: the selection and the
/// document generation its values belong to, and the value typed for each
/// of the fifteen fields (the bits of a double), if any.
pub struct InspectorMemory {
    pub selection: Vec<usize>,
    pub generation: u64,
    pub values: Vec<Option<u64>>,
}

/// Fifteen fields with no value typed.
pub open spec fn no_values() -> Seq<Option<u64>> {
    Seq::new(15, |_i: int| None::<u64>)
}

fn same_indices(a: &Vec<usize>, b: &Vec<usize>) -> (r: bool)
    ensures
        r == (a@ == b@),
{
    if a.len() != b.len() {
        return false;
    }
    let mut i: usize = 0;
    while i < a.len()
        invariant
            a.len() == b.len(),
            i <= a.len(),
            forall|j: int| 0 <= j < i ==> a@[j] == b@[j],
        decreases a.len() - i,
    {
        if a[i] != b[i] {
            return false;
        }
        i = i + 1;
    }
    assert(a@ =~= b@);
    true
}

impl InspectorMemory {
    /// Keeps the values typed while the selection and the document stay the
    /// same; when either changes, remembers the new ones and forgets every
    /// value.
    pub fn refresh(&mut self, selection: &Vec<usize>, generation: u64)
        ensures
            old(self).selection@ == selection@ && old(self).generation == generation ==> {
                &&& final(self).selection@ == old(self).selection@
                &&& final(self).generation == old(self).generation
                &&& final(self).values@ == old(self).values@
            },
            !(old(self).selection@ == selection@ && old(self).generation == generation) ==> {
                &&& final(self).selection@ == selection@
                &&& final(self).generation == generation
                &&& final(self).values@ == no_values()
            },
    {
        if !same_indices(&self.selection, selection) || self.generation != generation {
            let mut kept: Vec<usize> = Vec::new();
            let mut i: usize = 0;
            while i < selection.len()
                invariant
                    i <= selection.len(),
                    kept@ == selection@.take(i as int),
                decreases selection.len() - i,
            {
                kept.push(selection[i]);
                assert(selection@.take(i + 1) =~= selection@.take(i as int).push(selection@[i as int]));
                i = i + 1;
            }
            assert(selection@.take(i as int) =~= selection@);
            let mut values: Vec<Option<u64>> = Vec::new();
            let mut k: usize = 0;
            while k < 15
                invariant
                    k <= 15,
                    values@ == Seq::new(k as nat, |_i: int| None::<u64>),
                decreases 15 - k,
            {
                values.push(None);
                assert(values@ =~= Seq::new((k + 1) as nat, |_i: int| None::<u64>));
                k = k + 1;
            }
            self.selection = kept;
            self.generation = generation;
            self.values = values;
        }
    }
}

/// The audio fields (gain, pan, mute) are written to every clip with audio
/// that is not nested, a title or an adjustment, with or without video: a
/// batch of one audio field with a number is written in full to such a clip
/// on an unlocked track.
pub proof fn lemma_audio_fields_reach_audio_clips(c: ClipTraits, f: Field, fields: Vec<(Field, bool)>)
    requires
        c.has_audio,
        !c.nested,
        !c.title,
        !c.is_adjustment,
        f == Field::Gain || f == Field::Pan || f == Field::Mute,
        fields@ == seq![(f, true)],
    ensures
        outcome_of(c, false, Request::Fields(fields)) == (None::<bool>, seq![true], false),
{
    let r = Request::Fields(fields);
    assert(item_accepted(c, r, 0));
    assert(!item_rejected(c, r, 0));
    assert(Seq::new(1, |k: int| item_accepted(c, r, k)) =~= seq![true]);
}

/// Which clips take which fields, with a number, on an unlocked track (no
/// nested sequence or title takes any): the transform fields (position,
/// scale, rotation, opacity) clips with video that are no adjustment; the
/// colour and effect fields clips with video; the audio fields (gain, pan,
/// mute) clips with audio that are no adjustment; the fades clips with
/// video or audio that are no adjustment. A field a clip does not take
/// leaves it incompatible.
pub proof fn lemma_fields_reach_their_clips(c: ClipTraits, f: Field, fields: Vec<(Field, bool)>)
    requires
        fields@ == seq![(f, true)],
    ensures
        ({
            let takes = if c.nested || c.title {
                false
            } else {
                match f {
                    Field::X | Field::Y | Field::Scale | Field::Rotation | Field::Opacity => c.has_video
                        && !c.is_adjustment,
                    Field::Exposure | Field::Contrast | Field::Saturation | Field::Vignette
                    | Field::Blur => c.has_video,
                    Field::Gain | Field::Pan | Field::Mute => c.has_audio && !c.is_adjustment,
                    Field::FadeIn | Field::FadeOut => (c.has_video || c.has_audio) && !c.is_adjustment,
                }
            };
            outcome_of(c, false, Request::Fields(fields)) == if takes {
                (None::<bool>, seq![true], false)
            } else {
                (Some(false), Seq::<bool>::empty(), false)
            }
        }),
{
    let r = Request::Fields(fields);
    if item_accepted(c, r, 0) {
        assert(!item_rejected(c, r, 0));
        assert(Seq::new(1, |k: int| item_accepted(c, r, k)) =~= seq![true]);
    } else {
        assert(item_rejected(c, r, 0));
        assert(!(exists|k: int| 0 <= k < 1 && item_accepted(c, r, k)));
    }
}

} // verus!
