//! Editing by text: which words of a transcript are speech, how words are
//! compared, and which of them are fillers.
use vstd::prelude::*;
use crate::text::{
    alphanumeric, char_is_alphanumeric, chars_equal, chars_to_string, is_white_space,
    lowercase_of, string_views, to_chars, to_lowercase, white_space,
};

verus! {

/// Text in brackets or parentheses, or without a letter or digit, is an
/// annotation (`[Música]`, `(risas)`), not speech.
pub open spec fn is_annotation_text(t: Seq<char>) -> bool {
    (t.len() > 0 && t[0] == '[' && t.last() == ']') || (t.len() > 0 && t[0] == '(' && t.last()
        == ')') || forall|i: int| 0 <= i < t.len() ==> !char_is_alphanumeric(#[trigger] t[i])
}

/// Whether a recognized segment is an annotation rather than speech.
pub fn is_annotation(text: &str) -> (b: bool)
    ensures
        b == is_annotation_text(text@),
{
    let t = to_chars(text);
    let n = t.len();
    if n > 0 && t[0] == '[' && t[n - 1] == ']' {
        return true;
    }
    if n > 0 && t[0] == '(' && t[n - 1] == ')' {
        return true;
    }
    let mut i: usize = 0;
    while i < n
        invariant
            i <= n == t.len(),
            t@ == text@,
            !(t@.len() > 0 && t@[0] == '[' && t@.last() == ']'),
            !(t@.len() > 0 && t@[0] == '(' && t@.last() == ')'),
            forall|k: int| 0 <= k < i ==> !char_is_alphanumeric(#[trigger] t@[k]),
        decreases n - i,
    {
        if alphanumeric(t[i]) {
            return false;
        }
        i = i + 1;
    }
    true
}

/// Text as words are compared: letters, digits and white space only, then
/// lowercased.
pub open spec fn normalized_text(t: Seq<char>) -> Seq<char> {
    lowercase_of(t.filter(|c: char| char_is_alphanumeric(c) || is_white_space(c)))
}

/// The text of a word, normalized for comparison.
pub fn normalized(text: &str) -> (s: String)
    ensures
        s@ == normalized_text(text@),
{
    let t = to_chars(text);
    let ghost keep = |c: char| char_is_alphanumeric(c) || is_white_space(c);
    let mut kept: Vec<char> = Vec::new();
    let mut i: usize = 0;
    while i < t.len()
        invariant
            i <= t.len(),
            keep == (|c: char| char_is_alphanumeric(c) || is_white_space(c)),
            kept@ == t@.take(i as int).filter(keep),
        decreases t.len() - i,
    {
        reveal_with_fuel(Seq::filter, 1);
        assert(t@.take(i + 1).drop_last() =~= t@.take(i as int));
        let c = t[i];
        if alphanumeric(c) || white_space(c) {
            kept.push(c);
        }
        i = i + 1;
    }
    assert(t@.take(t.len() as int) =~= t@);
    let s = chars_to_string(&kept);
    to_lowercase(s.as_str())
}

/// The one-word fillers proposed for removal.
pub open spec fn fillers() -> Seq<Seq<char>> {
    seq![
        "eh"@,
        "ehh"@,
        "ehm"@,
        "em"@,
        "emm"@,
        "erm"@,
        "mm"@,
        "mmm"@,
        "hm"@,
        "hmm"@,
        "ah"@,
        "ahh"@,
        "uh"@,
        "uhm"@,
        "um"@,
        "umm"@,
        "este"@,
    ]
}

/// The filler words among the normalized words `w` from position `i` on:
/// `o sea` (both words) and the one-word fillers.
pub open spec fn fillers_from(w: Seq<Seq<char>>, i: nat) -> Seq<nat>
    decreases w.len() - i,
{
    if i >= w.len() {
        Seq::empty()
    } else if i + 1 < w.len() && w[i as int] == "o"@ && w[(i + 1) as int] == "sea"@ {
        seq![i, i + 1] + fillers_from(w, i + 2)
    } else if fillers().contains(w[i as int]) {
        seq![i] + fillers_from(w, i + 1)
    } else {
        fillers_from(w, i + 1)
    }
}

/// The positions `fillers_from(w, i)` proposes are increasing positions of
/// `w` from `i` on.
pub proof fn lemma_fillers_increasing(w: Seq<Seq<char>>, i: nat)
    ensures
        forall|k: int|
            0 <= k < fillers_from(w, i).len() ==> i <= #[trigger] fillers_from(w, i)[k] < w.len(),
        forall|j: int, k: int|
            0 <= j < k < fillers_from(w, i).len() ==> #[trigger] fillers_from(w, i)[j]
                < #[trigger] fillers_from(w, i)[k],
    decreases w.len() - i,
{
    if i < w.len() {
        let f = fillers_from(w, i);
        let skip: nat = if i + 1 < w.len() && w[i as int] == "o"@ && w[(i + 1) as int] == "sea"@ {
            2
        } else if fillers().contains(w[i as int]) {
            1
        } else {
            0
        };
        let step: nat = if skip == 2 { 2 } else { 1 };
        let r = fillers_from(w, i + step);
        lemma_fillers_increasing(w, i + step);
        let head: Seq<nat> = if skip == 2 {
            seq![i, i + 1]
        } else if skip == 1 {
            seq![i]
        } else {
            Seq::empty()
        };
        assert(f == head + r);
        assert forall|k: int| 0 <= k < f.len() implies i <= #[trigger] f[k] < w.len() by {
            if k >= head.len() {
                assert(f[k] == r[k - head.len()]);
            }
        }
        assert forall|j: int, k: int| 0 <= j < k < f.len() implies #[trigger] f[j] < #[trigger] f[k] by {
            if k >= head.len() {
                assert(f[k] == r[k - head.len()]);
                if j >= head.len() {
                    assert(f[j] == r[j - head.len()]);
                }
            }
        }
    }
}

fn is_filler(word: &Vec<char>) -> (b: bool)
    ensures
        b == fillers().contains(word@),
{
    let list = [
        "eh",
        "ehh",
        "ehm",
        "em",
        "emm",
        "erm",
        "mm",
        "mmm",
        "hm",
        "hmm",
        "ah",
        "ahh",
        "uh",
        "uhm",
        "um",
        "umm",
        "este",
    ];
    let ghost f = fillers();
    let mut i: usize = 0;
    while i < 17
        invariant
            i <= 17,
            f == fillers(),
            forall|k: int| 0 <= k < 17 ==> (#[trigger] list@[k])@ == f[k],
            forall|k: int| 0 <= k < i ==> f[k] != word@,
        decreases 17 - i,
    {
        let c = to_chars(list[i]);
        if chars_equal(&c, word) {
            assert(f[i as int] == word@);
            return true;
        }
        i = i + 1;
    }
    false
}

/// Positions of the words that look like fillers, `o sea` included, given
/// the text of each word in order. They are only proposed: the user reviews
/// them, since «este» is also a legitimate demonstrative.
pub fn filler_indices(texts: &Vec<String>) -> (found: Vec<usize>)
    ensures
        found@.map_values(|i: usize| i as nat) == fillers_from(
            texts@.map_values(|t: String| normalized_text(t@)),
            0,
        ),
        forall|k: int| 0 <= k < found@.len() ==> #[trigger] found@[k] < texts@.len(),
        forall|j: int, k: int| 0 <= j < k < found@.len() ==> #[trigger] found@[j] < #[trigger] found@[k],
{
    let ghost w = texts@.map_values(|t: String| normalized_text(t@));
    let o = to_chars("o");
    let sea = to_chars("sea");
    let mut found: Vec<usize> = Vec::new();
    let mut index: usize = 0;
    while index < texts.len()
        invariant
            index <= texts.len() + 1,
            w == texts@.map_values(|t: String| normalized_text(t@)),
            o@ == "o"@,
            sea@ == "sea"@,
            found@.map_values(|i: usize| i as nat) + fillers_from(w, index as nat) == fillers_from(
                w,
                0,
            ),
        decreases texts.len() + 1 - index,
    {
        let current = to_chars(normalized(texts[index].as_str()).as_str());
        assert(current@ == w[index as int]);
        let ghost before = found@;
        if index + 1 < texts.len() && chars_equal(&current, &o) && chars_equal(
            &to_chars(normalized(texts[index + 1].as_str()).as_str()),
            &sea,
        ) {
            found.push(index);
            found.push(index + 1);
            assert(found@.map_values(|i: usize| i as nat) =~= before.map_values(|i: usize| i as nat)
                + seq![index as nat, (index + 1) as nat]);
            index = index + 2;
            continue;
        }
        if is_filler(&current) {
            found.push(index);
            assert(found@.map_values(|i: usize| i as nat) =~= before.map_values(|i: usize| i as nat)
                + seq![index as nat]);
        }
        index = index + 1;
    }
    proof {
        lemma_fillers_increasing(w, 0);
        let m = found@.map_values(|i: usize| i as nat);
        assert forall|k: int| 0 <= k < found@.len() implies #[trigger] found@[k] < texts@.len() by {
            assert(m[k] == found@[k] as nat);
        }
        assert forall|j: int, k: int| 0 <= j < k < found@.len() implies #[trigger] found@[j]
            < #[trigger] found@[k] by {
            assert(m[j] == found@[j] as nat);
            assert(m[k] == found@[k] as nat);
        }
    }
    found
}

// ---------------------------------------------------------------------------
// Pages of subtitles
// ---------------------------------------------------------------------------

/// What grouping the first words into pages leaves: the pages closed, as
/// ranges of indices, where the open page starts, and how many characters
/// its line holds.
pub struct PageState {
    pub closed: Seq<(int, int)>,
    pub start: int,
    pub chars: int,
}

/// The words up to `k` grouped into pages. Before a word, the open page
/// closes when it already holds the most words (at least one), when the
/// word would make the line longer than `max_chars` (one space between
/// words), or when a pause comes before the word; after a word that ends a
/// sentence, its page closes.
pub open spec fn page_state(
    lengths: Seq<usize>,
    sentence_end: Seq<bool>,
    gap_before: Seq<bool>,
    max_chars: usize,
    max_words: usize,
    k: nat,
) -> PageState
    decreases k,
{
    if k == 0 {
        PageState { closed: Seq::empty(), start: 0, chars: 0 }
    } else {
        let st = page_state(lengths, sentence_end, gap_before, max_chars, max_words, (k - 1) as nat);
        let index = k - 1;
        let length = lengths[index] as int;
        let count = index - st.start;
        let most = if max_words < 1 { 1 } else { max_words as int };
        let gap = index > st.start && gap_before[index];
        let breaks = count > 0 && (count >= most || st.chars + 1 + length > max_chars || gap);
        let (closed, start, chars) = if breaks {
            (st.closed.push((st.start, index)), index, 0)
        } else {
            (st.closed, st.start, st.chars)
        };
        let chars = if chars == 0 { length } else { chars + length + 1 };
        if sentence_end[index] {
            PageState { closed: closed.push((start, index + 1)), start: index + 1, chars: 0 }
        } else {
            PageState { closed, start, chars }
        }
    }
}

/// The pages of the words, as ranges of indices: those the grouping closes,
/// and the last one open if it holds any word.
pub open spec fn pages_spec(
    lengths: Seq<usize>,
    sentence_end: Seq<bool>,
    gap_before: Seq<bool>,
    max_chars: usize,
    max_words: usize,
) -> Seq<(int, int)> {
    let st = page_state(lengths, sentence_end, gap_before, max_chars, max_words, lengths.len());
    if st.start < lengths.len() {
        st.closed.push((st.start, lengths.len() as int))
    } else {
        st.closed
    }
}

pub open spec fn ranges_view(v: Seq<(usize, usize)>) -> Seq<(int, int)> {
    v.map_values(|p: (usize, usize)| (p.0 as int, p.1 as int))
}

/// The words grouped into subtitle pages, given the length of each word in
/// characters, whether it ends a sentence, and whether a pause comes before
/// it: ranges of indices, in order.
pub fn pages_of(
    lengths: &Vec<usize>,
    sentence_end: &Vec<bool>,
    gap_before: &Vec<bool>,
    max_chars: usize,
    max_words: usize,
) -> (r: Vec<(usize, usize)>)
    requires
        sentence_end.len() == lengths.len(),
        gap_before.len() == lengths.len(),
    ensures
        ranges_view(r@) == pages_spec(lengths@, sentence_end@, gap_before@, max_chars, max_words),
{
    let n = lengths.len();
    let most: usize = if max_words < 1 { 1 } else { max_words };
    let mut result: Vec<(usize, usize)> = Vec::new();
    let mut start: usize = 0;
    let mut chars: u128 = 0;
    let mut index: usize = 0;
    while index < n
        invariant
            n == lengths.len() == sentence_end.len() == gap_before.len(),
            most == (if max_words < 1 { 1 } else { max_words }),
            index <= n,
            start <= index,
            chars <= index * 0x1_0000_0000_0000_0000,
            ({
                let st = page_state(lengths@, sentence_end@, gap_before@, max_chars, max_words, index as nat);
                ranges_view(result@) == st.closed && st.start == start as int && st.chars == chars as int
            }),
        decreases n - index,
    {
        let ghost st = page_state(lengths@, sentence_end@, gap_before@, max_chars, max_words, index as nat);
        let length = lengths[index];
        let count = index - start;
        let gap = index > start && gap_before[index];
        if count > 0 && (count >= most || chars + 1 + length as u128 > max_chars as u128 || gap) {
            let ghost before = result@;
            result.push((start, index));
            assert(ranges_view(result@) =~= ranges_view(before).push((start as int, index as int)));
            start = index;
            chars = 0;
        }
        chars = if chars == 0 { length as u128 } else { chars + length as u128 + 1 };
        if sentence_end[index] {
            let ghost before = result@;
            result.push((start, index + 1));
            assert(ranges_view(result@) =~= ranges_view(before).push((start as int, index + 1)));
            start = index + 1;
            chars = 0;
        }
        index = index + 1;
    }
    if start < n {
        let ghost before = result@;
        result.push((start, n));
        assert(ranges_view(result@) =~= ranges_view(before).push((start as int, n as int)));
    }
    result
}

} // verus!
