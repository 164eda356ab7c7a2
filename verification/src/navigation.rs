//! Search of the command center: case, accents and word order do not
//! matter, and a title match ranks above a match in the details.
use vstd::prelude::*;
use crate::text::{
    chars_contain, chars_equal, chars_start_with, contains_seq, lemma_contains_transitive,
    lemma_word_in_trim, lemma_words_occur, lowercase_of, split_words, starts_with, to_chars,
    to_lowercase, trim, trimmed, views_of, words,
};

verus! {

/// Spanish accented lowercase vowels and `ñ` read as their plain letter.
pub open spec fn fold_accent(c: char) -> char {
    if c == '\u{e1}' || c == '\u{e0}' || c == '\u{e4}' {
        'a'
    } else if c == '\u{e9}' || c == '\u{e8}' || c == '\u{eb}' {
        'e'
    } else if c == '\u{ed}' || c == '\u{ec}' || c == '\u{ef}' {
        'i'
    } else if c == '\u{f3}' || c == '\u{f2}' || c == '\u{f6}' {
        'o'
    } else if c == '\u{fa}' || c == '\u{f9}' || c == '\u{fc}' {
        'u'
    } else if c == '\u{f1}' {
        'n'
    } else {
        c
    }
}

/// `text` lowercased, its accents folded.
pub open spec fn normalized_of(text: Seq<char>) -> Seq<char> {
    lowercase_of(text).map_values(|c: char| fold_accent(c))
}

fn fold(c: char) -> (r: char)
    ensures
        r == fold_accent(c),
{
    match c {
        '\u{e1}' | '\u{e0}' | '\u{e4}' => 'a',
        '\u{e9}' | '\u{e8}' | '\u{eb}' => 'e',
        '\u{ed}' | '\u{ec}' | '\u{ef}' => 'i',
        '\u{f3}' | '\u{f2}' | '\u{f6}' => 'o',
        '\u{fa}' | '\u{f9}' | '\u{fc}' => 'u',
        '\u{f1}' => 'n',
        _ => c,
    }
}

fn normalized_chars(text: &str) -> (out: Vec<char>)
    ensures
        out@ == normalized_of(text@),
{
    let lower = to_lowercase(text);
    let chars = to_chars(lower.as_str());
    let mut out: Vec<char> = Vec::new();
    let mut i: usize = 0;
    while i < chars.len()
        invariant
            i <= chars.len(),
            out@ == chars@.take(i as int).map_values(|c: char| fold_accent(c)),
        decreases chars.len() - i,
    {
        out.push(fold(chars[i]));
        i = i + 1;
        assert(out@ =~= chars@.take(i as int).map_values(|c: char| fold_accent(c)));
    }
    assert(chars@.take(chars.len() as int) =~= chars@);
    out
}

/// Text as the search compares it: lowercase, without Spanish accents.
pub fn normalized(text: &str) -> (s: String)
    ensures
        s@ == normalized_of(text@),
{
    let out = normalized_chars(text);
    crate::text::chars_to_string(&out)
}

/// How many of `tokens` do not occur in `title`.
pub open spec fn missing_in(tokens: Seq<Seq<char>>, title: Seq<char>) -> nat
    decreases tokens.len(),
{
    if tokens.len() == 0 {
        0
    } else {
        missing_in(tokens.drop_last(), title) + (if contains_seq(title, tokens.last()) {
            0nat
        } else {
            1nat
        })
    }
}

/// The rank of an entry for a query (lower is better): `None` unless every
/// word of the query occurs in the title or the details; 0 when the title is
/// the query, 1 when it starts with it, else 2 plus the words missing from
/// the title. All texts are normalized first.
pub open spec fn search_score_of(query: Seq<char>, title: Seq<char>, detail: Seq<char>) -> Option<nat> {
    let q = normalized_of(query);
    let t = normalized_of(title);
    let d = normalized_of(detail);
    let tokens = words(q);
    if !(forall|i: int|
        0 <= i < tokens.len() ==> contains_seq(t, #[trigger] tokens[i]) || contains_seq(
            d,
            tokens[i],
        )) {
        None
    } else if t == trim(q) {
        Some(0)
    } else if starts_with(t, trim(q)) {
        Some(1)
    } else {
        Some(2 + missing_in(tokens, t))
    }
}

/// The rank of an entry titled `title`, with details `detail`, for the
/// search `query`; `None` when it does not match.
pub fn search_score(query: &str, title: &str, detail: &str) -> (r: Option<usize>)
    ensures
        match search_score_of(query@, title@, detail@) {
            Some(v) => v <= usize::MAX && r == Some(v as usize),
            None => r is None,
        },
{
    let q = normalized_chars(query);
    let t = normalized_chars(title);
    let d = normalized_chars(detail);
    let tokens = split_words(&q);
    let ghost tv = views_of(tokens@);
    let mut i: usize = 0;
    let mut missing: usize = 0;
    while i < tokens.len()
        invariant
            i <= tokens.len(),
            tv == views_of(tokens@),
            tv == words(q@),
            q@ == normalized_of(query@),
            t@ == normalized_of(title@),
            d@ == normalized_of(detail@),
            missing <= i,
            2 * tokens.len() <= q.len() + 2,
            missing == missing_in(tv.take(i as int), t@),
            forall|k: int|
                0 <= k < i ==> contains_seq(t@, #[trigger] tv[k]) || contains_seq(d@, tv[k]),
        decreases tokens.len() - i,
    {
        assert(tv[i as int] == tokens@[i as int]@);
        assert(tv.take(i + 1).drop_last() =~= tv.take(i as int));
        let in_title = chars_contain(&t, &tokens[i]);
        if !in_title && !chars_contain(&d, &tokens[i]) {
            assert(!(contains_seq(t@, tv[i as int]) || contains_seq(d@, tv[i as int])));
            return None;
        }
        if !in_title {
            missing = missing + 1;
        }
        i = i + 1;
    }
    assert(tv.take(tokens.len() as int) =~= tv);
    let qt = trimmed(&q);
    if chars_equal(&t, &qt) {
        Some(0)
    } else if chars_start_with(&t, &qt) {
        Some(1)
    } else {
        Some(missing + 2)
    }
}


proof fn lemma_missing_none(tokens: Seq<Seq<char>>, title: Seq<char>)
    requires
        forall|i: int| 0 <= i < tokens.len() ==> contains_seq(title, #[trigger] tokens[i]),
    ensures
        missing_in(tokens, title) == 0,
    decreases tokens.len(),
{
    if tokens.len() > 0 {
        let rest = tokens.drop_last();
        assert forall|i: int| 0 <= i < rest.len() implies contains_seq(title, #[trigger] rest[i]) by {
            assert(rest[i] == tokens[i]);
        }
        lemma_missing_none(rest, title);
        assert(contains_seq(title, tokens[tokens.len() - 1]));
    }
}

proof fn lemma_missing_some(tokens: Seq<Seq<char>>, title: Seq<char>, k: int)
    requires
        0 <= k < tokens.len(),
        !contains_seq(title, tokens[k]),
    ensures
        missing_in(tokens, title) >= 1,
    decreases tokens.len(),
{
    if k < tokens.len() - 1 {
        let rest = tokens.drop_last();
        assert(rest[k] == tokens[k]);
        lemma_missing_some(rest, title, k);
    }
}

/// Each word of `query` occurs in any text that is, or starts with, the
/// query trimmed.
proof fn lemma_query_words_in(query: Seq<char>, title: Seq<char>, k: int)
    requires
        0 <= k < words(query).len(),
        title == trim(query) || starts_with(title, trim(query)),
    ensures
        contains_seq(title, words(query)[k]),
{
    lemma_words_occur(query);
    let w = words(query)[k];
    lemma_word_in_trim(query, w);
    let q = trim(query);
    assert(title.subrange(0, 0int + q.len()) == q);
    assert(contains_seq(title, q));
    lemma_contains_transitive(title, q, w);
}

/// An entry whose title holds every word of the query ranks above (scores
/// lower than) any matching entry whose title misses one of them: a title
/// match beats a match found only in the details.
pub proof fn lemma_title_matches_rank_first(
    query: Seq<char>,
    title: Seq<char>,
    detail: Seq<char>,
    other_title: Seq<char>,
    other_detail: Seq<char>,
)
    requires
        forall|i: int|
            0 <= i < words(normalized_of(query)).len() ==> contains_seq(
                normalized_of(title),
                #[trigger] words(normalized_of(query))[i],
            ),
        exists|i: int|
            0 <= i < words(normalized_of(query)).len() && !contains_seq(
                normalized_of(other_title),
                #[trigger] words(normalized_of(query))[i],
            ),
        search_score_of(query, other_title, other_detail) is Some,
    ensures
        search_score_of(query, title, detail) matches Some(a) && search_score_of(
            query,
            other_title,
            other_detail,
        ) matches Some(b) && a < b,
{
    let q = normalized_of(query);
    let t = normalized_of(title);
    let ot = normalized_of(other_title);
    let tokens = words(q);
    lemma_missing_none(tokens, t);
    let k = choose|i: int| 0 <= i < tokens.len() && !contains_seq(ot, #[trigger] tokens[i]);
    if ot == trim(q) || starts_with(ot, trim(q)) {
        lemma_query_words_in(q, ot, k);
    }
    lemma_missing_some(tokens, ot, k);
}

/// The plain letter that a Spanish accented lowercase letter stands for:
/// `á à ä` for `a`, `é è ë` for `e`, `í ì ï` for `i`, `ó ò ö` for `o`,
/// `ú ù ü` for `u`, and `ñ` for `n`.
pub open spec fn accented_form_of(accented: char, plain: char) -> bool {
    ||| plain == 'a' && (accented == '\u{e1}' || accented == '\u{e0}' || accented == '\u{e4}')
    ||| plain == 'e' && (accented == '\u{e9}' || accented == '\u{e8}' || accented == '\u{eb}')
    ||| plain == 'i' && (accented == '\u{ed}' || accented == '\u{ec}' || accented == '\u{ef}')
    ||| plain == 'o' && (accented == '\u{f3}' || accented == '\u{f2}' || accented == '\u{f6}')
    ||| plain == 'u' && (accented == '\u{fa}' || accented == '\u{f9}' || accented == '\u{fc}')
    ||| plain == 'n' && accented == '\u{f1}'
}

/// Accents do not matter to the search: two lowercase texts that differ only
/// where one has a Spanish accented letter and the other its plain letter
/// fold to the same text, so a query and a title that differ only so are
/// compared as one text.
pub proof fn lemma_accents_do_not_matter(a: Seq<char>, b: Seq<char>)
    requires
        a.len() == b.len(),
        forall|i: int| 0 <= i < a.len() ==> a[i] == b[i] || accented_form_of(#[trigger] a[i], b[i]),
    ensures
        a.map_values(|c: char| fold_accent(c)) == b.map_values(|c: char| fold_accent(c)),
{
    assert forall|i: int| 0 <= i < a.len() implies fold_accent(#[trigger] a[i]) == fold_accent(b[i]) by {
        if a[i] != b[i] {
            assert(accented_form_of(a[i], b[i]));
        }
    }
    assert(a.map_values(|c: char| fold_accent(c)) =~= b.map_values(|c: char| fold_accent(c)));
}

/// Texts whose lowercase forms differ only by Spanish accents normalize to
/// the same text, and so score the same against any entry.
pub proof fn lemma_accented_queries_score_alike(q1: Seq<char>, q2: Seq<char>, title: Seq<char>, detail: Seq<char>)
    requires
        lowercase_of(q1).len() == lowercase_of(q2).len(),
        forall|i: int|
            0 <= i < lowercase_of(q1).len() ==> lowercase_of(q1)[i] == lowercase_of(q2)[i] || accented_form_of(
                #[trigger] lowercase_of(q1)[i],
                lowercase_of(q2)[i],
            ),
    ensures
        normalized_of(q1) == normalized_of(q2),
        search_score_of(q1, title, detail) == search_score_of(q2, title, detail),
{
    lemma_accents_do_not_matter(lowercase_of(q1), lowercase_of(q2));
}

} // verus!
