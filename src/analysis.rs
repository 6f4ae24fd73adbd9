//! Heuristic analysis of cleaned text: counts, content-type and language
//! guesses, and a complexity score.

use vstd::prelude::*;
use vstd::string::StringExecFns;
use crate::text::{nat_text, decimal_chars, push_text, lemma_words_nonempty, chars_of, string_of, split_lines, lines_of, split_words, words_of, trim_end, trim_end_chars, is_ws, is_whitespace, lower_of, lowercase, chars_eq, texts};

verus! {

/// `n` occurs in `h` at position `i`.
pub open spec fn occurs_at(h: Seq<char>, n: Seq<char>, i: int) -> bool {
    0 <= i && i + n.len() <= h.len() && h.subrange(i, i + n.len()) == n
}

/// `n` occurs somewhere in `h`.
pub open spec fn has_sub(h: Seq<char>, n: Seq<char>) -> bool {
    exists|i: int| occurs_at(h, n, i)
}

/// Whether `needle` occurs in `hay` at `i`.
pub fn occurs_at_exec(hay: &Vec<char>, needle: &Vec<char>, i: usize) -> (r: bool)
    requires
        i <= hay@.len(),
    ensures
        r == occurs_at(hay@, needle@, i as int),
{
    if needle.len() > hay.len() - i {
        return false;
    }
    let hl = hay.len();
    let mut j: usize = 0;
    while j < needle.len()
        invariant
            hl == hay@.len(),
            i + needle@.len() <= hay@.len(),
            j <= needle@.len(),
            hay@.subrange(i as int, i + j) == needle@.subrange(0, j as int),
        decreases needle.len() - j,
    {
        if hay[i + j] != needle[j] {
            assert(hay@.subrange(i as int, i + needle@.len())[j as int] != needle@[j as int]);
            return false;
        }
        j = j + 1;
        assert(hay@.subrange(i as int, i + j) =~= needle@.subrange(0, j as int));
    }
    assert(needle@.subrange(0, needle@.len() as int) =~= needle@);
    true
}

/// Whether `needle` occurs in `hay`.
pub fn contains_text(hay: &Vec<char>, needle: &str) -> (r: bool)
    ensures
        r == has_sub(hay@, needle@),
{
    let n = chars_of(needle);
    if n.len() > hay.len() {
        assert forall|k: int| !occurs_at(hay@, needle@, k) by {}
        return false;
    }
    if n.len() == 0 {
        assert(occurs_at(hay@, needle@, 0)) by {
            assert(hay@.subrange(0, 0) =~= needle@);
        }
        return true;
    }
    let last = hay.len() - n.len();
    let hl = hay.len();
    let mut i: usize = 0;
    while i <= last
        invariant
            hl == hay@.len(),
            n@ == needle@,
            n@.len() >= 1,
            last + n@.len() == hay@.len(),
            i <= last + 1,
            forall|k: int| 0 <= k < i ==> !occurs_at(hay@, needle@, k),
        decreases last + 1 - i,
    {
        if occurs_at_exec(hay, &n, i) {
            return true;
        }
        i = i + 1;
    }
    assert forall|k: int| !occurs_at(hay@, needle@, k) by {
        if 0 <= k && k + needle@.len() <= hay@.len() {
            assert(k < i);
        }
    }
    false
}

/// Occurrences of `p` in `h` from position `i` on, counted left to right
/// without overlap (what `str::matches(..).count()` gives).
pub open spec fn matches_from(h: Seq<char>, p: Seq<char>, i: int) -> int
    decreases h.len() - i,
{
    if p.len() == 0 || i < 0 || i + p.len() > h.len() {
        0
    } else if h.subrange(i, i + p.len()) == p {
        1 + matches_from(h, p, i + p.len())
    } else {
        matches_from(h, p, i + 1)
    }
}

proof fn lemma_matches_bound(h: Seq<char>, p: Seq<char>, i: int)
    requires
        0 <= i <= h.len(),
    ensures
        0 <= matches_from(h, p, i) <= h.len() - i,
    decreases h.len() - i,
{
    if p.len() > 0 && i + p.len() <= h.len() {
        if h.subrange(i, i + p.len()) == p {
            lemma_matches_bound(h, p, i + p.len());
        } else {
            lemma_matches_bound(h, p, i + 1);
        }
    }
}

fn count_matches(hay: &Vec<char>, pat: &str) -> (r: usize)
    ensures
        r == matches_from(hay@, pat@, 0),
{
    let p = chars_of(pat);
    if p.len() == 0 {
        return 0;
    }
    if p.len() > hay.len() {
        return 0;
    }
    let mut count: usize = 0;
    let mut i: usize = 0;
    let hl = hay.len();
    proof {
        lemma_matches_bound(hay@, pat@, 0);
    }
    while i <= hl && p.len() <= hl - i
        invariant
            hl == hay@.len(),
            p@ == pat@,
            p@.len() > 0,
            i <= hay@.len(),
            count + matches_from(hay@, pat@, i as int) == matches_from(hay@, pat@, 0),
            count <= i,
        decreases hay.len() - i,
    {
        if occurs_at_exec(hay, &p, i) {
            count = count + 1;
            i = i + p.len();
        } else {
            i = i + 1;
        }
    }
    count
}

/// Total non-overlapping occurrences of all patterns in `h`.
pub open spec fn total_matches(h: Seq<char>, pats: Seq<Seq<char>>) -> int
    decreases pats.len(),
{
    if pats.len() == 0 {
        0
    } else {
        total_matches(h, pats.drop_last()) + matches_from(h, pats.last(), 0)
    }
}

fn sum_matches(hay: &Vec<char>, pats: &Vec<&str>) -> (r: u128)
    requires
        pats@.len() <= 64,
    ensures
        r == total_matches(hay@, pats@.map_values(|p: &str| p@)),
{
    let mut total: u128 = 0;
    let mut i: usize = 0;
    let hl = hay.len();
    while i < pats.len()
        invariant
            hl == hay@.len(),
            i <= pats@.len(),
            pats@.len() <= 64,
            total == total_matches(hay@, pats@.subrange(0, i as int).map_values(|p: &str| p@)),
            total <= i * hay@.len(),
        decreases pats.len() - i,
    {
        let ghost pre = pats@.subrange(0, i as int).map_values(|p: &str| p@);
        let ghost cur = pats@.subrange(0, i + 1).map_values(|p: &str| p@);
        assert(cur.drop_last() =~= pre);
        let c = count_matches(hay, pats[i]);
        proof {
            lemma_matches_bound(hay@, pats@[i as int]@, 0);
        }
        assert(total + c <= (i + 1) * hay@.len()) by (nonlinear_arith)
            requires
                total <= i * hay@.len(),
                c <= hay@.len(),
        ;
        assert((i + 1) * hay@.len() <= 64 * hay@.len()) by (nonlinear_arith)
            requires
                i < 64,
        ;
        assert(64 * hay@.len() <= u128::MAX) by (nonlinear_arith)
            requires
                hay@.len() == hl,
                hl <= usize::MAX,
        ;
        total = total + c as u128;
        i = i + 1;
    }
    assert(pats@.subrange(0, pats@.len() as int) =~= pats@);
    total
}

/// The content-type label that the keyword rules give a lowercased text.
pub open spec fn content_label(l: Seq<char>) -> Seq<char> {
    if has_sub(l, "api"@) || has_sub(l, "endpoint"@) || has_sub(l, "function"@) {
        "technical_documentation"@
    } else if has_sub(l, "def "@) || has_sub(l, "function "@) || has_sub(l, "class "@) || has_sub(
        l,
        "import "@,
    ) || has_sub(l, "const "@) || has_sub(l, "var "@) {
        "code"@
    } else if has_sub(l, "dear "@) || has_sub(l, "sincerely"@) || has_sub(l, "regards"@) {
        "email"@
    } else if has_sub(l, "meeting"@) || has_sub(l, "agenda"@) || has_sub(l, "minutes"@) {
        "meeting_notes"@
    } else if has_sub(l, "research"@) || has_sub(l, "study"@) || has_sub(l, "analysis"@) {
        "research"@
    } else if has_sub(l, "introduction"@) || has_sub(l, "conclusion"@) || has_sub(
        l,
        "article"@,
    ) {
        "article"@
    } else {
        "general_text"@
    }
}

/// Labels an already lowercased text by its keywords.
pub fn classify_lowered(lower: &str) -> (r: String)
    ensures
        r@ == content_label(lower@),
{
    let l = chars_of(lower);
    let label = if contains_text(&l, "api") || contains_text(&l, "endpoint") || contains_text(
        &l,
        "function",
    ) {
        "technical_documentation"
    } else if contains_text(&l, "def ") || contains_text(&l, "function ") || contains_text(
        &l,
        "class ",
    ) || contains_text(&l, "import ") || contains_text(&l, "const ") || contains_text(&l, "var ") {
        "code"
    } else if contains_text(&l, "dear ") || contains_text(&l, "sincerely") || contains_text(
        &l,
        "regards",
    ) {
        "email"
    } else if contains_text(&l, "meeting") || contains_text(&l, "agenda") || contains_text(
        &l,
        "minutes",
    ) {
        "meeting_notes"
    } else if contains_text(&l, "research") || contains_text(&l, "study") || contains_text(
        &l,
        "analysis",
    ) {
        "research"
    } else if contains_text(&l, "introduction") || contains_text(&l, "conclusion")
        || contains_text(&l, "article") {
        "article"
    } else {
        "general_text"
    };
    String::from_str(label)
}

/// Guesses what kind of text this is from keywords of its lowercase form.
pub fn detect_content_type(text: &str) -> (r: String)
    ensures
        r@ == content_label(lower_of(text@)),
{
    let lower = lowercase(text);
    classify_lowered(lower.as_str())
}

/// Common English words.
pub open spec fn english_words() -> Seq<Seq<char>> {
    seq![
        "the"@, "and"@, "or"@, "but"@, "in"@, "on"@, "at"@, "to"@, "for"@, "of"@, "with"@,
        "by"@,
    ]
}

/// Common Spanish words.
pub open spec fn spanish_words() -> Seq<Seq<char>> {
    seq!["el"@, "la"@, "de"@, "que"@, "y"@, "a"@, "en"@, "un"@, "es"@, "se"@, "no"@, "te"@]
}

/// Common French words.
pub open spec fn french_words() -> Seq<Seq<char>> {
    seq![
        "le"@, "de"@, "et"@, "\u{e0}"@, "un"@, "il"@, "\u{ea}tre"@, "et"@, "en"@, "avoir"@,
        "que"@, "pour"@,
    ]
}

/// The language label that stop-word counts give a lowercased text.
pub open spec fn language_label(l: Seq<char>) -> Seq<char> {
    let en = total_matches(l, english_words());
    let es = total_matches(l, spanish_words());
    let fr = total_matches(l, french_words());
    if en > es && en > fr {
        "english"@
    } else if es > fr {
        "spanish"@
    } else if fr > 0 {
        "french"@
    } else {
        "unknown"@
    }
}

/// Guesses the language of an already lowercased text.
pub fn language_of_lowered(lower: &str) -> (r: String)
    ensures
        r@ == language_label(lower@),
{
    let l = chars_of(lower);
    let en_pats = vec!["the", "and", "or", "but", "in", "on", "at", "to", "for", "of", "with", "by"];
    let es_pats = vec!["el", "la", "de", "que", "y", "a", "en", "un", "es", "se", "no", "te"];
    let fr_pats = vec![
        "le",
        "de",
        "et",
        "\u{e0}",
        "un",
        "il",
        "\u{ea}tre",
        "et",
        "en",
        "avoir",
        "que",
        "pour",
    ];
    assert(en_pats@.map_values(|p: &str| p@) =~= english_words());
    assert(es_pats@.map_values(|p: &str| p@) =~= spanish_words());
    assert(fr_pats@.map_values(|p: &str| p@) =~= french_words());
    let en = sum_matches(&l, &en_pats);
    let es = sum_matches(&l, &es_pats);
    let fr = sum_matches(&l, &fr_pats);
    let label = if en > es && en > fr {
        "english"
    } else if es > fr {
        "spanish"
    } else if fr > 0 {
        "french"
    } else {
        "unknown"
    };
    String::from_str(label)
}

/// Guesses the language of a text from stop-word counts of its lowercase
/// form.
pub fn detect_language(text: &str) -> (r: String)
    ensures
        r@ == language_label(lower_of(text@)),
{
    let lower = lowercase(text);
    language_of_lowered(lower.as_str())
}

/// What `char::is_alphanumeric` says of a character.
pub uninterp spec fn alnum_of(c: char) -> bool;

/// What `char::is_numeric` says of a character.
pub uninterp spec fn numeric_of(c: char) -> bool;

/// Relies on `char::is_numeric`; on ASCII it accepts exactly the digits.
#[verifier::external_body]
fn is_numeric(c: char) -> (r: bool)
    ensures
        r == numeric_of(c),
        (c as u32) < 0x80 ==> (r <==> ('0' <= c && c <= '9')),
{
    c.is_numeric()
}

/// What `char::is_uppercase` says of a character.
pub uninterp spec fn upper_of(c: char) -> bool;

/// Relies on `char::is_alphanumeric`; on ASCII it accepts exactly the
/// letters and digits.
#[verifier::external_body]
pub fn is_alphanumeric(c: char) -> (r: bool)
    ensures
        r == alnum_of(c),
        (c as u32) < 0x80 ==> (r <==> (('a' <= c && c <= 'z') || ('A' <= c && c <= 'Z') || ('0'
            <= c && c <= '9'))),
{
    c.is_alphanumeric()
}

/// Relies on `char::is_uppercase`; on ASCII it accepts exactly `A` to `Z`.
#[verifier::external_body]
fn is_uppercase(c: char) -> (r: bool)
    ensures
        r == upper_of(c),
        (c as u32) < 0x80 ==> (r <==> ('A' <= c && c <= 'Z')),
{
    c.is_uppercase()
}

/// Number of lines of `ls` that hold only whitespace.
pub open spec fn blank_count(ls: Seq<Seq<char>>) -> int
    decreases ls.len(),
{
    if ls.len() == 0 {
        0
    } else {
        blank_count(ls.drop_last()) + if trim_end(ls.last()).len() == 0 {
            1int
        } else {
            0int
        }
    }
}

/// Number of characters of `s` that satisfy `f`.
pub open spec fn count_chars(s: Seq<char>, f: spec_fn(char) -> bool) -> int
    decreases s.len(),
{
    if s.len() == 0 {
        0
    } else {
        count_chars(s.drop_last(), f) + if f(s.last()) {
            1int
        } else {
            0int
        }
    }
}

/// Number of distinct values in `ws`.
pub open spec fn distinct_count(ws: Seq<Seq<char>>) -> int
    decreases ws.len(),
{
    if ws.len() == 0 {
        0
    } else {
        distinct_count(ws.drop_last()) + if ws.drop_last().contains(ws.last()) {
            0int
        } else {
            1int
        }
    }
}

/// Total length of the words.
pub open spec fn total_len(ws: Seq<Seq<char>>) -> int
    decreases ws.len(),
{
    if ws.len() == 0 {
        0
    } else {
        total_len(ws.drop_last()) + ws.last().len()
    }
}

/// Number of words whose first character is uppercase.
pub open spec fn capitalized_count(ws: Seq<Seq<char>>) -> int
    decreases ws.len(),
{
    if ws.len() == 0 {
        0
    } else {
        capitalized_count(ws.drop_last()) + if ws.last().len() > 0 && upper_of(ws.last()[0]) {
            1int
        } else {
            0int
        }
    }
}

/// A sentence-ending mark.
pub open spec fn is_terminal(c: char) -> bool {
    c == '.' || c == '!' || c == '?'
}

/// Neither alphanumeric nor whitespace.
pub open spec fn is_symbol(c: char) -> bool {
    !alnum_of(c) && !is_ws(c)
}

pub open spec fn min_int(a: int, b: int) -> int {
    if a < b {
        a
    } else {
        b
    }
}

/// The complexity score in thousandths: average word length (up to 300),
/// average sentence length in words (up to 300), symbols per word (up to
/// 200) and capitalised words per word (up to 200); 0 for a text without
/// words.
pub open spec fn complexity_of(s: Seq<char>) -> int {
    let ws = words_of(s);
    let w = ws.len() as int;
    if w == 0 {
        0
    } else {
        let sentences = count_chars(s, |c: char| is_terminal(c)) + 1;
        min_int(100 * total_len(ws) / w, 300) + min_int(50 * w / sentences, 300) + min_int(
            1000 * count_chars(s, |c: char| is_symbol(c)) / w,
            200,
        ) + min_int(1000 * capitalized_count(ws) / w, 200)
    }
}

/// Counts and heuristic labels of a text.
pub struct TextStatistics {
    pub total_lines: usize,
    pub non_empty_lines: usize,
    pub empty_lines: usize,
    pub total_words: usize,
    pub unique_words: usize,
    pub total_characters: usize,
    pub characters_no_spaces: usize,
    pub reading_time_minutes: usize,
    pub sentence_count: usize,
    pub complexity_score: u32,
    pub has_numbers: bool,
    pub has_special_chars: bool,
    pub content_type: String,
    pub language: String,
}

/// The lowercase forms of the words.
pub open spec fn lower_words(ws: Seq<Seq<char>>) -> Seq<Seq<char>> {
    ws.map_values(|w: Seq<char>| lower_of(w))
}

proof fn lemma_count_chars_bound(s: Seq<char>, f: spec_fn(char) -> bool)
    ensures
        0 <= count_chars(s, f) <= s.len(),
    decreases s.len(),
{
    if s.len() > 0 {
        lemma_count_chars_bound(s.drop_last(), f);
    }
}

/// Counts the characters of `cs` that are not whitespace (`which == 0`),
/// sentence marks (1), symbols (2) or numeric (3).
fn count_where(cs: &Vec<char>, which: u8) -> (r: usize)
    requires
        which < 4,
    ensures
        which == 0 ==> r == count_chars(cs@, |c: char| !is_ws(c)),
        which == 1 ==> r == count_chars(cs@, |c: char| is_terminal(c)),
        which == 2 ==> r == count_chars(cs@, |c: char| is_symbol(c)),
        which == 3 ==> r == count_chars(cs@, |c: char| numeric_of(c)),
{
    let mut total: usize = 0;
    let mut i: usize = 0;
    while i < cs.len()
        invariant
            i <= cs@.len(),
            which < 4,
            which == 3 ==> total == count_chars(cs@.subrange(0, i as int), |c: char| numeric_of(c)),
            which == 0 ==> total == count_chars(cs@.subrange(0, i as int), |c: char| !is_ws(c)),
            which == 1 ==> total == count_chars(cs@.subrange(0, i as int), |c: char| is_terminal(c)),
            which == 2 ==> total == count_chars(cs@.subrange(0, i as int), |c: char| is_symbol(c)),
            total <= i,
        decreases cs.len() - i,
    {
        assert(cs@.subrange(0, i + 1).drop_last() =~= cs@.subrange(0, i as int));
        let c = cs[i];
        let hit = if which == 0 {
            !is_whitespace(c)
        } else if which == 1 {
            c == '.' || c == '!' || c == '?'
        } else if which == 2 {
            !is_alphanumeric(c) && !is_whitespace(c)
        } else {
            is_numeric(c)
        };
        if hit {
            total = total + 1;
        }
        i = i + 1;
    }
    assert(cs@.subrange(0, cs@.len() as int) =~= cs@);
    total
}

fn distinct_lowercase(words: &Vec<Vec<char>>) -> (r: usize)
    ensures
        r == distinct_count(lower_words(texts(words@))),
{
    let mut uniq: Vec<Vec<char>> = Vec::new();
    let mut i: usize = 0;
    while i < words.len()
        invariant
            i <= words@.len(),
            uniq@.len() == distinct_count(lower_words(texts(words@.subrange(0, i as int)))),
            uniq@.len() <= i,
            forall|x: Seq<char>|
                texts(uniq@).contains(x) <==> lower_words(texts(words@.subrange(0, i as int))).contains(
                    x,
                ),
        decreases words.len() - i,
    {
        let ghost pre = lower_words(texts(words@.subrange(0, i as int)));
        let ghost cur = lower_words(texts(words@.subrange(0, i + 1)));
        let ghost start = texts(uniq@);
        assert(forall|x: Seq<char>| start.contains(x) <==> pre.contains(x));
        assert(cur.drop_last() =~= pre);
        let low = lowercase(string_of(&words[i]).as_str());
        let lw = chars_of(low.as_str());
        assert(lw@ == cur.last());
        let mut found = false;
        let mut k: usize = 0;
        while k < uniq.len()
            invariant
                texts(uniq@) == start,
                forall|x: Seq<char>| start.contains(x) <==> pre.contains(x),
                k <= uniq@.len(),
                found == texts(uniq@).subrange(0, k as int).contains(lw@),
            decreases uniq.len() - k,
        {
            let ghost a = texts(uniq@).subrange(0, k as int);
            assert(texts(uniq@).subrange(0, k + 1) =~= a.push(uniq@[k as int]@));
            if chars_eq(&uniq[k], &lw) {
                found = true;
                assert(texts(uniq@).subrange(0, k + 1)[k as int] == lw@);
            }
            k = k + 1;
        }
        assert(texts(uniq@).subrange(0, uniq@.len() as int) =~= texts(uniq@));
        if !found {
            let ghost before = texts(uniq@);
            uniq.push(lw);
            assert(texts(uniq@) =~= before.push(lw@));
            assert forall|x: Seq<char>| texts(uniq@).contains(x) <==> cur.contains(x) by {
                if texts(uniq@).contains(x) && x != lw@ {
                    let j = choose|j: int| 0 <= j < texts(uniq@).len() && texts(uniq@)[j] == x;
                    assert(before[j] == x);
                    assert(before.contains(x));
                    assert(before.contains(x) <==> pre.contains(x));
                    let m = choose|m: int| 0 <= m < pre.len() && pre[m] == x;
                    assert(cur[m] == x);
                }
                if cur.contains(x) && x != lw@ {
                    let m = choose|m: int| 0 <= m < cur.len() && cur[m] == x;
                    assert(pre[m] == x);
                    assert(pre.contains(x));
                    assert(before.contains(x) <==> pre.contains(x));
                    let j = choose|j: int| 0 <= j < before.len() && before[j] == x;
                    assert(texts(uniq@)[j] == x);
                }
                if x == lw@ {
                    assert(texts(uniq@)[before.len() as int] == x);
                    assert(cur[i as int] == x);
                }
            }
        } else {
            assert forall|x: Seq<char>| texts(uniq@).contains(x) <==> cur.contains(x) by {
                if pre.contains(x) {
                    let m = choose|m: int| 0 <= m < pre.len() && pre[m] == x;
                    assert(cur[m] == x);
                }
                if cur.contains(x) && x != lw@ {
                    let m = choose|m: int| 0 <= m < cur.len() && cur[m] == x;
                    assert(pre[m] == x);
                }
            }
        }
        i = i + 1;
    }
    assert(words@.subrange(0, words@.len() as int) =~= words@);
    uniq.len()
}

fn line_counts(ls: &Vec<Vec<char>>) -> (r: usize)
    ensures
        r == blank_count(texts(ls@)),
{
    let mut total: usize = 0;
    let mut i: usize = 0;
    while i < ls.len()
        invariant
            i <= ls@.len(),
            total == blank_count(texts(ls@.subrange(0, i as int))),
            total <= i,
        decreases ls.len() - i,
    {
        assert(texts(ls@.subrange(0, i + 1)).drop_last() =~= texts(ls@.subrange(0, i as int)));
        if trim_end_chars(&ls[i]).len() == 0 {
            total = total + 1;
        }
        i = i + 1;
    }
    assert(ls@.subrange(0, ls@.len() as int) =~= ls@);
    total
}

fn word_measures(ws: &Vec<Vec<char>>) -> (r: (u128, u128))
    ensures
        r.0 == total_len(texts(ws@)),
        r.1 == capitalized_count(texts(ws@)),
        r.1 <= ws@.len(),
{
    let mut len: u128 = 0;
    let mut caps: u128 = 0;
    let mut i: usize = 0;
    while i < ws.len()
        invariant
            i <= ws@.len(),
            len == total_len(texts(ws@.subrange(0, i as int))),
            caps == capitalized_count(texts(ws@.subrange(0, i as int))),
            len <= i * 0x1_0000_0000_0000_0000,
            caps <= i,
        decreases ws.len() - i,
    {
        assert(texts(ws@.subrange(0, i + 1)).drop_last() =~= texts(ws@.subrange(0, i as int)));
        let w = &ws[i];
        let wl = w.len();
        assert(len + w@.len() <= (i + 1) * 0x1_0000_0000_0000_0000) by (nonlinear_arith)
            requires
                len <= i * 0x1_0000_0000_0000_0000,
                w@.len() <= usize::MAX,
        ;
        assert((i + 1) * 0x1_0000_0000_0000_0000 <= u128::MAX) by (nonlinear_arith)
            requires
                i < usize::MAX,
        ;
        len = len + w.len() as u128;
        if w.len() > 0 && is_uppercase(w[0]) {
            caps = caps + 1;
        }
        i = i + 1;
    }
    assert(ws@.subrange(0, ws@.len() as int) =~= ws@);
    (len, caps)
}

fn min_u128(a: u128, b: u128) -> (r: u128)
    ensures
        r == min_int(a as int, b as int),
{
    if a < b {
        a
    } else {
        b
    }
}

proof fn lemma_words_bound(s: Seq<char>)
    ensures
        words_of(s).len() <= s.len(),
        total_len(words_of(s)) <= s.len(),
    decreases s.len(),
{
    if s.len() > 0 {
        let p = s.drop_last();
        lemma_words_bound(p);
        let c = s.last();
        if !is_ws(c) && s.len() >= 2 && !is_ws(s[s.len() - 2]) {
            lemma_words_nonempty(p);
            let r = words_of(p);
            let u = r.update(r.len() - 1, r.last().push(c));
            assert(u.drop_last() =~= r.drop_last());
            assert(words_of(s) == u);
        } else if !is_ws(c) {
            let r = words_of(p);
            assert(r.push(seq![c]).drop_last() =~= r);
        }
    }
}

/// Counts, labels and complexity of a text, as `metadata_extraction`
/// reports them.
pub fn text_statistics(input: &str) -> (r: TextStatistics)
    ensures
        r.total_lines == lines_of(input@).len(),
        r.empty_lines == blank_count(lines_of(input@)),
        r.non_empty_lines == lines_of(input@).len() - blank_count(lines_of(input@)),
        r.total_words == words_of(input@).len(),
        r.unique_words == distinct_count(lower_words(words_of(input@))),
        r.total_characters == input@.len(),
        r.characters_no_spaces == count_chars(input@, |c: char| !is_ws(c)),
        r.reading_time_minutes == (words_of(input@).len() + 199) / 200,
        r.sentence_count == count_chars(input@, |c: char| is_terminal(c)),
        r.complexity_score == complexity_of(input@),
        r.has_numbers == (count_chars(input@, |c: char| numeric_of(c)) > 0),
        r.has_special_chars == (count_chars(input@, |c: char| is_symbol(c)) > 0),
        r.content_type@ == content_label(lower_of(input@)),
        r.language@ == language_label(lower_of(input@)),
{
    let cs = chars_of(input);
    let total_chars = cs.len();
    let ls = split_lines(&cs);
    assert(texts(ls@) =~= lines_of(cs@));
    let words = split_words(&cs);
    assert(texts(words@) =~= words_of(cs@));
    let blank = line_counts(&ls);
    proof {
        lemma_blank_bound(texts(ls@));
        lemma_words_bound(cs@);
        lemma_count_chars_bound(cs@, |c: char| is_terminal(c));
        lemma_count_chars_bound(cs@, |c: char| is_symbol(c));
    }
    let nw = words.len();
    let unique = distinct_lowercase(&words);
    let no_spaces = count_where(&cs, 0);
    let terminals = count_where(&cs, 1);
    let symbols = count_where(&cs, 2);
    let numerics = count_where(&cs, 3);
    let reading = nw / 200 + if nw % 200 == 0 { 0 } else { 1 };
    let score: u32 = if nw == 0 {
        0
    } else {
        let (len, caps) = word_measures(&words);
        let w = nw as u128;
        assert(len <= cs@.len());
        let a = min_u128(100 * len / w, 300);
        let b = min_u128(50 * w / (terminals as u128 + 1), 300);
        let c = min_u128(1000 * (symbols as u128) / w, 200);
        let d = min_u128(1000 * caps / w, 200);
        (a + b + c + d) as u32
    };
    TextStatistics {
        total_lines: ls.len(),
        non_empty_lines: ls.len() - blank,
        empty_lines: blank,
        total_words: nw,
        unique_words: unique,
        total_characters: total_chars,
        characters_no_spaces: no_spaces,
        reading_time_minutes: reading,
        sentence_count: terminals,
        complexity_score: score,
        has_numbers: numerics > 0,
        has_special_chars: symbols > 0,
        content_type: detect_content_type(input),
        language: detect_language(input),
    }
}

proof fn lemma_blank_bound(ls: Seq<Seq<char>>)
    ensures
        0 <= blank_count(ls) <= ls.len(),
    decreases ls.len(),
{
    if ls.len() > 0 {
        lemma_blank_bound(ls.drop_last());
    }
}

/// Analysing the empty text gives zero for every count and a complexity
/// of 0.
pub proof fn lemma_empty_text_statistics()
    ensures
        lines_of(Seq::<char>::empty()).len() == 0,
        words_of(Seq::<char>::empty()).len() == 0,
        blank_count(lines_of(Seq::<char>::empty())) == 0,
        distinct_count(lower_words(words_of(Seq::<char>::empty()))) == 0,
        count_chars(Seq::<char>::empty(), |c: char| !is_ws(c)) == 0,
        count_chars(Seq::<char>::empty(), |c: char| is_terminal(c)) == 0,
        (words_of(Seq::<char>::empty()).len() + 199) / 200 == 0,
        complexity_of(Seq::<char>::empty()) == 0,
{
    assert(lines_of(Seq::<char>::empty()).len() == 0);
    assert(lower_words(words_of(Seq::<char>::empty())) =~= Seq::<Seq<char>>::empty());
}

/// A labelled count line of a metadata report.
pub open spec fn count_line(label: Seq<char>, n: int) -> Seq<char> {
    label + ": "@ + nat_text(n as nat) + "\n"@
}

/// The report that metadata extraction writes for a text: one labelled
/// line per count, then the complexity (in thousandths), content type and
/// language.
pub open spec fn metadata_report(s: Seq<char>) -> Seq<char> {
    let ls = lines_of(s);
    let ws = words_of(s);
    count_line("total_lines"@, ls.len() as int) + count_line(
        "non_empty_lines"@,
        ls.len() - blank_count(ls),
    ) + count_line("empty_lines"@, blank_count(ls)) + count_line("total_words"@, ws.len() as int)
        + count_line("unique_words"@, distinct_count(lower_words(ws))) + count_line(
        "total_characters"@,
        s.len() as int,
    ) + count_line("characters_no_spaces"@, count_chars(s, |c: char| !is_ws(c))) + count_line(
        "reading_time_minutes"@,
        ((ws.len() + 199) / 200) as int,
    ) + count_line("sentence_count"@, count_chars(s, |c: char| is_terminal(c))) + count_line(
        "complexity_per_mille"@,
        complexity_of(s),
    ) + "has_numbers: "@ + bool_text(count_chars(s, |c: char| numeric_of(c)) > 0) + "\n"@
        + "has_special_chars: "@ + bool_text(count_chars(s, |c: char| is_symbol(c)) > 0) + "\n"@
        + "content_type: "@ + content_label(lower_of(s)) + "\n"@ + "language: "@ + language_label(
        lower_of(s),
    ) + "\n"@
}

/// `true` or `false`.
pub open spec fn bool_text(b: bool) -> Seq<char> {
    if b {
        "true"@
    } else {
        "false"@
    }
}

fn push_count(out: &mut Vec<char>, label: &str, n: usize)
    ensures
        final(out)@ == old(out)@ + count_line(label@, n as int),
{
    push_text(out, label);
    push_text(out, ": ");
    let d = decimal_chars(n as u64);
    let ghost base = out@;
    let mut i: usize = 0;
    while i < d.len()
        invariant
            i <= d@.len(),
            out@ == base + d@.subrange(0, i as int),
        decreases d.len() - i,
    {
        out.push(d[i]);
        i = i + 1;
        assert(out@ =~= base + d@.subrange(0, i as int));
    }
    assert(d@.subrange(0, d@.len() as int) =~= d@);
    push_text(out, "\n");
    assert(out@ =~= old(out)@ + count_line(label@, n as int));
}

/// The metadata report of a text.
pub fn metadata_report_text(input: &str) -> (r: String)
    ensures
        r@ == metadata_report(input@),
{
    let st = text_statistics(input);
    let mut out: Vec<char> = Vec::new();
    let ghost s = input@;
    push_count(&mut out, "total_lines", st.total_lines);
    push_count(&mut out, "non_empty_lines", st.non_empty_lines);
    push_count(&mut out, "empty_lines", st.empty_lines);
    push_count(&mut out, "total_words", st.total_words);
    push_count(&mut out, "unique_words", st.unique_words);
    push_count(&mut out, "total_characters", st.total_characters);
    push_count(&mut out, "characters_no_spaces", st.characters_no_spaces);
    push_count(&mut out, "reading_time_minutes", st.reading_time_minutes);
    push_count(&mut out, "sentence_count", st.sentence_count);
    push_count(&mut out, "complexity_per_mille", st.complexity_score as usize);
    push_text(&mut out, "has_numbers: ");
    push_text(&mut out, if st.has_numbers { "true" } else { "false" });
    push_text(&mut out, "\n");
    push_text(&mut out, "has_special_chars: ");
    push_text(&mut out, if st.has_special_chars { "true" } else { "false" });
    push_text(&mut out, "\n");
    push_text(&mut out, "content_type: ");
    push_text(&mut out, st.content_type.as_str());
    push_text(&mut out, "\n");
    push_text(&mut out, "language: ");
    push_text(&mut out, st.language.as_str());
    push_text(&mut out, "\n");
    assert(out@ =~= metadata_report(s));
    string_of(&out)
}

} // verus!
