//! The text transforms that cleaning tasks apply.

use vstd::prelude::*;
use crate::text::{chars_of, string_of, copy_range, split_lines, lines_of, trim_end, trim, trim_end_chars, trim_chars, join_with, join_all, texts, normalize_eol, normalize_eol_chars, is_ws};

verus! {

/// The lines that `text_cleanup` keeps: each line without trailing
/// whitespace, blank lines dropped.
pub open spec fn cleanup_lines(ls: Seq<Seq<char>>) -> Seq<Seq<char>>
    decreases ls.len(),
{
    if ls.len() == 0 {
        ls
    } else {
        let r = cleanup_lines(ls.drop_last());
        let t = trim_end(ls.last());
        if t.len() == 0 {
            r
        } else {
            r.push(t)
        }
    }
}

/// The lines that extraction keeps: each line trimmed on both sides, empty
/// lines dropped.
pub open spec fn trimmed_lines(ls: Seq<Seq<char>>) -> Seq<Seq<char>>
    decreases ls.len(),
{
    if ls.len() == 0 {
        ls
    } else {
        let r = trimmed_lines(ls.drop_last());
        let t = trim(ls.last());
        if t.len() == 0 {
            r
        } else {
            r.push(t)
        }
    }
}

/// A line holding only whitespace.
pub open spec fn is_blank(l: Seq<char>) -> bool {
    trim_end(l).len() == 0
}

/// Number of blank lines ending the sequence.
pub open spec fn blank_run(ls: Seq<Seq<char>>) -> nat
    decreases ls.len(),
{
    if ls.len() == 0 || !is_blank(ls.last()) {
        0
    } else {
        1 + blank_run(ls.drop_last())
    }
}

/// The lines with every run of blank lines cut to at most two.
pub open spec fn collapse_blank(ls: Seq<Seq<char>>) -> Seq<Seq<char>>
    decreases ls.len(),
{
    if ls.len() == 0 {
        ls
    } else {
        let r = collapse_blank(ls.drop_last());
        if is_blank(ls.last()) && blank_run(ls) > 2 {
            r
        } else {
            r.push(ls.last())
        }
    }
}

/// Trims each line (on both sides with `trim_both`, else at its end) and
/// keeps, in order, those that are not empty afterwards.
fn map_lines(ls: &Vec<Vec<char>>, trim_both: bool) -> (r: Vec<Vec<char>>)
    ensures
        trim_both ==> texts(r@) == trimmed_lines(texts(ls@)),
        !trim_both ==> texts(r@) == cleanup_lines(texts(ls@)),
{
    let mut out: Vec<Vec<char>> = Vec::new();
    let mut i: usize = 0;
    while i < ls.len()
        invariant
            i <= ls@.len(),
            trim_both ==> texts(out@) == trimmed_lines(texts(ls@.subrange(0, i as int))),
            !trim_both ==> texts(out@) == cleanup_lines(texts(ls@.subrange(0, i as int))),
        decreases ls.len() - i,
    {
        let ghost pre = texts(ls@.subrange(0, i as int));
        let ghost cur = texts(ls@.subrange(0, i + 1));
        assert(cur.drop_last() =~= pre);
        let t = if trim_both {
            trim_chars(&ls[i])
        } else {
            trim_end_chars(&ls[i])
        };
        if t.len() > 0 {
            let ghost before = out@;
            out.push(t);
            assert(texts(out@) =~= texts(before).push(t@));
        }
        i = i + 1;
    }
    assert(ls@.subrange(0, ls@.len() as int) =~= ls@);
    out
}

/// The result of `text_cleanup`: trailing whitespace removed from each
/// line, blank lines dropped, lines joined by line feeds.
pub open spec fn cleaned_text(s: Seq<char>) -> Seq<char> {
    join_with(cleanup_lines(lines_of(s)), '\n')
}

/// Applies `text_cleanup`.
pub fn clean_lines(input: &str) -> (r: String)
    ensures
        r@ == cleaned_text(input@),
{
    let cs = chars_of(input);
    let ls = split_lines(&cs);
    assert(texts(ls@) =~= lines_of(cs@));
    let kept = map_lines(&ls, false);
    string_of(&join_all(&kept, '\n'))
}

/// Text as extraction normalises it: line endings unified, each line
/// trimmed, empty lines dropped, the whole trimmed.
pub open spec fn extracted_text(s: Seq<char>) -> Seq<char> {
    trim(join_with(trimmed_lines(lines_of(normalize_eol(s))), '\n'))
}

/// The result of `format_conversion`: line endings unified, trailing
/// whitespace removed from each line, runs of blank lines cut to two.
pub open spec fn converted_text(s: Seq<char>) -> Seq<char> {
    let first = join_with(lines_of(normalize_eol(s)).map_values(|l: Seq<char>| trim_end(l)), '\n');
    join_with(collapse_blank(lines_of(first)), '\n')
}

/// Number of UTF-8 bytes that encode `c`.
pub open spec fn utf8_width(c: char) -> int {
    let n = c as u32;
    if n < 0x80 {
        1
    } else if n < 0x800 {
        2
    } else if n < 0x10000 {
        3
    } else {
        4
    }
}

/// Number of UTF-8 bytes that encode `s`.
pub open spec fn utf8_len(s: Seq<char>) -> int
    decreases s.len(),
{
    if s.len() == 0 {
        0
    } else {
        utf8_len(s.drop_last()) + utf8_width(s.last())
    }
}

/// A character outside ASCII that is not whitespace.
pub open spec fn is_special(c: char) -> bool {
    c as u32 >= 0x80 && !is_ws(c)
}

/// Number of characters of `s` satisfying `is_special`.
pub open spec fn special_count(s: Seq<char>) -> int
    decreases s.len(),
{
    if s.len() == 0 {
        0
    } else {
        special_count(s.drop_last()) + if is_special(s.last()) {
            1int
        } else {
            0int
        }
    }
}

/// What `format_conversion` reports.
pub struct FormatConversion {
    pub text: String,
    pub original_size: usize,
    pub converted_size: usize,
    pub utf8_valid: bool,
    pub special_chars: usize,
}

/// `n`, or the largest `usize` if `n` is larger.
pub open spec fn cap(n: int) -> int {
    if n <= usize::MAX as int {
        n
    } else {
        usize::MAX as int
    }
}

fn utf8_size(cs: &Vec<char>) -> (r: usize)
    ensures
        r == cap(utf8_len(cs@)),
{
    let mut total: usize = 0;
    let mut i: usize = 0;
    while i < cs.len()
        invariant
            i <= cs@.len(),
            total == cap(utf8_len(cs@.subrange(0, i as int))),
        decreases cs.len() - i,
    {
        assert(cs@.subrange(0, i + 1).drop_last() =~= cs@.subrange(0, i as int));
        let n = cs[i] as u32;
        let w: usize = if n < 0x80 {
            1
        } else if n < 0x800 {
            2
        } else if n < 0x10000 {
            3
        } else {
            4
        };
        if total > usize::MAX - w {
            total = usize::MAX;
        } else {
            total = total + w;
        }
        i = i + 1;
    }
    assert(cs@.subrange(0, cs@.len() as int) =~= cs@);
    total
}

fn count_special(cs: &Vec<char>) -> (r: usize)
    ensures
        r == special_count(cs@),
{
    let mut total: usize = 0;
    let mut i: usize = 0;
    while i < cs.len()
        invariant
            i <= cs@.len(),
            total == special_count(cs@.subrange(0, i as int)),
            total <= i,
        decreases cs.len() - i,
    {
        assert(cs@.subrange(0, i + 1).drop_last() =~= cs@.subrange(0, i as int));
        let c = cs[i];
        if c as u32 >= 0x80 && !crate::text::is_whitespace(c) {
            total = total + 1;
        }
        i = i + 1;
    }
    assert(cs@.subrange(0, cs@.len() as int) =~= cs@);
    total
}

fn collapse_exec(ls: &Vec<Vec<char>>) -> (r: Vec<Vec<char>>)
    ensures
        texts(r@) == collapse_blank(texts(ls@)),
{
    let mut out: Vec<Vec<char>> = Vec::new();
    let mut run: usize = 0;
    let mut i: usize = 0;
    while i < ls.len()
        invariant
            i <= ls@.len(),
            texts(out@) == collapse_blank(texts(ls@.subrange(0, i as int))),
            run == blank_run(texts(ls@.subrange(0, i as int))),
            run <= i,
        decreases ls.len() - i,
    {
        let ghost pre = texts(ls@.subrange(0, i as int));
        let ghost cur = texts(ls@.subrange(0, i + 1));
        assert(cur.drop_last() =~= pre);
        assert(cur.last() == ls@[i as int]@);
        let blank = trim_end_chars(&ls[i]).len() == 0;
        if blank {
            run = run + 1;
        } else {
            run = 0;
        }
        if !blank || run <= 2 {
            let ghost before = out@;
            let l = copy_range(&ls[i], 0, ls[i].len());
            assert(l@ =~= ls@[i as int]@);
            out.push(l);
            assert(texts(out@) =~= texts(before).push(l@));
        }
        i = i + 1;
    }
    assert(ls@.subrange(0, ls@.len() as int) =~= ls@);
    out
}

fn trim_end_each(ls: &Vec<Vec<char>>) -> (r: Vec<Vec<char>>)
    ensures
        texts(r@) == texts(ls@).map_values(|l: Seq<char>| trim_end(l)),
{
    let mut out: Vec<Vec<char>> = Vec::new();
    let mut i: usize = 0;
    while i < ls.len()
        invariant
            i <= ls@.len(),
            out@.len() == i,
            texts(out@) == texts(ls@.subrange(0, i as int)).map_values(|l: Seq<char>| trim_end(l)),
        decreases ls.len() - i,
    {
        let ghost before = out@;
        let t = trim_end_chars(&ls[i]);
        out.push(t);
        let ghost want = texts(ls@.subrange(0, i + 1)).map_values(|l: Seq<char>| trim_end(l));
        let ghost had = texts(ls@.subrange(0, i as int)).map_values(|l: Seq<char>| trim_end(l));
        assert forall|k: int| 0 <= k < i + 1 implies texts(out@)[k] == want[k] by {
            if k < i {
                assert(out@[k] == before[k]);
                assert(texts(out@)[k] == texts(before)[k]);
                assert(had[k] == want[k]);
            } else {
                assert(texts(out@)[k] == t@);
                assert(want[k] == trim_end(ls@[i as int]@));
            }
        }
        assert(texts(out@) =~= want);
        i = i + 1;
    }
    assert(ls@.subrange(0, ls@.len() as int) =~= ls@);
    out
}

/// Applies `format_conversion`, reporting sizes in UTF-8 bytes and the
/// number of non-ASCII, non-whitespace characters of the result.
pub fn normalize_format(input: &str) -> (r: FormatConversion)
    ensures
        r.text@ == converted_text(input@),
        r.original_size == cap(utf8_len(input@)),
        r.converted_size == cap(utf8_len(converted_text(input@))),
        r.utf8_valid,
        r.special_chars == special_count(converted_text(input@)),
{
    let cs = chars_of(input);
    let unified = normalize_eol_chars(&cs);
    let ls = split_lines(&unified);
    assert(texts(ls@) =~= lines_of(normalize_eol(input@)));
    let trimmed = trim_end_each(&ls);
    let first = join_all(&trimmed, '\n');
    let ls2 = split_lines(&first);
    assert(texts(ls2@) =~= lines_of(first@));
    let kept = collapse_exec(&ls2);
    let out = join_all(&kept, '\n');
    let converted_size = utf8_size(&out);
    let original_size = utf8_size(&cs);
    let special = count_special(&out);
    FormatConversion {
        text: string_of(&out),
        original_size,
        converted_size,
        utf8_valid: true,
        special_chars: special,
    }
}

} // verus!
