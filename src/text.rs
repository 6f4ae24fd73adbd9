//! Character-level text utilities shared by the pipeline.

use vstd::prelude::*;
use vstd::std_specs::iter::IteratorSpec;

verus! {

/// What `char::is_whitespace` accepts: the Unicode White_Space property.
pub open spec fn is_ws(c: char) -> bool {
    let n = c as u32;
    (0x09 <= n && n <= 0x0d) || n == 0x20 || n == 0x85 || n == 0xa0 || n == 0x1680 || (0x2000
        <= n && n <= 0x200a) || n == 0x2028 || n == 0x2029 || n == 0x202f || n == 0x205f || n
        == 0x3000
}

/// Executable form of [`is_ws`].
pub fn is_whitespace(c: char) -> (r: bool)
    ensures
        r == is_ws(c),
{
    let n = c as u32;
    (0x09 <= n && n <= 0x0d) || n == 0x20 || n == 0x85 || n == 0xa0 || n == 0x1680 || (0x2000
        <= n && n <= 0x200a) || n == 0x2028 || n == 0x2029 || n == 0x202f || n == 0x205f || n
        == 0x3000
}

/// The characters of `s`, in order.
pub fn chars_of(s: &str) -> (r: Vec<char>)
    ensures
        r@ == s@,
{
    broadcast use vstd::string::group_string_axioms;

    let mut it = s.chars();
    let mut out: Vec<char> = Vec::new();
    loop
        invariant
            out@ + it.remaining() == s@,
            it.decrease() is Some,
        ensures
            out@ == s@,
        decreases it.decrease()->0,
    {
        match it.next() {
            Some(c) => {
                out.push(c);
            },
            None => {
                assert(out@ =~= s@);
                break ;
            },
        }
    }
    out
}

/// Whether two character vectors are equal.
pub fn chars_eq(x: &Vec<char>, y: &Vec<char>) -> (r: bool)
    ensures
        r == (x@ == y@),
{
    if x.len() != y.len() {
        return false;
    }
    let mut i: usize = 0;
    while i < x.len()
        invariant
            x@.len() == y@.len(),
            i <= x@.len(),
            x@.subrange(0, i as int) == y@.subrange(0, i as int),
        decreases x.len() - i,
    {
        if x[i] != y[i] {
            assert(x@[i as int] != y@[i as int]);
            assert(x@ != y@);
            return false;
        }
        i = i + 1;
        assert(x@.subrange(0, i as int) =~= y@.subrange(0, i as int));
    }
    assert(x@ =~= x@.subrange(0, i as int));
    assert(y@ =~= y@.subrange(0, i as int));
    true
}

/// Whether two texts hold the same characters.
pub fn text_eq(a: &str, b: &str) -> (r: bool)
    ensures
        r == (a@ == b@),
{
    let x = chars_of(a);
    let y = chars_of(b);
    chars_eq(&x, &y)
}

/// What `str::to_lowercase` makes of a text; it depends on the characters
/// alone.
pub uninterp spec fn lower_of(s: Seq<char>) -> Seq<char>;

/// Relies on `str::to_lowercase`: the lowercase form depends on the
/// characters alone, and the empty text stays empty.
#[verifier::external_body]
pub fn lowercase(s: &str) -> (r: String)
    ensures
        r@ == lower_of(s@),
        s@.len() == 0 ==> r@.len() == 0,
{
    s.to_lowercase()
}

/// Relies on `FromIterator<char>` for `String`: the string holds exactly
/// these characters, in order.
#[verifier::external_body]
pub fn string_of(cs: &Vec<char>) -> (r: String)
    ensures
        r@ == cs@,
{
    cs.iter().collect()
}

/// The characters `v[lo..hi]` as a new vector.
pub fn copy_range(v: &Vec<char>, lo: usize, hi: usize) -> (r: Vec<char>)
    requires
        lo <= hi <= v@.len(),
    ensures
        r@ == v@.subrange(lo as int, hi as int),
{
    let mut out: Vec<char> = Vec::new();
    let mut i: usize = lo;
    while i < hi
        invariant
            lo <= i <= hi <= v@.len(),
            out@ == v@.subrange(lo as int, i as int),
        decreases hi - i,
    {
        out.push(v[i]);
        i = i + 1;
        assert(out@ =~= v@.subrange(lo as int, i as int));
    }
    out
}

/// The maximal runs of non-whitespace characters of `s`, in order
/// (what `str::split_whitespace` yields).
pub open spec fn words_of(s: Seq<char>) -> Seq<Seq<char>>
    decreases s.len(),
{
    if s.len() == 0 {
        Seq::empty()
    } else {
        let r = words_of(s.drop_last());
        let c = s.last();
        if is_ws(c) {
            r
        } else if s.len() >= 2 && !is_ws(s[s.len() - 2]) {
            r.update(r.len() - 1, r.last().push(c))
        } else {
            r.push(seq![c])
        }
    }
}

/// Non-empty text without whitespace has a non-empty last word.
pub proof fn lemma_words_nonempty(s: Seq<char>)
    requires
        s.len() > 0,
        !is_ws(s.last()),
    ensures
        words_of(s).len() > 0,
    decreases s.len(),
{
    if s.len() >= 2 && !is_ws(s[s.len() - 2]) {
        lemma_words_nonempty(s.drop_last());
    }
}

/// Splits `cs` at whitespace, dropping empty pieces.
pub fn split_words(cs: &Vec<char>) -> (r: Vec<Vec<char>>)
    ensures
        r@.len() == words_of(cs@).len(),
        forall|i: int| 0 <= i < r@.len() ==> #[trigger] r@[i]@ == words_of(cs@)[i],
{
    let mut out: Vec<Vec<char>> = Vec::new();
    let mut i: usize = 0;
    while i < cs.len()
        invariant
            i <= cs@.len(),
            out@.len() == words_of(cs@.subrange(0, i as int)).len(),
            forall|k: int|
                0 <= k < out@.len() ==> #[trigger] out@[k]@ == words_of(
                    cs@.subrange(0, i as int),
                )[k],
        decreases cs.len() - i,
    {
        let c = cs[i];
        let ghost pre = cs@.subrange(0, i as int);
        let ghost cur = cs@.subrange(0, i + 1);
        assert(cur.drop_last() =~= pre);
        if is_whitespace(c) {
        } else if i >= 1 && !is_whitespace(cs[i - 1]) {
            proof {
                lemma_words_nonempty(pre);
            }
            let last = out.len() - 1;
            let mut w = out.pop().unwrap();
            w.push(c);
            out.push(w);
            assert(out@[last as int]@ =~= words_of(cur)[last as int]);
        } else {
            let mut w: Vec<char> = Vec::new();
            w.push(c);
            out.push(w);
            assert(out@[out@.len() - 1]@ =~= words_of(cur)[out@.len() - 1]);
        }
        i = i + 1;
    }
    assert(cs@.subrange(0, cs@.len() as int) =~= cs@);
    out
}

/// The words joined with single spaces.
pub open spec fn join_words(ws: Seq<Seq<char>>) -> Seq<char>
    decreases ws.len(),
{
    if ws.len() == 0 {
        Seq::empty()
    } else if ws.len() == 1 {
        ws[0]
    } else {
        join_words(ws.drop_last()) + seq![' '] + ws.last()
    }
}

/// Joins `ws[lo..hi]` with single spaces.
pub fn join_range(ws: &Vec<Vec<char>>, lo: usize, hi: usize) -> (r: Vec<char>)
    requires
        lo <= hi <= ws@.len(),
    ensures
        r@ == join_words(ws@.subrange(lo as int, hi as int).map_values(|w: Vec<char>| w@)),
{
    let mut out: Vec<char> = Vec::new();
    let mut i: usize = lo;
    while i < hi
        invariant
            lo <= i <= hi <= ws@.len(),
            out@ == join_words(ws@.subrange(lo as int, i as int).map_values(|w: Vec<char>| w@)),
        decreases hi - i,
    {
        let ghost prev = ws@.subrange(lo as int, i as int).map_values(|w: Vec<char>| w@);
        let ghost next = ws@.subrange(lo as int, i + 1).map_values(|w: Vec<char>| w@);
        assert(next.drop_last() =~= prev);
        if i > lo {
            out.push(' ');
        }
        let w = &ws[i];
        let mut j: usize = 0;
        let ghost base = out@;
        while j < w.len()
            invariant
                j <= w@.len(),
                out@ == base + w@.subrange(0, j as int),
            decreases w.len() - j,
        {
            out.push(w[j]);
            j = j + 1;
            assert(out@ =~= base + w@.subrange(0, j as int));
        }
        assert(w@.subrange(0, w@.len() as int) =~= w@);
        i = i + 1;
        assert(out@ =~= join_words(next));
    }
    out
}

/// The pieces of `s` between occurrences of `sep` (one more piece than
/// there are separators).
pub open spec fn split_on(s: Seq<char>, sep: char) -> Seq<Seq<char>>
    decreases s.len(),
{
    if s.len() == 0 {
        seq![Seq::empty()]
    } else {
        let r = split_on(s.drop_last(), sep);
        if s.last() == sep {
            r.push(Seq::empty())
        } else {
            r.update(r.len() - 1, r.last().push(s.last()))
        }
    }
}

proof fn lemma_split_nonempty(s: Seq<char>, sep: char)
    ensures
        split_on(s, sep).len() >= 1,
    decreases s.len(),
{
    if s.len() > 0 {
        lemma_split_nonempty(s.drop_last(), sep);
    }
}

/// `l` without one trailing carriage return.
pub open spec fn strip_cr(l: Seq<char>) -> Seq<char> {
    if l.len() > 0 && l.last() == '\r' {
        l.drop_last()
    } else {
        l
    }
}

/// The lines of `s` as `str::lines` yields them: split at line feeds, a
/// carriage return before a line feed dropped, and no final empty line.
pub open spec fn lines_of(s: Seq<char>) -> Seq<Seq<char>> {
    let p = split_on(s, '\n');
    let n = if p.last().len() == 0 {
        p.len() - 1
    } else {
        p.len() as int
    };
    Seq::new(
        n as nat,
        |i: int|
            if i < p.len() - 1 {
                strip_cr(p[i])
            } else {
                p[i]
            },
    )
}

fn strip_cr_exec(l: Vec<char>) -> (r: Vec<char>)
    ensures
        r@ == strip_cr(l@),
{
    let mut l = l;
    if l.len() > 0 && l[l.len() - 1] == '\r' {
        l.pop();
    }
    l
}

/// Splits `cs` into lines as `str::lines` does.
pub fn split_lines(cs: &Vec<char>) -> (r: Vec<Vec<char>>)
    ensures
        r@.len() == lines_of(cs@).len(),
        forall|i: int| 0 <= i < r@.len() ==> #[trigger] r@[i]@ == lines_of(cs@)[i],
{
    let mut done: Vec<Vec<char>> = Vec::new();
    let mut cur: Vec<char> = Vec::new();
    let mut i: usize = 0;
    while i < cs.len()
        invariant
            i <= cs@.len(),
            split_on(cs@.subrange(0, i as int), '\n').len() == done@.len() + 1,
            forall|k: int|
                0 <= k < done@.len() ==> #[trigger] done@[k]@ == strip_cr(
                    split_on(cs@.subrange(0, i as int), '\n')[k],
                ),
            cur@ == split_on(cs@.subrange(0, i as int), '\n').last(),
        decreases cs.len() - i,
    {
        let ghost pre = cs@.subrange(0, i as int);
        let ghost nxt = cs@.subrange(0, i + 1);
        assert(nxt.drop_last() =~= pre);
        proof {
            lemma_split_nonempty(pre, '\n');
        }
        let c = cs[i];
        if c == '\n' {
            let line = strip_cr_exec(cur);
            done.push(line);
            cur = Vec::new();
            assert(cur@ =~= split_on(nxt, '\n').last());
        } else {
            cur.push(c);
            assert(forall|k: int| 0 <= k < done@.len() ==> split_on(nxt, '\n')[k] == split_on(pre, '\n')[k]);
        }
        i = i + 1;
    }
    assert(cs@.subrange(0, cs@.len() as int) =~= cs@);
    let ghost p = split_on(cs@, '\n');
    if cur.len() > 0 {
        done.push(cur);
    }
    assert(done@.len() == lines_of(cs@).len());
    assert forall|i: int| 0 <= i < done@.len() implies #[trigger] done@[i]@ == lines_of(cs@)[i] by {
    }
    done
}

/// `s` without trailing whitespace.
pub open spec fn trim_end(s: Seq<char>) -> Seq<char>
    decreases s.len(),
{
    if s.len() > 0 && is_ws(s.last()) {
        trim_end(s.drop_last())
    } else {
        s
    }
}

/// `s` without leading whitespace.
pub open spec fn trim_start(s: Seq<char>) -> Seq<char>
    decreases s.len(),
{
    if s.len() > 0 && is_ws(s[0]) {
        trim_start(s.drop_first())
    } else {
        s
    }
}

/// `s` without leading or trailing whitespace.
pub open spec fn trim(s: Seq<char>) -> Seq<char> {
    trim_start(trim_end(s))
}

/// `s` without trailing whitespace.
pub fn trim_end_chars(s: &Vec<char>) -> (r: Vec<char>)
    ensures
        r@ == trim_end(s@),
{
    let mut j: usize = s.len();
    assert(s@.subrange(0, s@.len() as int) =~= s@);
    while j > 0 && is_whitespace(s[j - 1])
        invariant
            j <= s@.len(),
            trim_end(s@) == trim_end(s@.subrange(0, j as int)),
        decreases j,
    {
        assert(s@.subrange(0, j as int).drop_last() =~= s@.subrange(0, j - 1));
        j = j - 1;
    }
    assert(s@.subrange(0, s@.len() as int) =~= s@);
    copy_range(s, 0, j)
}

/// `s` without leading whitespace.
pub fn trim_start_chars(s: &Vec<char>) -> (r: Vec<char>)
    ensures
        r@ == trim_start(s@),
{
    let mut j: usize = 0;
    assert(s@.subrange(0, s@.len() as int) =~= s@);
    while j < s.len() && is_whitespace(s[j])
        invariant
            j <= s@.len(),
            trim_start(s@) == trim_start(s@.subrange(j as int, s@.len() as int)),
        decreases s.len() - j,
    {
        assert(s@.subrange(j as int, s@.len() as int).drop_first() =~= s@.subrange(j + 1, s@.len() as int));
        j = j + 1;
    }
    copy_range(s, j, s.len())
}

/// `s` without leading or trailing whitespace.
pub fn trim_chars(s: &Vec<char>) -> (r: Vec<char>)
    ensures
        r@ == trim(s@),
{
    let e = trim_end_chars(s);
    trim_start_chars(&e)
}

/// The pieces joined with `sep` between consecutive ones.
pub open spec fn join_with(ws: Seq<Seq<char>>, sep: char) -> Seq<char>
    decreases ws.len(),
{
    if ws.len() == 0 {
        Seq::empty()
    } else if ws.len() == 1 {
        ws[0]
    } else {
        join_with(ws.drop_last(), sep) + seq![sep] + ws.last()
    }
}

/// The texts of a vector of character vectors.
pub open spec fn texts(v: Seq<Vec<char>>) -> Seq<Seq<char>> {
    v.map_values(|w: Vec<char>| w@)
}

/// Joins all pieces with `sep`.
pub fn join_all(ws: &Vec<Vec<char>>, sep: char) -> (r: Vec<char>)
    ensures
        r@ == join_with(texts(ws@), sep),
{
    let mut out: Vec<char> = Vec::new();
    let mut i: usize = 0;
    while i < ws.len()
        invariant
            i <= ws@.len(),
            out@ == join_with(texts(ws@.subrange(0, i as int)), sep),
        decreases ws.len() - i,
    {
        let ghost prev = texts(ws@.subrange(0, i as int));
        let ghost next = texts(ws@.subrange(0, i + 1));
        assert(next.drop_last() =~= prev);
        if i > 0 {
            out.push(sep);
        }
        let w = &ws[i];
        let mut j: usize = 0;
        let ghost base = out@;
        while j < w.len()
            invariant
                j <= w@.len(),
                out@ == base + w@.subrange(0, j as int),
            decreases w.len() - j,
        {
            out.push(w[j]);
            j = j + 1;
            assert(out@ =~= base + w@.subrange(0, j as int));
        }
        assert(w@.subrange(0, w@.len() as int) =~= w@);
        i = i + 1;
        assert(out@ =~= join_with(next, sep));
    }
    assert(ws@.subrange(0, ws@.len() as int) =~= ws@);
    out
}

/// Line endings normalised: a carriage return and line feed pair becomes a
/// line feed, and a lone carriage return becomes a line feed.
pub open spec fn normalize_eol(s: Seq<char>) -> Seq<char>
    decreases s.len(),
{
    if s.len() == 0 {
        s
    } else if s[0] == '\r' && s.len() > 1 && s[1] == '\n' {
        normalize_eol(s.drop_first())
    } else if s[0] == '\r' {
        seq!['\n'] + normalize_eol(s.drop_first())
    } else {
        seq![s[0]] + normalize_eol(s.drop_first())
    }
}

/// Normalises line endings to line feeds.
pub fn normalize_eol_chars(s: &Vec<char>) -> (r: Vec<char>)
    ensures
        r@ == normalize_eol(s@),
{
    let mut out: Vec<char> = Vec::new();
    let mut i: usize = 0;
    assert(s@.subrange(0, s@.len() as int) =~= s@);
    assert(out@ + normalize_eol(s@) =~= normalize_eol(s@));
    while i < s.len()
        invariant
            i <= s@.len(),
            normalize_eol(s@) == out@ + normalize_eol(s@.subrange(i as int, s@.len() as int)),
        decreases s.len() - i,
    {
        let ghost rest = s@.subrange(i as int, s@.len() as int);
        assert(rest.drop_first() =~= s@.subrange(i + 1, s@.len() as int));
        let c = s[i];
        if c == '\r' && i + 1 < s.len() && s[i + 1] == '\n' {
        } else if c == '\r' {
            let ghost before = out@;
            out.push('\n');
            assert(out@ + normalize_eol(rest.drop_first()) =~= before + (seq!['\n'] + normalize_eol(rest.drop_first())));
        } else {
            let ghost before = out@;
            out.push(c);
            assert(out@ + normalize_eol(rest.drop_first()) =~= before + (seq![c] + normalize_eol(rest.drop_first())));
        }
        i = i + 1;
    }
    assert(s@.subrange(i as int, s@.len() as int) =~= Seq::<char>::empty());
    assert(out@ + Seq::<char>::empty() =~= out@);
    out
}

/// Decimal digits of a natural number, without leading zeros.
pub open spec fn nat_text(n: nat) -> Seq<char>
    decreases n,
{
    if n < 10 {
        seq![(('0' as u8) + (n as u8)) as char]
    } else {
        nat_text(n / 10).push((('0' as u8) + ((n % 10) as u8)) as char)
    }
}

/// An integer in decimal, with a leading `-` when negative.
pub open spec fn int_text(n: int) -> Seq<char> {
    if n < 0 {
        seq!['-'] + nat_text((-n) as nat)
    } else {
        nat_text(n as nat)
    }
}

/// The decimal digits of `n`, without leading zeros.
pub fn decimal_chars(n: u64) -> (r: Vec<char>)
    ensures
        r@ == nat_text(n as nat),
    decreases n,
{
    if n < 10 {
        let d = (48u8 + n as u8) as char;
        let mut v: Vec<char> = Vec::new();
        v.push(d);
        assert(v@ =~= nat_text(n as nat));
        v
    } else {
        let mut v = decimal_chars(n / 10);
        let d = (48u8 + (n % 10) as u8) as char;
        v.push(d);
        v
    }
}

/// An integer in decimal: an optional minus sign, then the digits without
/// leading zeros.
pub fn i64_text(n: i64) -> (r: String)
    ensures
        r@ == int_text(n as int),
{
    if n < 0 {
        let m = (-(n as i128)) as u64;
        let digits = decimal_chars(m);
        let mut v: Vec<char> = Vec::new();
        v.push('-');
        let mut i: usize = 0;
        while i < digits.len()
            invariant
                i <= digits@.len(),
                v@ == seq!['-'] + digits@.subrange(0, i as int),
            decreases digits.len() - i,
        {
            v.push(digits[i]);
            i = i + 1;
            assert(v@ =~= seq!['-'] + digits@.subrange(0, i as int));
        }
        assert(digits@.subrange(0, digits@.len() as int) =~= digits@);
        string_of(&v)
    } else {
        string_of(&decimal_chars(n as u64))
    }
}

/// Appends the characters of `s`.
pub fn push_text(out: &mut Vec<char>, s: &str)
    ensures
        final(out)@ == old(out)@ + s@,
{
    let cs = chars_of(s);
    let mut i: usize = 0;
    let ghost base = out@;
    while i < cs.len()
        invariant
            i <= cs@.len(),
            out@ == base + cs@.subrange(0, i as int),
        decreases cs.len() - i,
    {
        out.push(cs[i]);
        i = i + 1;
        assert(out@ =~= base + cs@.subrange(0, i as int));
    }
    assert(cs@.subrange(0, cs@.len() as int) =~= cs@);
}

} // verus!
