//! Splitting long text into bounded, optionally overlapping chunks.

use vstd::prelude::*;
use crate::text::{is_ws, is_whitespace, words_of, join_words, chars_of, string_of, copy_range, split_words, join_range};

verus! {

/// The word windows `[start, end)` that word chunking emits over `n` words,
/// beginning at `start`.
pub open spec fn word_windows(n: int, size: int, overlap: int, start: int) -> Seq<(int, int)>
    decreases n - start,
{
    if start >= n || size <= 0 || overlap < 0 {
        Seq::empty()
    } else {
        let end = if start + size < n {
            start + size
        } else {
            n
        };
        let nx = if end - overlap > start {
            end - overlap
        } else {
            start + 1
        };
        if end >= n {
            seq![(start, end)]
        } else {
            seq![(start, end)] + word_windows(n, size, overlap, nx)
        }
    }
}

/// The text of one word chunk: the words of the window joined by single spaces.
pub open spec fn window_text(words: Seq<Seq<char>>, w: (int, int)) -> Seq<char> {
    join_words(words.subrange(w.0, w.1))
}

/// Splits `text` into chunks of at most `chunk_size` words, consecutive
/// chunks sharing up to `overlap` words. A zero chunk size is rejected.
pub fn chunk_text(text: &str, chunk_size: usize, overlap: usize) -> (r: Result<Vec<String>, String>)
    ensures
        chunk_size == 0 <==> r is Err,
        r is Ok ==> {
            let words = words_of(text@);
            let ws = word_windows(words.len() as int, chunk_size as int, overlap as int, 0);
            &&& r->Ok_0@.len() == ws.len()
            &&& forall|i: int|
                0 <= i < ws.len() ==> #[trigger] r->Ok_0@[i]@ == window_text(words, ws[i])
        },
{
    if chunk_size == 0 {
        return Err(string_of(&chars_of("chunk size must be at least 1")));
    }
    let cs = chars_of(text);
    let words = split_words(&cs);
    let ghost wv = words@.map_values(|w: Vec<char>| w@);
    assert(wv =~= words_of(text@));
    let n = words.len();
    let mut chunks: Vec<String> = Vec::new();
    let mut start: usize = 0;
    let ghost done: Seq<(int, int)> = Seq::empty();
    loop
        invariant_except_break
            word_windows(n as int, chunk_size as int, overlap as int, 0) == done + word_windows(
                n as int,
                chunk_size as int,
                overlap as int,
                start as int,
            ),
        invariant
            n == words@.len(),
            wv == words@.map_values(|w: Vec<char>| w@),
            chunk_size >= 1,
            start <= n,
            chunks@.len() == done.len(),
            forall|i: int| 0 <= i < done.len() ==> #[trigger] chunks@[i]@ == window_text(wv, done[i]),
        ensures
            word_windows(n as int, chunk_size as int, overlap as int, 0) == done,
            chunks@.len() == done.len(),
            forall|i: int| 0 <= i < done.len() ==> #[trigger] chunks@[i]@ == window_text(wv, done[i]),
        decreases n - start,
    {
        if start >= n {
            assert(done + word_windows(n as int, chunk_size as int, overlap as int, start as int)
                =~= done);
            break ;
        }
        let end: usize = if chunk_size < n - start {
            start + chunk_size
        } else {
            n
        };
        let piece = join_range(&words, start, end);
        assert(words@.subrange(start as int, end as int).map_values(|w: Vec<char>| w@)
            =~= wv.subrange(start as int, end as int));
        let ghost w = (start as int, end as int);
        chunks.push(string_of(&piece));
        proof {
            done = done.push(w);
        }
        if end >= n {
            assert(word_windows(n as int, chunk_size as int, overlap as int, start as int) =~= seq![w]);
            break ;
        }
        let nxt: usize = if overlap < end - start {
            end - overlap
        } else {
            start + 1
        };
        assert(word_windows(n as int, chunk_size as int, overlap as int, start as int) =~= seq![w]
            + word_windows(n as int, chunk_size as int, overlap as int, nxt as int));
        start = nxt;
    }
    Ok(chunks)
}

/// Every word window is non-empty, holds at most `size` words, stays in
/// range, and the windows cover all `n` words without a gap.
pub proof fn lemma_word_windows(n: int, size: int, overlap: int, start: int)
    requires
        size >= 1,
        overlap >= 0,
        0 <= start < n,
    ensures
        ({
            let ws = word_windows(n, size, overlap, start);
            &&& ws.len() > 0
            &&& ws[0].0 == start
            &&& ws.last().1 == n
            &&& forall|i: int|
                0 <= i < ws.len() ==> start <= #[trigger] ws[i].0 < ws[i].1 <= n && ws[i].1
                    - ws[i].0 <= size
            &&& forall|i: int| 0 <= i < ws.len() - 1 ==> #[trigger] ws[i + 1].0 <= ws[i].1
        }),
    decreases n - start,
{
    let end = if start + size < n {
        start + size
    } else {
        n
    };
    if end < n {
        let nx = if end - overlap > start {
            end - overlap
        } else {
            start + 1
        };
        lemma_word_windows(n, size, overlap, nx);
        let rest = word_windows(n, size, overlap, nx);
        let ws = word_windows(n, size, overlap, start);
        assert(ws == seq![(start, end)] + rest);
        assert(ws[0] == (start, end));
        assert(ws[1] == rest[0]);
        assert forall|i: int| 0 <= i < ws.len() - 1 implies #[trigger] ws[i + 1].0 <= ws[i].1 by {
            if i > 0 {
                assert(ws[i] == rest[i - 1]);
                assert(ws[i + 1] == rest[i]);
                assert(rest[(i - 1) + 1].0 <= rest[i - 1].1);
            }
        }
        assert forall|i: int|
            0 <= i < ws.len() implies start <= #[trigger] ws[i].0 < ws[i].1 <= n && ws[i].1
                - ws[i].0 <= size by {
            if i > 0 {
                assert(ws[i] == rest[i - 1]);
            }
        }
    }
}

/// The last whitespace position in `s[lo..hi)`, if any.
pub open spec fn last_ws_before(s: Seq<char>, lo: int, hi: int) -> Option<int>
    decreases hi - lo,
{
    if hi <= lo {
        None
    } else if is_ws(s[hi - 1]) {
        Some(hi - 1)
    } else {
        last_ws_before(s, lo, hi - 1)
    }
}

proof fn lemma_last_ws_range(s: Seq<char>, lo: int, hi: int)
    ensures
        last_ws_before(s, lo, hi) matches Some(k) ==> lo <= k < hi && is_ws(s[k]),
    decreases hi - lo,
{
    if hi > lo && !is_ws(s[hi - 1]) {
        lemma_last_ws_range(s, lo, hi - 1);
    }
}

/// The character spans `[start, end)` that character chunking emits from
/// `start` on: at most `max` characters each, cut back to the last whitespace
/// of a window that ends inside the text; that whitespace is skipped.
pub open spec fn char_spans_from(s: Seq<char>, max: int, start: int) -> Seq<(int, int)>
    decreases s.len() - start,
{
    if start >= s.len() || max <= 0 {
        Seq::empty()
    } else {
        let end = if start + max < s.len() {
            start + max
        } else {
            s.len() as int
        };
        if end >= s.len() {
            seq![(start, end)]
        } else {
            match last_ws_before(s, start, end) {
                Some(k) => if start <= k && k < end {
                    seq![(start, k)] + char_spans_from(s, max, k + 1)
                } else {
                    Seq::empty()
                },
                None => seq![(start, end)] + char_spans_from(s, max, end),
            }
        }
    }
}

/// The character spans of `s` chunked at `max` characters.
pub open spec fn char_spans(s: Seq<char>, max: int) -> Seq<(int, int)> {
    if s.len() <= max {
        seq![(0, s.len() as int)]
    } else {
        char_spans_from(s, max, 0)
    }
}

/// Splits `content` into chunks of at most `max_chunk_size` characters,
/// preferring to end a chunk just before whitespace.
pub fn chunk_content(content: &str, max_chunk_size: usize) -> (r: Vec<String>)
    requires
        max_chunk_size >= 1,
    ensures
        r@.len() == char_spans(content@, max_chunk_size as int).len(),
        forall|i: int|
            0 <= i < r@.len() ==> #[trigger] r@[i]@ == content@.subrange(
                char_spans(content@, max_chunk_size as int)[i].0,
                char_spans(content@, max_chunk_size as int)[i].1,
            ),
{
    let cs = chars_of(content);
    let len = cs.len();
    let mut chunks: Vec<String> = Vec::new();
    if len <= max_chunk_size {
        chunks.push(string_of(&cs));
        assert(cs@.subrange(0, len as int) =~= cs@);
        return chunks;
    }
    let ghost s = cs@;
    let ghost done: Seq<(int, int)> = Seq::empty();
    let mut start: usize = 0;
    while start < len
        invariant
            s == cs@,
            s == content@,
            len == s.len(),
            max_chunk_size >= 1,
            start <= len,
            char_spans_from(s, max_chunk_size as int, 0) == done + char_spans_from(
                s,
                max_chunk_size as int,
                start as int,
            ),
            chunks@.len() == done.len(),
            forall|i: int|
                0 <= i < done.len() ==> #[trigger] chunks@[i]@ == s.subrange(done[i].0, done[i].1),
        decreases len - start,
    {
        let end: usize = if max_chunk_size < len - start {
            start + max_chunk_size
        } else {
            len
        };
        if end >= len {
            chunks.push(string_of(&copy_range(&cs, start, end)));
            proof {
                done = done.push((start as int, end as int));
            }
            start = end;
        } else {
            let mut j: usize = end;
            while j > start && !is_whitespace(cs[j - 1])
                invariant
                    start <= j <= end < len,
                    len == cs@.len(),
                    s == cs@,
                    last_ws_before(s, start as int, end as int) == last_ws_before(
                        s,
                        start as int,
                        j as int,
                    ),
                decreases j,
            {
                j = j - 1;
            }
            if j > start {
                let k = j - 1;
                chunks.push(string_of(&copy_range(&cs, start, k)));
                proof {
                    done = done.push((start as int, k as int));
                }
                assert(char_spans_from(s, max_chunk_size as int, start as int) =~= seq![
                    (start as int, k as int),
                ] + char_spans_from(s, max_chunk_size as int, k + 1));
                start = k + 1;
            } else {
                chunks.push(string_of(&copy_range(&cs, start, end)));
                proof {
                    done = done.push((start as int, end as int));
                }
                assert(char_spans_from(s, max_chunk_size as int, start as int) =~= seq![
                    (start as int, end as int),
                ] + char_spans_from(s, max_chunk_size as int, end as int));
                start = end;
            }
        }
    }
    assert(done =~= char_spans_from(s, max_chunk_size as int, 0));
    chunks
}

/// The shape of a span sequence that tiles `s[start..]`: each span holds at
/// most `max` characters, and consecutive spans either touch or are separated
/// by exactly one whitespace character.
pub open spec fn tiles_from(s: Seq<char>, max: int, start: int, sp: Seq<(int, int)>) -> bool {
    &&& sp.len() > 0
    &&& sp[0].0 == start
    &&& sp.last().1 == s.len()
    &&& forall|i: int|
        0 <= i < sp.len() ==> start <= #[trigger] sp[i].0 <= sp[i].1 <= s.len() && sp[i].1
            - sp[i].0 <= max
    &&& forall|i: int|
        0 <= i < sp.len() - 1 ==> #[trigger] sp[i + 1].0 == sp[i].1 || (sp[i + 1].0 == sp[i].1
            + 1 && is_ws(s[sp[i].1]))
}

proof fn lemma_char_spans_from(s: Seq<char>, max: int, start: int)
    requires
        max >= 1,
        0 <= start < s.len(),
    ensures
        tiles_from(s, max, start, char_spans_from(s, max, start)),
    decreases s.len() - start,
{
    let end = if start + max < s.len() {
        start + max
    } else {
        s.len() as int
    };
    let sp = char_spans_from(s, max, start);
    if end < s.len() {
        lemma_last_ws_range(s, start, end);
        let (first, nx) = match last_ws_before(s, start, end) {
            Some(k) => ((start, k), k + 1),
            None => ((start, end), end),
        };
        lemma_char_spans_from(s, max, nx);
        let rest = char_spans_from(s, max, nx);
        assert(sp == seq![first] + rest);
        assert(sp[0] == first);
        assert(sp[1] == rest[0]);
        assert forall|i: int|
            0 <= i < sp.len() - 1 implies #[trigger] sp[i + 1].0 == sp[i].1 || (sp[i + 1].0
                == sp[i].1 + 1 && is_ws(s[sp[i].1])) by {
            if i > 0 {
                assert(sp[i] == rest[i - 1]);
                assert(sp[i + 1] == rest[i]);
                assert(rest[(i - 1) + 1] == rest[i]);
            }
        }
        assert forall|i: int| 0 <= i < sp.len() implies start <= #[trigger] sp[i].0 <= sp[i].1
            <= s.len() && sp[i].1 - sp[i].0 <= max by {
            if i > 0 {
                assert(sp[i] == rest[i - 1]);
            }
        }
    }
}

/// Chunking loses nothing but the whitespace at which it cut: the spans
/// start at 0, end at the text's end, hold at most `max` characters each,
/// and consecutive spans touch or skip exactly one whitespace character.
pub proof fn lemma_chunks_tile_text(s: Seq<char>, max: int)
    requires
        max >= 1,
    ensures
        tiles_from(s, max, 0, char_spans(s, max)),
{
    if s.len() > max {
        lemma_char_spans_from(s, max, 0);
    }
}

} // verus!
