//! Content extraction: normalising extracted text and reading light
//! structural metadata from it.

use vstd::prelude::*;
use crate::text::{lower_of, chars_of, string_of, split_lines, lines_of, trim, trim_chars, join_all, texts, normalize_eol, normalize_eol_chars, split_words, words_of};
use crate::analysis::{has_sub, contains_text, occurs_at_exec, alnum_of};
use crate::ingestion::{starts_with, starts_with_exec};
use crate::transforms::{trimmed_lines, extracted_text};

verus! {

/// Structural metadata of an extracted document.
pub struct ContentMetadata {
    pub title: Option<String>,
    pub author: Option<String>,
    pub created_date: Option<String>,
    pub modified_date: Option<String>,
    pub page_count: Option<u32>,
    pub word_count: Option<u32>,
    pub language: Option<String>,
    pub subject: Option<String>,
    pub keywords: Vec<String>,
    pub file_size: u64,
    pub mime_type: String,
}

/// A table found in a document.
pub struct TableData {
    pub id: String,
    pub title: Option<String>,
    pub rows: Vec<Vec<String>>,
    pub headers: Option<Vec<String>>,
}

/// An image found in a document.
pub struct ImageData {
    pub id: String,
    pub alt_text: Option<String>,
    pub caption: Option<String>,
    pub file_path: Option<String>,
    pub width: Option<u32>,
    pub height: Option<u32>,
}

/// Text and metadata extracted from one file.
pub struct ProcessedContent {
    pub text: String,
    pub metadata: ContentMetadata,
    pub tables: Vec<TableData>,
    pub images: Vec<ImageData>,
}

/// How a file's text is obtained, by its MIME type.
#[derive(Debug, Clone, Copy, PartialEq, Eq, Structural)]
pub enum ExtractionKind {
    PlainText,
    Pdf,
    Docx,
    Spreadsheet,
    Presentation,
    Html,
    Json,
}

/// The extraction route for a MIME type; anything unknown is read as plain
/// text.
pub open spec fn kind_for(m: Seq<char>) -> ExtractionKind {
    if starts_with(m, "text/"@) && m != "text/html"@ {
        ExtractionKind::PlainText
    } else if m == "application/pdf"@ {
        ExtractionKind::Pdf
    } else if m == "application/vnd.openxmlformats-officedocument.wordprocessingml.document"@ {
        ExtractionKind::Docx
    } else if m == "application/vnd.openxmlformats-officedocument.spreadsheetml.sheet"@ || m
        == "application/vnd.ms-excel"@ {
        ExtractionKind::Spreadsheet
    } else if m == "application/vnd.openxmlformats-officedocument.presentationml.presentation"@ {
        ExtractionKind::Presentation
    } else if m == "text/html"@ || m == "application/xhtml+xml"@ {
        ExtractionKind::Html
    } else if m == "application/json"@ {
        ExtractionKind::Json
    } else {
        ExtractionKind::PlainText
    }
}

/// Extracts text and metadata from files.
pub struct FileProcessor;

/// The first of the first `n` lines that names an author, trimmed.
pub open spec fn byline(ls: Seq<Seq<char>>, n: int) -> Option<Seq<char>>
    decreases n,
{
    if n <= 0 {
        None
    } else {
        match byline(ls, n - 1) {
            Some(a) => Some(a),
            None => if n - 1 < ls.len() && (has_sub(ls[n - 1], "@author"@) || has_sub(
                ls[n - 1],
                "Author:"@,
            ) || has_sub(ls[n - 1], "By:"@)) {
                Some(trim(ls[n - 1]))
            } else {
                None
            },
        }
    }
}

proof fn lemma_byline_stays(ls: Seq<Seq<char>>, i: int, k: int)
    requires
        0 <= i <= k,
        byline(ls, i) is Some,
    ensures
        byline(ls, k) == byline(ls, i),
    decreases k - i,
{
    if k > i {
        lemma_byline_stays(ls, i, k - 1);
    }
}

proof fn lemma_byline_beyond(ls: Seq<Seq<char>>, n: int, k: int)
    requires
        0 <= n <= k,
        n >= ls.len() || n == k,
    ensures
        byline(ls, k) == byline(ls, n),
    decreases k - n,
{
    if k > n {
        lemma_byline_beyond(ls, n, k - 1);
    }
}

pub open spec fn opt_text(o: Option<String>) -> Option<Seq<char>> {
    match o {
        Some(s) => Some(s@),
        None => None,
    }
}

impl FileProcessor {
    /// The extraction route for a MIME type.
    pub fn extraction_kind(mime_type: &str) -> (r: ExtractionKind)
        ensures
            r == kind_for(mime_type@),
    {
        let m = chars_of(mime_type);
        let is_text = starts_with_exec(&m, "text/");
        let eq = |s: &str| -> (r: bool)
            ensures
                r == (mime_type@ == s@),
            { crate::text::text_eq(mime_type, s) };
        if is_text && !eq("text/html") {
            ExtractionKind::PlainText
        } else if eq("application/pdf") {
            ExtractionKind::Pdf
        } else if eq("application/vnd.openxmlformats-officedocument.wordprocessingml.document") {
            ExtractionKind::Docx
        } else if eq("application/vnd.openxmlformats-officedocument.spreadsheetml.sheet") || eq(
            "application/vnd.ms-excel",
        ) {
            ExtractionKind::Spreadsheet
        } else if eq("application/vnd.openxmlformats-officedocument.presentationml.presentation") {
            ExtractionKind::Presentation
        } else if eq("text/html") || eq("application/xhtml+xml") {
            ExtractionKind::Html
        } else if eq("application/json") {
            ExtractionKind::Json
        } else {
            ExtractionKind::PlainText
        }
    }

    /// Normalises extracted text: unified line endings, each line
    /// trimmed, empty lines dropped, the whole trimmed.
    pub fn clean_text(text: &str) -> (r: String)
        ensures
            r@ == extracted_text(text@),
    {
        let cs = chars_of(text);
        let unified = normalize_eol_chars(&cs);
        let ls = split_lines(&unified);
        assert(texts(ls@) =~= lines_of(normalize_eol(text@)));
        let mut kept: Vec<Vec<char>> = Vec::new();
        let mut i: usize = 0;
        while i < ls.len()
            invariant
                i <= ls@.len(),
                texts(kept@) == trimmed_lines(texts(ls@.subrange(0, i as int))),
            decreases ls.len() - i,
        {
            assert(texts(ls@.subrange(0, i + 1)).drop_last() =~= texts(ls@.subrange(0, i as int)));
            let t = trim_chars(&ls[i]);
            if t.len() > 0 {
                let ghost before = kept@;
                kept.push(t);
                assert(texts(kept@) =~= texts(before).push(t@));
            }
            i = i + 1;
        }
        assert(ls@.subrange(0, ls@.len() as int) =~= ls@);
        let joined = join_all(&kept, '\n');
        string_of(&trim_chars(&joined))
    }

    /// Reads a title (the first line, when it has between 11 and 99
    /// characters), an author (the first of the first ten lines that names
    /// one) and keywords (up to ten, in increasing order, of the words that
    /// occur more than twice) from a text.
    pub fn extract_text_metadata(text: &str, metadata: &mut ContentMetadata)
        ensures
            ({
                let ls = lines_of(text@);
                &&& opt_text(final(metadata).title) == if ls.len() > 0 && 10 < ls[0].len() < 100 {
                    Some(trim(ls[0]))
                } else {
                    opt_text(old(metadata).title)
                }
                &&& opt_text(final(metadata).author) == match byline(ls, 10) {
                    Some(a) => Some(a),
                    None => opt_text(old(metadata).author),
                }
            }),
            final(metadata).page_count == old(metadata).page_count,
            final(metadata).word_count == old(metadata).word_count,
            opt_text(final(metadata).created_date) == opt_text(old(metadata).created_date),
            opt_text(final(metadata).modified_date) == opt_text(old(metadata).modified_date),
            opt_text(final(metadata).language) == opt_text(old(metadata).language),
            opt_text(final(metadata).subject) == opt_text(old(metadata).subject),
            final(metadata).mime_type@ == old(metadata).mime_type@,
            is_keyword_list(
                keyword_forms(words_of(text@)),
                final(metadata).keywords@.map_values(|k: String| k@),
            ),
            final(metadata).file_size == old(metadata).file_size,
    {
        let cs = chars_of(text);
        let ls = split_lines(&cs);
        let ghost lv = lines_of(text@);
        assert(texts(ls@) =~= lv);
        if ls.len() > 0 && 10 < ls[0].len() && ls[0].len() < 100 {
            metadata.title = Some(string_of(&trim_chars(&ls[0])));
        }
        let limit: usize = if ls.len() < 10 {
            ls.len()
        } else {
            10
        };
        let mut found: Option<String> = None;
        let mut i: usize = 0;
        while i < limit && found.is_none()
            invariant
                limit <= ls@.len(),
                limit <= 10,
                i <= limit,
                texts(ls@) == lv,
                opt_text(found) == byline(lv, i as int),
                found is Some ==> forall|k: int| i <= k <= 10 ==> byline(lv, k) == opt_text(found),
            decreases limit - i,
        {
            assert(ls@[i as int]@ == lv[i as int]);
            if contains_text(&ls[i], "@author") || contains_text(&ls[i], "Author:") || contains_text(
                &ls[i],
                "By:",
            ) {
                found = Some(string_of(&trim_chars(&ls[i])));
                assert forall|k: int| i + 1 <= k <= 10 implies byline(lv, k) == opt_text(found) by {
                    lemma_byline_stays(lv, i + 1, k);
                }
            }
            i = i + 1;
        }
        proof {
            if found is None {
                lemma_byline_beyond(lv, limit as int, 10);
            }
        }
        match found {
            Some(a) => {
                metadata.author = Some(a);
            },
            None => {},
        }
        let words = split_words(&cs);
        assert(texts(words@) =~= words_of(text@));
        let kw = select_keywords(&words);
        let mut keywords: Vec<String> = Vec::new();
        let mut j: usize = 0;
        while j < kw.len()
            invariant
                j <= kw@.len(),
                keywords@.len() == j,
                keywords@.map_values(|k: String| k@) == texts(kw@).subrange(0, j as int),
            decreases kw.len() - j,
        {
            let ghost before = keywords@;
            let one = string_of(&kw[j]);
            keywords.push(one);
            let ghost now_v = keywords@.map_values(|k: String| k@);
            let ghost want = texts(kw@).subrange(0, j + 1);
            assert forall|m: int| 0 <= m < j + 1 implies #[trigger] now_v[m] == want[m] by {
                if m < j {
                    assert(keywords@[m] == before[m]);
                    assert(before.map_values(|k: String| k@)[m] == texts(kw@).subrange(0, j as int)[m]);
                }
            }
            j = j + 1;
            assert(keywords@.map_values(|k: String| k@) =~= texts(kw@).subrange(0, j as int));
        }
        assert(texts(kw@).subrange(0, kw@.len() as int) =~= texts(kw@));
        metadata.keywords = keywords;
    }

    /// PDF page counts are not read; one page is recorded.
    pub fn extract_pdf_metadata(metadata: &mut ContentMetadata)
        ensures
            final(metadata).page_count == Some(1u32),
    {
        metadata.page_count = Some(1);
    }

    /// DOCX page counts are not read; one page is recorded.
    pub fn extract_docx_metadata(metadata: &mut ContentMetadata)
        ensures
            final(metadata).page_count == Some(1u32),
    {
        metadata.page_count = Some(1);
    }

    /// Spreadsheet page counts are not read; one page is recorded.
    pub fn extract_excel_metadata(metadata: &mut ContentMetadata)
        ensures
            final(metadata).page_count == Some(1u32),
    {
        metadata.page_count = Some(1);
    }

    /// Presentation slide counts are not read; one page is recorded.
    pub fn extract_pptx_metadata(metadata: &mut ContentMetadata)
        ensures
            final(metadata).page_count == Some(1u32),
    {
        metadata.page_count = Some(1);
    }

    /// The word count of a text, saturating at the largest `u32`.
    pub fn word_count(text: &str) -> (r: u32)
        ensures
            r as int == if words_of(text@).len() <= u32::MAX as int {
                words_of(text@).len() as int
            } else {
                u32::MAX as int
            },
    {
        let cs = chars_of(text);
        let ws = split_words(&cs);
        if ws.len() as u64 <= u32::MAX as u64 {
            ws.len() as u32
        } else {
            u32::MAX
        }
    }
}

/// The texts of the `<w:t ...>...</w:t>` runs of a DOCX document body, in
/// order; they depend on the XML text alone.
pub uninterp spec fn docx_runs_of(xml: Seq<char>) -> Seq<Seq<char>>;

/// Relies on `regex::Regex::captures_iter` with the pattern
/// `<w:t[^>]*>([^<]*)</w:t>`: the first group of each match, in order.
#[verifier::external_body]
fn docx_runs(xml: &str) -> (r: Vec<String>)
    ensures
        r@.map_values(|s: String| s@) == docx_runs_of(xml@),
{
    let re = regex::Regex::new(r"<w:t[^>]*>([^<]*)</w:t>").unwrap();
    re.captures_iter(xml).map(|c| c[1].to_string()).collect()
}

/// The texts between a `>` and the next `<` of an XML document (runs of
/// at least one character), in order; they depend on the XML text alone.
pub uninterp spec fn xml_texts_of(xml: Seq<char>) -> Seq<Seq<char>>;

/// Relies on `regex::Regex::captures_iter` with the pattern `>([^<]+)<`:
/// the first group of each match, in order.
#[verifier::external_body]
fn xml_texts(xml: &str) -> (r: Vec<String>)
    ensures
        r@.map_values(|s: String| s@) == xml_texts_of(xml@),
{
    let re = regex::Regex::new(r">([^<]+)<").unwrap();
    re.captures_iter(xml).map(|c| c[1].to_string()).collect()
}

/// Each piece followed by one space, all concatenated.
pub open spec fn spaced(ws: Seq<Seq<char>>) -> Seq<char>
    decreases ws.len(),
{
    if ws.len() == 0 {
        Seq::empty()
    } else {
        spaced(ws.drop_last()) + ws.last() + seq![' ']
    }
}

/// The trimmed pieces that are not empty.
pub open spec fn trimmed_nonempty(ws: Seq<Seq<char>>) -> Seq<Seq<char>>
    decreases ws.len(),
{
    if ws.len() == 0 {
        ws
    } else {
        let r = trimmed_nonempty(ws.drop_last());
        let t = trim(ws.last());
        if t.len() > 0 {
            r.push(t)
        } else {
            r
        }
    }
}

/// Joins pieces, each followed by one space; with `trim_each`, pieces are
/// trimmed first and those left empty are skipped.
pub fn join_spaced(ws: &Vec<String>, trim_each: bool) -> (r: String)
    ensures
        !trim_each ==> r@ == spaced(ws@.map_values(|s: String| s@)),
        trim_each ==> r@ == spaced(trimmed_nonempty(ws@.map_values(|s: String| s@))),
{
    let ghost all = ws@.map_values(|s: String| s@);
    let mut out: Vec<char> = Vec::new();
    let mut i: usize = 0;
    while i < ws.len()
        invariant
            i <= ws@.len(),
            all == ws@.map_values(|s: String| s@),
            !trim_each ==> out@ == spaced(all.subrange(0, i as int)),
            trim_each ==> out@ == spaced(trimmed_nonempty(all.subrange(0, i as int))),
        decreases ws.len() - i,
    {
        let ghost pre = all.subrange(0, i as int);
        let ghost cur = all.subrange(0, i + 1);
        assert(cur.drop_last() =~= pre);
        let cs = chars_of(ws[i].as_str());
        let piece = if trim_each {
            trim_chars(&cs)
        } else {
            cs
        };
        if !trim_each || piece.len() > 0 {
            let ghost base = out@;
            let mut j: usize = 0;
            while j < piece.len()
                invariant
                    j <= piece@.len(),
                    out@ == base + piece@.subrange(0, j as int),
                decreases piece.len() - j,
            {
                out.push(piece[j]);
                j = j + 1;
                assert(out@ =~= base + piece@.subrange(0, j as int));
            }
            out.push(' ');
            assert(piece@.subrange(0, piece@.len() as int) =~= piece@);
            proof {
                if trim_each {
                    assert(trimmed_nonempty(cur) == trimmed_nonempty(pre).push(piece@));
                    assert(trimmed_nonempty(pre).push(piece@).drop_last() =~= trimmed_nonempty(pre));
                    assert(out@ =~= spaced(trimmed_nonempty(cur)));
                } else {
                    assert(out@ =~= spaced(cur));
                }
            }
        }
        i = i + 1;
    }
    assert(all.subrange(0, ws@.len() as int) =~= all);
    string_of(&out)
}

/// The placeholder for a PDF without extractable text.
pub open spec fn no_pdf_text() -> Seq<char> {
    "PDF file processed - no extractable text found. This may be a scanned document that requires OCR."@
}

impl FileProcessor {
    /// The text of a DOCX body: each `<w:t>` run followed by a space.
    pub fn extract_text_from_docx_xml(xml: &str) -> (r: String)
        ensures
            r@ == spaced(docx_runs_of(xml@)),
    {
        let runs = docx_runs(xml);
        join_spaced(&runs, false)
    }

    /// The text of a slide: each non-blank text between tags, trimmed and
    /// followed by a space.
    pub fn extract_text_from_xml(xml: &str) -> (r: String)
        ensures
            r@ == spaced(trimmed_nonempty(xml_texts_of(xml@))),
    {
        let parts = xml_texts(xml);
        join_spaced(&parts, true)
    }

    /// The text kept for a PDF, given what extraction produced (nothing when
    /// it failed, panicked or timed out): the cleaned text, or a
    /// placeholder when there was none, it was blank, or it reports a
    /// failed extraction.
    pub fn pdf_text(extracted: Option<&str>) -> (r: String)
        ensures
            r@ == match extracted {
                Some(t) => if trim(t@).len() == 0 || has_sub(t@, "extraction failed"@) {
                    no_pdf_text()
                } else {
                    extracted_text(t@)
                },
                None => no_pdf_text(),
            },
    {
        let placeholder = "PDF file processed - no extractable text found. This may be a scanned document that requires OCR.";
        match extracted {
            Some(t) => {
                let cs = chars_of(t);
                if trim_chars(&cs).len() == 0 || contains_text(&cs, "extraction failed") {
                    string_of(&chars_of(placeholder))
                } else {
                    FileProcessor::clean_text(t)
                }
            },
            None => string_of(&chars_of(placeholder)),
        }
    }
}

/// `s[i..]` with every occurrence of `p` replaced by `r`, scanning left to
/// right without overlap (what `str::replace` does for a non-empty `p`).
pub open spec fn replaced_from(s: Seq<char>, p: Seq<char>, r: Seq<char>, i: int) -> Seq<char>
    decreases s.len() - i,
{
    if i < 0 || i >= s.len() || p.len() == 0 {
        Seq::empty()
    } else if i + p.len() <= s.len() && s.subrange(i, i + p.len()) == p {
        r + replaced_from(s, p, r, i + p.len())
    } else {
        seq![s[i]] + replaced_from(s, p, r, i + 1)
    }
}

/// Replaces every occurrence of the non-empty `pat` in `s` by `rep`.
pub fn replace_all(s: &Vec<char>, pat: &str, rep: &str) -> (r: Vec<char>)
    requires
        pat@.len() > 0,
    ensures
        r@ == replaced_from(s@, pat@, rep@, 0),
{
    let p = chars_of(pat);
    let rc = chars_of(rep);
    let mut out: Vec<char> = Vec::new();
    let mut i: usize = 0;
    let n = s.len();
    assert(out@ + replaced_from(s@, pat@, rep@, 0) =~= replaced_from(s@, pat@, rep@, 0));
    while i < n
        invariant
            n == s@.len(),
            p@ == pat@,
            rc@ == rep@,
            p@.len() > 0,
            i <= n,
            out@ + replaced_from(s@, pat@, rep@, i as int) == replaced_from(s@, pat@, rep@, 0),
        decreases n - i,
    {
        let hit = occurs_at_exec(s, &p, i);
        let ghost before = out@;
        if hit {
            let mut k: usize = 0;
            while k < rc.len()
                invariant
                    k <= rc@.len(),
                    out@ == before + rc@.subrange(0, k as int),
                decreases rc.len() - k,
            {
                out.push(rc[k]);
                k = k + 1;
                assert(out@ =~= before + rc@.subrange(0, k as int));
            }
            assert(rc@.subrange(0, rc@.len() as int) =~= rc@);
            assert(out@ + replaced_from(s@, pat@, rep@, i + p@.len()) =~= before + replaced_from(s@, pat@, rep@, i as int));
            i = i + p.len();
        } else {
            out.push(s[i]);
            assert(out@ + replaced_from(s@, pat@, rep@, i + 1) =~= before + replaced_from(s@, pat@, rep@, i as int));
            i = i + 1;
        }
    }
    assert(out@ + replaced_from(s@, pat@, rep@, i as int) =~= out@);
    out
}

/// `s[i..]` with everything from a `<` through the next `>` removed; a `<`
/// without a closing `>` removes the rest.
pub open spec fn untagged_from(s: Seq<char>, i: int, in_tag: bool) -> Seq<char>
    decreases s.len() - i,
{
    if i < 0 || i >= s.len() {
        Seq::empty()
    } else if s[i] == '<' {
        untagged_from(s, i + 1, true)
    } else if s[i] == '>' {
        untagged_from(s, i + 1, false)
    } else if in_tag {
        untagged_from(s, i + 1, true)
    } else {
        seq![s[i]] + untagged_from(s, i + 1, false)
    }
}

fn strip_tags(s: &Vec<char>) -> (r: Vec<char>)
    ensures
        r@ == untagged_from(s@, 0, false),
{
    let mut out: Vec<char> = Vec::new();
    let mut in_tag = false;
    let mut i: usize = 0;
    assert(out@ + untagged_from(s@, 0, false) =~= untagged_from(s@, 0, false));
    while i < s.len()
        invariant
            i <= s@.len(),
            out@ + untagged_from(s@, i as int, in_tag) == untagged_from(s@, 0, false),
        decreases s.len() - i,
    {
        let c = s[i];
        let ghost before = out@;
        if c == '<' {
            in_tag = true;
        } else if c == '>' {
            in_tag = false;
        } else if !in_tag {
            out.push(c);
            assert(out@ + untagged_from(s@, i + 1, false) =~= before + untagged_from(s@, i as int, false));
        }
        i = i + 1;
    }
    assert(out@ + untagged_from(s@, i as int, in_tag) =~= out@);
    out
}

/// The markup that HTML extraction turns into line breaks, with what each
/// becomes.
pub open spec fn html_breaks() -> Seq<(Seq<char>, Seq<char>)> {
    seq![
        ("<br>"@, "\n"@), ("<br/>"@, "\n"@), ("<br />"@, "\n"@), ("<p>"@, "\n"@), ("</p>"@, "\n"@),
        ("<div>"@, "\n"@), ("</div>"@, "\n"@), ("<h1>"@, "\n"@), ("</h1>"@, "\n"@), ("<h2>"@, "\n"@),
        ("</h2>"@, "\n"@), ("<h3>"@, "\n"@), ("</h3>"@, "\n"@), ("<li>"@, "\n\u{2022} "@),
        ("</li>"@, "\n"@), ("<ul>"@, "\n"@), ("</ul>"@, "\n"@), ("<ol>"@, "\n"@), ("</ol>"@, "\n"@),
    ]
}

/// `s` after applying the first `n` replacements of `pairs` in turn.
pub open spec fn replace_chain(s: Seq<char>, pairs: Seq<(Seq<char>, Seq<char>)>, n: int) -> Seq<char>
    decreases n,
{
    if n <= 0 {
        s
    } else {
        let prev = replace_chain(s, pairs, n - 1);
        replaced_from(prev, pairs[n - 1].0, pairs[n - 1].1, 0)
    }
}

/// The text of an HTML document: block and line-break markup becomes line
/// breaks (list items get a bullet), all other tags are dropped, and the
/// result is cleaned like any extracted text.
pub open spec fn html_text(html: Seq<char>) -> Seq<char> {
    extracted_text(untagged_from(replace_chain(html, html_breaks(), 19), 0, false))
}

impl FileProcessor {
    /// The text of an HTML document.
    pub fn html_to_text(html: &str) -> (r: String)
        ensures
            r@ == html_text(html@),
    {
        let pairs: Vec<(&str, &str)> = vec![
            ("<br>", "\n"), ("<br/>", "\n"), ("<br />", "\n"), ("<p>", "\n"), ("</p>", "\n"),
            ("<div>", "\n"), ("</div>", "\n"), ("<h1>", "\n"), ("</h1>", "\n"), ("<h2>", "\n"),
            ("</h2>", "\n"), ("<h3>", "\n"), ("</h3>", "\n"), ("<li>", "\n\u{2022} "),
            ("</li>", "\n"), ("<ul>", "\n"), ("</ul>", "\n"), ("<ol>", "\n"), ("</ol>", "\n"),
        ];
        let ghost spec_pairs = html_breaks();
        assert(pairs@.map_values(|p: (&str, &str)| (p.0@, p.1@)) =~= spec_pairs);
        let mut cur = chars_of(html);
        let mut i: usize = 0;
        while i < pairs.len()
            invariant
                i <= pairs@.len(),
                pairs@.len() == 19,
                pairs@.map_values(|p: (&str, &str)| (p.0@, p.1@)) == spec_pairs,
                spec_pairs == html_breaks(),
                cur@ == replace_chain(html@, spec_pairs, i as int),
            decreases pairs.len() - i,
        {
            let (pat, rep) = pairs[i];
            assert(spec_pairs[i as int] == (pat@, rep@));
            proof {
                reveal_strlit("<br>");
                reveal_strlit("<br/>");
                reveal_strlit("<br />");
                reveal_strlit("<p>");
                reveal_strlit("</p>");
                reveal_strlit("<div>");
                reveal_strlit("</div>");
                reveal_strlit("<h1>");
                reveal_strlit("</h1>");
                reveal_strlit("<h2>");
                reveal_strlit("</h2>");
                reveal_strlit("<h3>");
                reveal_strlit("</h3>");
                reveal_strlit("<li>");
                reveal_strlit("</li>");
                reveal_strlit("<ul>");
                reveal_strlit("</ul>");
                reveal_strlit("<ol>");
                reveal_strlit("</ol>");
                assert(forall|k: int| 0 <= k < 19 ==> (#[trigger] html_breaks()[k]).0.len() > 0);
            }
            cur = replace_all(&cur, pat, rep);
            i = i + 1;
        }
        let stripped = strip_tags(&cur);
        FileProcessor::clean_text(string_of(&stripped).as_str())
    }
}

/// `s` without trailing characters that are not alphanumeric.
pub open spec fn strip_end_symbols(s: Seq<char>) -> Seq<char>
    decreases s.len(),
{
    if s.len() > 0 && !alnum_of(s.last()) {
        strip_end_symbols(s.drop_last())
    } else {
        s
    }
}

/// `s` without leading characters that are not alphanumeric.
pub open spec fn strip_start_symbols(s: Seq<char>) -> Seq<char>
    decreases s.len(),
{
    if s.len() > 0 && !alnum_of(s[0]) {
        strip_start_symbols(s.drop_first())
    } else {
        s
    }
}

/// A word as keyword counting sees it: symbols trimmed from both ends,
/// lowercased.
pub open spec fn keyword_form(w: Seq<char>) -> Seq<char> {
    lower_of(strip_start_symbols(strip_end_symbols(w)))
}

/// Number of occurrences of `x` in `s`.
pub open spec fn count_in(s: Seq<Seq<char>>, x: Seq<char>) -> int
    decreases s.len(),
{
    if s.len() == 0 {
        0
    } else {
        count_in(s.drop_last(), x) + if s.last() == x {
            1int
        } else {
            0int
        }
    }
}

/// A keyword: longer than three characters and occurring more than twice.
pub open spec fn is_keyword(forms: Seq<Seq<char>>, x: Seq<char>) -> bool {
    x.len() > 3 && count_in(forms, x) > 2
}

/// `a` comes before `b` in lexicographic order of code points.
pub open spec fn lex_lt(a: Seq<char>, b: Seq<char>) -> bool
    decreases a.len(),
{
    if a.len() == 0 {
        b.len() > 0
    } else if b.len() == 0 {
        false
    } else if a[0] != b[0] {
        a[0] < b[0]
    } else {
        lex_lt(a.drop_first(), b.drop_first())
    }
}

proof fn lemma_lex_total(a: Seq<char>, b: Seq<char>)
    ensures
        a == b || lex_lt(a, b) || lex_lt(b, a),
        !(lex_lt(a, b) && lex_lt(b, a)),
        !lex_lt(a, a),
    decreases a.len(),
{
    if a.len() > 0 && b.len() > 0 {
        lemma_lex_total(a.drop_first(), b.drop_first());
        if a[0] == b[0] && a.drop_first() == b.drop_first() {
            assert(a =~= seq![a[0]] + a.drop_first());
            assert(b =~= seq![b[0]] + b.drop_first());
        }
    }
    if a.len() > 0 {
        lemma_lex_total(a.drop_first(), a.drop_first());
    }
    if a.len() == 0 && b.len() == 0 {
        assert(a =~= b);
    }
}

fn lex_less(a: &Vec<char>, b: &Vec<char>) -> (r: bool)
    ensures
        r == lex_lt(a@, b@),
{
    let mut i: usize = 0;
    assert(a@.subrange(0, a@.len() as int) =~= a@);
    assert(b@.subrange(0, b@.len() as int) =~= b@);
    while i < a.len() && i < b.len() && a[i] == b[i]
        invariant
            i <= a@.len(),
            i <= b@.len(),
            lex_lt(a@, b@) == lex_lt(a@.subrange(i as int, a@.len() as int), b@.subrange(i as int, b@.len() as int)),
        decreases a.len() - i,
    {
        let ghost x = a@.subrange(i as int, a@.len() as int);
        let ghost y = b@.subrange(i as int, b@.len() as int);
        assert(x.drop_first() =~= a@.subrange(i + 1, a@.len() as int));
        assert(y.drop_first() =~= b@.subrange(i + 1, b@.len() as int));
        i = i + 1;
    }
    let ghost x = a@.subrange(i as int, a@.len() as int);
    let ghost y = b@.subrange(i as int, b@.len() as int);
    if i == a.len() {
        i < b.len()
    } else if i == b.len() {
        false
    } else {
        assert(x[0] == a@[i as int] && y[0] == b@[i as int]);
        a[i] < b[i]
    }
}

fn strip_symbols(w: &Vec<char>) -> (r: Vec<char>)
    ensures
        r@ == strip_start_symbols(strip_end_symbols(w@)),
{
    let mut e: usize = w.len();
    assert(w@.subrange(0, w@.len() as int) =~= w@);
    while e > 0 && !crate::analysis::is_alphanumeric(w[e - 1])
        invariant
            e <= w@.len(),
            strip_end_symbols(w@) == strip_end_symbols(w@.subrange(0, e as int)),
        decreases e,
    {
        assert(w@.subrange(0, e as int).drop_last() =~= w@.subrange(0, e - 1));
        e = e - 1;
    }
    let t = crate::text::copy_range(w, 0, e);
    let mut b: usize = 0;
    assert(t@.subrange(0, t@.len() as int) =~= t@);
    while b < t.len() && !crate::analysis::is_alphanumeric(t[b])
        invariant
            b <= t@.len(),
            strip_start_symbols(t@) == strip_start_symbols(t@.subrange(b as int, t@.len() as int)),
        decreases t.len() - b,
    {
        assert(t@.subrange(b as int, t@.len() as int).drop_first() =~= t@.subrange(b + 1, t@.len() as int));
        b = b + 1;
    }
    crate::text::copy_range(&t, b, t.len())
}

proof fn lemma_count_contains(s: Seq<Seq<char>>, x: Seq<char>)
    ensures
        count_in(s, x) > 0 ==> s.contains(x),
        count_in(s, x) >= 0,
    decreases s.len(),
{
    if s.len() > 0 {
        lemma_count_contains(s.drop_last(), x);
        if count_in(s.drop_last(), x) > 0 {
            let k = choose|k: int| 0 <= k < s.drop_last().len() && s.drop_last()[k] == x;
            assert(s[k] == x);
        }
        if s.last() == x {
            assert(s[s.len() - 1] == x);
        }
    }
}

/// The keyword forms of `ws`.
pub open spec fn keyword_forms(ws: Seq<Seq<char>>) -> Seq<Seq<char>> {
    ws.map_values(|w: Seq<char>| keyword_form(w))
}

/// `kw` are the keywords of `forms`, in increasing order, cut at ten: any
/// keyword left out comes after all that were kept.
pub open spec fn is_keyword_list(forms: Seq<Seq<char>>, kw: Seq<Seq<char>>) -> bool {
    &&& kw.len() <= 10
    &&& forall|i: int| 0 <= i < kw.len() ==> is_keyword(forms, #[trigger] kw[i])
    &&& forall|i: int| 0 <= i < kw.len() - 1 ==> lex_lt(#[trigger] kw[i], kw[i + 1])
    &&& forall|x: Seq<char>|
        #[trigger] is_keyword(forms, x) && !kw.contains(x) ==> kw.len() == 10 && lex_lt(
            kw.last(),
            x,
        )
}

/// The distinct keyword forms of a text with their counts.
fn form_counts(words: &Vec<Vec<char>>) -> (r: (Vec<Vec<char>>, Vec<usize>))
    ensures
        r.0@.len() == r.1@.len(),
        forall|k: int| 0 <= k < r.0@.len() ==> r.1@[k] as int == count_in(keyword_forms(texts(words@)), #[trigger] r.0@[k]@),
        forall|x: Seq<char>| #[trigger] keyword_forms(texts(words@)).contains(x) ==> texts(r.0@).contains(x),
{
    let ghost all = keyword_forms(texts(words@));
    let mut uniq: Vec<Vec<char>> = Vec::new();
    let mut counts: Vec<usize> = Vec::new();
    let mut i: usize = 0;
    while i < words.len()
        invariant
            i <= words@.len(),
            all == keyword_forms(texts(words@)),
            uniq@.len() == counts@.len(),
            forall|k: int| 0 <= k < uniq@.len() ==> counts@[k] as int == count_in(all.subrange(0, i as int), #[trigger] uniq@[k]@),
            forall|k: int| 0 <= k < uniq@.len() ==> counts@[k] <= i,
            forall|a: int, b: int| 0 <= a < uniq@.len() && 0 <= b < uniq@.len() && a != b ==> #[trigger] uniq@[a]@ != #[trigger] uniq@[b]@,
            forall|x: Seq<char>| #[trigger] all.subrange(0, i as int).contains(x) ==> texts(uniq@).contains(x),
        decreases words.len() - i,
    {
        let ghost pre = all.subrange(0, i as int);
        let ghost cur = all.subrange(0, i + 1);
        assert(cur.drop_last() =~= pre);
        let stripped = strip_symbols(&words[i]);
        let low = crate::text::lowercase(crate::text::string_of(&stripped).as_str());
        let f = crate::text::chars_of(low.as_str());
        assert(f@ == all[i as int]);
        assert(cur.last() == f@);
        let mut k: usize = 0;
        let mut found: Option<usize> = None;
        while k < uniq.len() && found.is_none()
            invariant
                k <= uniq@.len(),
                found matches Some(j) ==> j < uniq@.len() && uniq@[j as int]@ == f@,
                found is None ==> forall|m: int| 0 <= m < k ==> uniq@[m]@ != f@,
            decreases uniq.len() - k,
        {
            if crate::text::chars_eq(&uniq[k], &f) {
                found = Some(k);
            }
            k = k + 1;
        }
        let ghost old_u = uniq@;
        let ghost old_c = counts@;
        match found {
            Some(j) => {
                let c = counts[j];
                counts.set(j, c + 1);
                assert forall|m: int| 0 <= m < uniq@.len() implies counts@[m] as int == count_in(cur, #[trigger] uniq@[m]@) by {
                    assert(count_in(cur, uniq@[m]@) == count_in(pre, uniq@[m]@) + if f@ == uniq@[m]@ { 1int } else { 0int });
                    if m != j as int {
                        assert(old_u[m]@ != old_u[j as int]@);
                    }
                }
            },
            None => {
                uniq.push(f);
                counts.push(1);
                assert forall|a: int, b: int| 0 <= a < uniq@.len() && 0 <= b < uniq@.len() && a != b implies #[trigger] uniq@[a]@ != #[trigger] uniq@[b]@ by {
                    if a < old_u.len() && b < old_u.len() {
                        assert(uniq@[a] == old_u[a] && uniq@[b] == old_u[b]);
                    } else if a < old_u.len() {
                        assert(uniq@[a] == old_u[a]);
                    } else {
                        assert(uniq@[b] == old_u[b]);
                    }
                }
                assert forall|m: int| 0 <= m < uniq@.len() implies counts@[m] as int == count_in(cur, #[trigger] uniq@[m]@) by {
                    if m < old_u.len() {
                        assert(uniq@[m] == old_u[m]);
                        assert(uniq@[m]@ != f@);
                    } else {
                        lemma_count_contains(pre, f@);
                        if count_in(pre, f@) > 0 {
                            assert(texts(old_u).contains(f@));
                            let q = choose|q: int| 0 <= q < texts(old_u).len() && texts(old_u)[q] == f@;
                            assert(old_u[q]@ == f@);
                        }
                    }
                }
            },
        }
        assert forall|x: Seq<char>| #[trigger] cur.contains(x) implies texts(uniq@).contains(x) by {
            let q = choose|q: int| 0 <= q < cur.len() && cur[q] == x;
            if q < i {
                assert(pre[q] == x);
                assert(pre.contains(x));
                assert(texts(old_u).contains(x));
                let z = choose|z: int| 0 <= z < texts(old_u).len() && texts(old_u)[z] == x;
                assert(texts(uniq@)[z] == x);
            } else {
                match found {
                    Some(j) => {
                        assert(texts(uniq@)[j as int] == x);
                    },
                    None => {
                        assert(texts(uniq@)[old_u.len() as int] == x);
                    },
                }
            }
        }
        i = i + 1;
    }
    assert(all.subrange(0, words@.len() as int) =~= all);
    (uniq, counts)
}

/// The keywords of the words, in increasing order, at most ten.
fn select_keywords(words: &Vec<Vec<char>>) -> (r: Vec<Vec<char>>)
    ensures
        is_keyword_list(keyword_forms(texts(words@)), texts(r@)),
{
    let ghost forms = keyword_forms(texts(words@));
    let (uniq, counts) = form_counts(words);
    let mut out: Vec<Vec<char>> = Vec::new();
    loop
        invariant
            uniq@.len() == counts@.len(),
            forall|k: int| 0 <= k < uniq@.len() ==> counts@[k] as int == count_in(forms, #[trigger] uniq@[k]@),
            forall|x: Seq<char>| #[trigger] forms.contains(x) ==> texts(uniq@).contains(x),
            out@.len() <= 10,
            forall|i: int| 0 <= i < out@.len() ==> is_keyword(forms, #[trigger] out@[i]@),
            forall|i: int| 0 <= i < out@.len() - 1 ==> lex_lt(#[trigger] out@[i]@, out@[i + 1]@),
            forall|x: Seq<char>|
                #[trigger] is_keyword(forms, x) && !texts(out@).contains(x) ==> (out@.len() > 0 ==> lex_lt(out@.last()@, x)),
        ensures
            is_keyword_list(forms, texts(out@)),
        decreases 10 - out@.len(),
    {
        if out.len() >= 10 {
            assert forall|i: int| 0 <= i < texts(out@).len() - 1 implies lex_lt(#[trigger] texts(out@)[i], texts(out@)[i + 1]) by {
                assert(texts(out@)[i] == out@[i]@);
            }
            break ;
        }
        let has_last = out.len() > 0;
        let mut best: Option<usize> = None;
        let mut k: usize = 0;
        while k < uniq.len()
            invariant
                k <= uniq@.len(),
                uniq@.len() == counts@.len(),
                has_last == (out@.len() > 0),
                best matches Some(b) ==> b < k && uniq@[b as int]@.len() > 3 && counts@[b as int] > 2 && (!has_last || lex_lt(out@.last()@, uniq@[b as int]@)),
                forall|q: int|
                    0 <= q < k && uniq@[q]@.len() > 3 && counts@[q] > 2 && (!has_last || lex_lt(out@.last()@, uniq@[q]@))
                        ==> (best matches Some(b) && !lex_lt(#[trigger] uniq@[q]@, uniq@[b as int]@)),
            decreases uniq.len() - k,
        {
            if uniq[k].len() > 3 && counts[k] > 2 {
                let after = !has_last || lex_less(&out[out.len() - 1], &uniq[k]);
                if after {
                    let better = match best {
                        None => true,
                        Some(b) => lex_less(&uniq[k], &uniq[b]),
                    };
                    if better {
                        proof {
                            if let Some(b) = best {
                                assert forall|q: int|
                                    0 <= q < k && uniq@[q]@.len() > 3 && counts@[q] > 2 && (!has_last || lex_lt(out@.last()@, uniq@[q]@))
                                        implies !lex_lt(#[trigger] uniq@[q]@, uniq@[k as int]@) by {
                                    lemma_lex_total(uniq@[q]@, uniq@[b as int]@);
                                    lemma_lex_trans(uniq@[q]@, uniq@[b as int]@, uniq@[k as int]@);
                                    lemma_lex_total(uniq@[k as int]@, uniq@[b as int]@);
                                    if lex_lt(uniq@[q]@, uniq@[k as int]@) {
                                        lemma_lex_trans(uniq@[q]@, uniq@[k as int]@, uniq@[b as int]@);
                                    }
                                }
                            }
                            lemma_lex_total(uniq@[k as int]@, uniq@[k as int]@);
                        }
                        best = Some(k);
                    }
                }
            }
            k = k + 1;
        }
        match best {
            None => {
                assert forall|x: Seq<char>| #[trigger] is_keyword(forms, x) implies texts(out@).contains(x) by {
                    if !texts(out@).contains(x) {
                        lemma_count_contains(forms, x);
                        assert(texts(uniq@).contains(x));
                        let q = choose|q: int| 0 <= q < texts(uniq@).len() && texts(uniq@)[q] == x;
                        assert(uniq@[q]@ == x);
                        assert(counts@[q] as int == count_in(forms, uniq@[q]@));
                    }
                }
                assert forall|i: int| 0 <= i < texts(out@).len() - 1 implies lex_lt(#[trigger] texts(out@)[i], texts(out@)[i + 1]) by {
                    assert(texts(out@)[i] == out@[i]@);
                }
                break ;
            },
            Some(b) => {
                let ghost old_out = out@;
                let pick = crate::text::copy_range(&uniq[b], 0, uniq[b].len());
                assert(pick@ =~= uniq@[b as int]@);
                out.push(pick);
                assert(is_keyword(forms, pick@)) by {
                    assert(counts@[b as int] as int == count_in(forms, uniq@[b as int]@));
                }
                assert forall|x: Seq<char>|
                    #[trigger] is_keyword(forms, x) && !texts(out@).contains(x) implies (out@.len() > 0 ==> lex_lt(out@.last()@, x)) by {
                    assert(out@.last()@ == pick@);
                    if x == pick@ {
                        assert(texts(out@)[old_out.len() as int] == x);
                    } else {
                        assert(!texts(old_out).contains(x)) by {
                            if texts(old_out).contains(x) {
                                let z = choose|z: int| 0 <= z < texts(old_out).len() && texts(old_out)[z] == x;
                                assert(texts(out@)[z] == x);
                            }
                        }
                        lemma_count_contains(forms, x);
                        let q = choose|q: int| 0 <= q < texts(uniq@).len() && texts(uniq@)[q] == x;
                        assert(uniq@[q]@ == x);
                        assert(counts@[q] as int == count_in(forms, uniq@[q]@));
                        assert(!lex_lt(uniq@[q]@, uniq@[b as int]@));
                        lemma_lex_total(x, pick@);
                    }
                }
                assert forall|i: int| 0 <= i < out@.len() implies is_keyword(forms, #[trigger] out@[i]@) by {
                    if i < old_out.len() {
                        assert(out@[i] == old_out[i]);
                    }
                }
                assert forall|i: int| 0 <= i < out@.len() - 1 implies lex_lt(#[trigger] out@[i]@, out@[i + 1]@) by {
                    assert(out@[i] == old_out[i]);
                    if i + 1 < old_out.len() {
                        assert(out@[i + 1] == old_out[i + 1]);
                    }
                }
            },
        }
    }
    out
}

proof fn lemma_lex_trans(a: Seq<char>, b: Seq<char>, c: Seq<char>)
    ensures
        lex_lt(a, b) && lex_lt(b, c) ==> lex_lt(a, c),
    decreases a.len(),
{
    if a.len() > 0 && b.len() > 0 && c.len() > 0 {
        lemma_lex_trans(a.drop_first(), b.drop_first(), c.drop_first());
    }
}

} // verus!
