//! Ingestion rules: which files carry text, which are archives, what
//! lightweight metadata a text yields, which cleaning tasks a file gets,
//! and the bookkeeping of an ingestion job.

use vstd::prelude::*;
use vstd::string::StringExecFns;
use crate::text::{chars_of, string_of, split_lines, lines_of, trim, trim_chars, texts, text_eq, lower_of, lowercase};
use crate::analysis::{has_sub, contains_text};
use crate::records::FileMetadata;
use crate::cleaning::{CleaningQueue, CleaningTaskType, CreateCleaningTask, QueueError, TaskView, TaskStatus, text_opt};

verus! {

/// `s` begins with `p`.
pub open spec fn starts_with(s: Seq<char>, p: Seq<char>) -> bool {
    p.len() <= s.len() && s.subrange(0, p.len() as int) == p
}

/// Whether `s` begins with `p`.
pub fn starts_with_exec(s: &Vec<char>, p: &str) -> (r: bool)
    ensures
        r == starts_with(s@, p@),
{
    let pc = chars_of(p);
    if pc.len() > s.len() {
        return false;
    }
    let prefix = crate::text::copy_range(s, 0, pc.len());
    crate::text::chars_eq(&prefix, &pc)
}

/// MIME types whose files are read as text.
pub open spec fn text_mime(m: Seq<char>) -> bool {
    starts_with(m, "text/"@) || m == "application/json"@ || m == "application/xml"@ || m
        == "application/javascript"@ || m == "application/x-python"@ || m == "application/x-rust"@
        || m == "application/x-typescript"@ || m == "application/rtf"@ || m
        == "application/x-tex"@ || m == "application/x-latex"@ || m == "application/markdown"@ || m
        == "application/x-markdown"@ || m == "application/vnd.oasis.opendocument.text"@ || m
        == "application/vnd.openxmlformats-officedocument.wordprocessingml.document"@ || m
        == "application/msword"@ || m == "application/pdf"@ || m == "application/octet-stream"@
}

/// Whether files of this MIME type are read as text.
pub fn is_text_file(mime_type: &str) -> (r: bool)
    ensures
        r == text_mime(mime_type@),
{
    let m = chars_of(mime_type);
    if starts_with_exec(&m, "text/") {
        return true;
    }
    let names = vec![
        "application/json",
        "application/xml",
        "application/javascript",
        "application/x-python",
        "application/x-rust",
        "application/x-typescript",
        "application/rtf",
        "application/x-tex",
        "application/x-latex",
        "application/markdown",
        "application/x-markdown",
        "application/vnd.oasis.opendocument.text",
        "application/vnd.openxmlformats-officedocument.wordprocessingml.document",
        "application/msword",
        "application/pdf",
        "application/octet-stream",
    ];
    let ghost listed = names@.map_values(|n: &str| n@);
    assert(text_mime(mime_type@) <==> (starts_with(mime_type@, "text/"@) || listed.contains(
        mime_type@,
    ))) by {
        if listed.contains(mime_type@) {
            let k = choose|k: int| 0 <= k < listed.len() && listed[k] == mime_type@;
            assert(names@[k]@ == mime_type@);
        }
        if text_mime(mime_type@) && !starts_with(mime_type@, "text/"@) {
            if mime_type@ == "application/json"@ { assert(listed[0] == mime_type@); }
            if mime_type@ == "application/xml"@ { assert(listed[1] == mime_type@); }
            if mime_type@ == "application/javascript"@ { assert(listed[2] == mime_type@); }
            if mime_type@ == "application/x-python"@ { assert(listed[3] == mime_type@); }
            if mime_type@ == "application/x-rust"@ { assert(listed[4] == mime_type@); }
            if mime_type@ == "application/x-typescript"@ { assert(listed[5] == mime_type@); }
            if mime_type@ == "application/rtf"@ { assert(listed[6] == mime_type@); }
            if mime_type@ == "application/x-tex"@ { assert(listed[7] == mime_type@); }
            if mime_type@ == "application/x-latex"@ { assert(listed[8] == mime_type@); }
            if mime_type@ == "application/markdown"@ { assert(listed[9] == mime_type@); }
            if mime_type@ == "application/x-markdown"@ { assert(listed[10] == mime_type@); }
            if mime_type@ == "application/vnd.oasis.opendocument.text"@ { assert(listed[11] == mime_type@); }
            if mime_type@ == "application/vnd.openxmlformats-officedocument.wordprocessingml.document"@ { assert(listed[12] == mime_type@); }
            if mime_type@ == "application/msword"@ { assert(listed[13] == mime_type@); }
            if mime_type@ == "application/pdf"@ { assert(listed[14] == mime_type@); }
            if mime_type@ == "application/octet-stream"@ { assert(listed[15] == mime_type@); }
        }
    }
    list_contains(&names, mime_type)
}

/// Whether one of `names` is exactly `s`.
fn list_contains(names: &Vec<&str>, s: &str) -> (r: bool)
    ensures
        r == names@.map_values(|n: &str| n@).contains(s@),
{
    let ghost listed = names@.map_values(|n: &str| n@);
    let mut i: usize = 0;
    while i < names.len()
        invariant
            i <= names@.len(),
            listed == names@.map_values(|n: &str| n@),
            forall|k: int| 0 <= k < i ==> listed[k] != s@,
        decreases names.len() - i,
    {
        if text_eq(names[i], s) {
            assert(listed[i as int] == s@);
            return true;
        }
        i = i + 1;
    }
    false
}

/// File extensions (lowercase) of text formats.
pub open spec fn text_extensions() -> Seq<Seq<char>> {
    seq![
        "txt"@, "md"@, "json"@, "xml"@, "csv"@, "log"@, "cfg"@, "conf"@, "ini"@, "yml"@, "yaml"@,
        "toml"@, "sql"@, "sh"@, "bat"@, "ps1"@, "py"@, "js"@, "ts"@, "html"@, "css"@, "scss"@,
        "less"@, "php"@, "rb"@, "go"@, "rs"@, "cpp"@, "c"@, "h"@, "hpp"@, "java"@, "kt"@,
        "swift"@, "dart"@, "r"@, "m"@, "pl"@, "lua"@, "vim"@, "vimrc"@, "gitignore"@,
        "dockerfile"@, "makefile"@, "cmake"@, "gradle"@, "pom"@, "sbt"@, "gemfile"@, "lock"@,
    ]
}

/// Whether a file extension, compared without regard to case, names a
/// text format.
pub fn is_text_extension(extension: &str) -> (r: bool)
    ensures
        r == text_extensions().contains(lower_of(extension@)),
{
    let lower = lowercase(extension);
    is_text_extension_lowered(lower.as_str())
}

/// Whether an already lowercased file extension names a text format.
pub fn is_text_extension_lowered(extension: &str) -> (r: bool)
    ensures
        r == text_extensions().contains(extension@),
{
    let names = vec![
        "txt", "md", "json", "xml", "csv", "log", "cfg", "conf", "ini", "yml", "yaml", "toml",
        "sql", "sh", "bat", "ps1", "py", "js", "ts", "html", "css", "scss", "less", "php", "rb",
        "go", "rs", "cpp", "c", "h", "hpp", "java", "kt", "swift", "dart", "r", "m", "pl", "lua",
        "vim", "vimrc", "gitignore", "dockerfile", "makefile", "cmake", "gradle", "pom", "sbt",
        "gemfile", "lock",
    ];
    assert(names@.map_values(|n: &str| n@) =~= text_extensions());
    list_contains(&names, extension)
}

/// A byte that counts as printable text: ASCII letters, digits,
/// punctuation and whitespace.
pub open spec fn printable_byte(b: u8) -> bool {
    (0x21 <= b && b <= 0x7e) || b == 0x20 || b == 0x09 || b == 0x0a || b == 0x0b || b == 0x0c
        || b == 0x0d
}

/// Number of printable bytes among the first `n` of `s`.
pub open spec fn printable_count(s: Seq<u8>, n: int) -> int
    decreases n,
{
    if n <= 0 {
        0
    } else {
        printable_count(s, n - 1) + if printable_byte(s[n - 1]) {
            1int
        } else {
            0int
        }
    }
}

/// How many leading bytes of a file are sampled to guess whether it is text.
pub const SAMPLE_SIZE: usize = 1024;

/// The sampled prefix of `s` looks like text: more than 80% of it is
/// printable.
pub open spec fn looks_textual(s: Seq<u8>) -> bool {
    let n = if s.len() < 1024 {
        s.len() as int
    } else {
        1024
    };
    n > 0 && 5 * printable_count(s, n) > 4 * n
}

/// Whether the first bytes of a file look like text.
pub fn looks_like_text(sample: &Vec<u8>) -> (r: bool)
    ensures
        r == looks_textual(sample@),
{
    let n: usize = if sample.len() < SAMPLE_SIZE {
        sample.len()
    } else {
        SAMPLE_SIZE
    };
    let mut p: usize = 0;
    let mut i: usize = 0;
    while i < n
        invariant
            n <= sample@.len(),
            n <= 1024,
            i <= n,
            p == printable_count(sample@, i as int),
            p <= i,
        decreases n - i,
    {
        let b = sample[i];
        if (0x21 <= b && b <= 0x7e) || b == 0x20 || b == 0x09 || b == 0x0a || b == 0x0b || b == 0x0c
            || b == 0x0d {
            p = p + 1;
        }
        i = i + 1;
    }
    n > 0 && 5 * p > 4 * n
}

/// The first bytes of a file are a ZIP signature (`PK`).
pub open spec fn zip_header(h: Seq<u8>) -> bool {
    h.len() >= 2 && h[0] == 0x50 && h[1] == 0x4b
}

/// A file is treated as an archive when its extension is `zip` (in any
/// case), its MIME type is `application/zip`, or it starts with `PK`.
pub fn is_zip_file(extension: &str, mime_type: &str, header: &Vec<u8>) -> (r: bool)
    ensures
        r == (lower_of(extension@) == "zip"@ || mime_type@ == "application/zip"@ || zip_header(
            header@,
        )),
{
    let ext = lowercase(extension);
    text_eq(ext.as_str(), "zip") || text_eq(mime_type, "application/zip") || (header.len() >= 2
        && header[0] == 0x50 && header[1] == 0x4b)
}

/// A file is read as text when its MIME type is textual, its extension
/// names a text format, or its first bytes look like text.
pub fn is_readable_text(mime_type: &str, extension: &str, sample: &Vec<u8>) -> (r: bool)
    ensures
        r == (text_mime(mime_type@) || text_extensions().contains(lower_of(extension@))
            || looks_textual(sample@)),
{
    is_text_file(mime_type) || is_text_extension(extension) || looks_like_text(sample)
}

/// The lightweight metadata of one text.
pub struct MetadataExtractionResult {
    pub file_id: i64,
    pub success: bool,
    pub author: Option<String>,
    pub topic: Option<String>,
    pub date: Option<String>,
    pub tags: Vec<String>,
    pub extracted_content: Option<String>,
    pub error_message: Option<String>,
}

/// A line that names an author.
pub open spec fn author_line(l: Seq<char>) -> bool {
    has_sub(l, "@author"@) || has_sub(l, "Author:"@)
}

/// The first of the first `n` lines that names an author, trimmed.
pub open spec fn first_author(ls: Seq<Seq<char>>, n: int) -> Option<Seq<char>>
    decreases n,
{
    if n <= 0 {
        None
    } else {
        match first_author(ls, n - 1) {
            Some(a) => Some(a),
            None => if n - 1 < ls.len() && author_line(ls[n - 1]) {
                Some(trim(ls[n - 1]))
            } else {
                None
            },
        }
    }
}

/// The trimmed lines that start with `#`, in order.
pub open spec fn tag_lines(ls: Seq<Seq<char>>) -> Seq<Seq<char>>
    decreases ls.len(),
{
    if ls.len() == 0 {
        ls
    } else {
        let r = tag_lines(ls.drop_last());
        let t = trim(ls.last());
        if t.len() > 0 && t[0] == '#' {
            r.push(t)
        } else {
            r
        }
    }
}

/// The first line with something besides whitespace, trimmed.
pub open spec fn first_topic(ls: Seq<Seq<char>>, n: int) -> Option<Seq<char>>
    decreases n,
{
    if n <= 0 {
        None
    } else {
        match first_topic(ls, n - 1) {
            Some(t) => Some(t),
            None => if n - 1 < ls.len() && trim(ls[n - 1]).len() > 0 {
                Some(trim(ls[n - 1]))
            } else {
                None
            },
        }
    }
}

proof fn lemma_first_topic_stays(ls: Seq<Seq<char>>, i: int, k: int)
    requires
        0 <= i <= k,
        first_topic(ls, i) is Some,
    ensures
        first_topic(ls, k) == first_topic(ls, i),
    decreases k - i,
{
    if k > i {
        lemma_first_topic_stays(ls, i, k - 1);
    }
}

/// Extracts the author (the first line naming one with `Author:` or
/// `@author`, trimmed), the topic (the first non-empty line, trimmed) and
/// the tags (the trimmed lines starting with `#`, in order) of a text.
pub fn extract_metadata(file_id: i64, content: &str) -> (r: MetadataExtractionResult)
    ensures
        r.file_id == file_id,
        r.success,
        r.date is None,
        r.error_message is None,
        text_opt(r.extracted_content) == Some(content@),
        text_opt(r.author) == first_author(lines_of(content@), lines_of(content@).len() as int),
        text_opt(r.topic) == first_topic(lines_of(content@), lines_of(content@).len() as int),
        r.tags@.map_values(|t: String| t@) == tag_lines(lines_of(content@)),
{
    let cs = chars_of(content);
    let mut author: Option<String> = None;
    let mut topic: Option<String> = None;
    let mut tags: Vec<String> = Vec::new();
    let ls = split_lines(&cs);
    let ghost lv = lines_of(content@);
    assert(texts(ls@) =~= lv);
    let n = ls.len();
    let mut i: usize = 0;
    while i < n
        invariant
            n == ls@.len(),
            i <= n,
            texts(ls@) == lv,
            text_opt(author) == first_author(lv, i as int),
            text_opt(topic) == first_topic(lv, i as int),
            author is Some ==> first_author(lv, n as int) == text_opt(author),
            topic is Some ==> first_topic(lv, n as int) == text_opt(topic),
            tags@.map_values(|t: String| t@) == tag_lines(lv.subrange(0, i as int)),
        decreases n - i,
    {
        assert(ls@[i as int]@ == lv[i as int]);
        assert(lv.subrange(0, i + 1).drop_last() =~= lv.subrange(0, i as int));
        let t = trim_chars(&ls[i]);
        if author.is_none() && (contains_text(&ls[i], "@author") || contains_text(&ls[i], "Author:")) {
            author = Some(string_of(&t));
            proof {
                lemma_first_author_stays(lv, i + 1, n as int);
            }
        }
        if topic.is_none() && t.len() > 0 {
            topic = Some(string_of(&t));
            proof {
                lemma_first_topic_stays(lv, i + 1, n as int);
            }
        }
        if t.len() > 0 && t[0] == '#' {
            let ghost before = tags@;
            tags.push(string_of(&t));
            assert(tags@.map_values(|t: String| t@) =~= before.map_values(|t: String| t@).push(t@));
        }
        i = i + 1;
    }
    assert(lv.subrange(0, lv.len() as int) =~= lv);
    MetadataExtractionResult {
        file_id,
        success: true,
        author,
        topic,
        date: None,
        tags,
        extracted_content: Some(String::from_str(content)),
        error_message: None,
    }
}

proof fn lemma_first_author_stays(ls: Seq<Seq<char>>, i: int, k: int)
    requires
        0 <= i <= k,
        first_author(ls, i) is Some,
    ensures
        first_author(ls, k) == first_author(ls, i),
    decreases k - i,
{
    if k > i {
        lemma_first_author_stays(ls, i, k - 1);
    }
}

/// Some task of `s` is of type `t` for file `fid`.
pub open spec fn has_task(s: Seq<TaskView>, fid: i64, t: CleaningTaskType) -> bool {
    exists|i: int| 0 <= i < s.len() && #[trigger] s[i].file_id == fid && s[i].task_type == t
}

/// How many of the three ingestion task types file `fid` still lacks.
pub open spec fn missing_count(s: Seq<TaskView>, fid: i64) -> int {
    (if has_task(s, fid, CleaningTaskType::TextCleanup) {
        0int
    } else {
        1int
    }) + (if has_task(s, fid, CleaningTaskType::MetadataExtraction) {
        0int
    } else {
        1int
    }) + (if has_task(s, fid, CleaningTaskType::FormatConversion) {
        0int
    } else {
        1int
    })
}

proof fn lemma_has_task_push(s: Seq<TaskView>, x: TaskView, fid: i64, t: CleaningTaskType)
    ensures
        has_task(s.push(x), fid, t) == (has_task(s, fid, t) || (x.file_id == fid && x.task_type
            == t)),
{
    let u = s.push(x);
    if has_task(s, fid, t) {
        let i = choose|i: int| 0 <= i < s.len() && #[trigger] s[i].file_id == fid && s[i].task_type == t;
        assert(u[i] == s[i]);
    }
    if x.file_id == fid && x.task_type == t {
        assert(u[s.len() as int] == x);
    }
    if has_task(u, fid, t) {
        let i = choose|i: int| 0 <= i < u.len() && #[trigger] u[i].file_id == fid && u[i].task_type == t;
        if i < s.len() {
            assert(s[i] == u[i]);
        }
    }
}

fn has_task_exec(queue: &CleaningQueue, fid: i64, t: CleaningTaskType) -> (r: bool)
    ensures
        r == has_task(queue@, fid, t),
{
    let tasks = queue.tasks();
    let mut i: usize = 0;
    while i < tasks.len()
        invariant
            tasks@.map_values(|x: crate::cleaning::CleaningTask| x@) == queue@,
            i <= tasks@.len(),
            forall|k: int| 0 <= k < i ==> !(#[trigger] queue@[k].file_id == fid && queue@[k].task_type == t),
        decreases tasks.len() - i,
    {
        assert(queue@[i as int] == tasks@[i as int]@);
        if tasks[i].file_id == fid && tasks[i].task_type == t {
            assert(queue@[i as int].file_id == fid && queue@[i as int].task_type == t);
            return true;
        }
        i = i + 1;
    }
    false
}

fn add_task(
    queue: &mut CleaningQueue,
    file_id: i64,
    t: CleaningTaskType,
    priority: i64,
    content: &str,
    now: i64,
) -> (r: Result<(), QueueError>)
    requires
        old(queue).wf(),
    ensures
        final(queue).wf(),
        r is Ok <==> old(queue).next_id_spec() != i64::MAX,
        r is Err ==> final(queue)@ == old(queue)@ && final(queue).next_id_spec() == old(queue).next_id_spec(),
        r is Ok ==> final(queue).next_id_spec() == old(queue).next_id_spec() + 1,
        r is Ok ==> exists|x: TaskView|
            {
                &&& final(queue)@ == old(queue)@.push(x)
                &&& #[trigger] x.file_id == file_id
                &&& x.task_type == t
                &&& x.status == TaskStatus::Pending
                &&& x.priority == priority
                &&& x.input_content == Some(content@)
            },
{
    let req = CreateCleaningTask {
        file_id,
        task_type: t,
        priority: Some(priority),
        input_content: Some(String::from_str(content)),
    };
    match queue.create_cleaning_task(req, now) {
        Ok(task) => {
            assert(task@.file_id == file_id);
            Ok(())
        },
        Err(e) => Err(e),
    }
}

/// Enqueues, for a readable file, each of the three ingestion task types
/// (text cleanup, metadata extraction, format conversion, with priorities
/// 1, 2, 3) that the file does not have yet, all with the file's text as
/// input. Returns how many were created. When the queue cannot hand out
/// that many ids, nothing is created.
pub fn create_cleaning_tasks(queue: &mut CleaningQueue, file_id: i64, content: &str, now: i64) -> (r:
    Result<usize, QueueError>)
    requires
        old(queue).wf(),
    ensures
        final(queue).wf(),
        r is Ok <==> old(queue).next_id_spec() as int + missing_count(old(queue)@, file_id)
            <= i64::MAX as int,
        r is Err ==> r == Err::<usize, QueueError>(QueueError::IdsExhausted) && final(queue)@
            == old(queue)@ && final(queue).next_id_spec() == old(queue).next_id_spec(),
        r matches Ok(n) ==> {
            &&& n <= 3
            &&& n == missing_count(old(queue)@, file_id)
            &&& final(queue).next_id_spec() == old(queue).next_id_spec() + n
            &&& final(queue)@.len() == old(queue)@.len() + n
            &&& final(queue)@.subrange(0, old(queue)@.len() as int) == old(queue)@
            &&& n == 0 ==> final(queue)@ == old(queue)@
            &&& has_task(final(queue)@, file_id, CleaningTaskType::TextCleanup)
            &&& has_task(final(queue)@, file_id, CleaningTaskType::MetadataExtraction)
            &&& has_task(final(queue)@, file_id, CleaningTaskType::FormatConversion)
            &&& forall|f: i64, t: CleaningTaskType|
                f != file_id ==> has_task(final(queue)@, f, t) == has_task(old(queue)@, f, t)
            &&& forall|i: int|
                old(queue)@.len() <= i < final(queue)@.len() ==> (#[trigger] final(queue)@[i]).file_id
                    == file_id && final(queue)@[i].status == TaskStatus::Pending
                    && final(queue)@[i].input_content == Some(content@)
                    && !has_task(old(queue)@, file_id, final(queue)@[i].task_type)
            &&& forall|i: int, j: int|
                old(queue)@.len() <= i < j < final(queue)@.len() ==> (#[trigger] final(queue)@[i]).task_type
                    != (#[trigger] final(queue)@[j]).task_type
        },
{
    let ghost s0 = queue@;
    let ghost n0 = queue.next_id_spec();
    let types = [
        CleaningTaskType::TextCleanup,
        CleaningTaskType::MetadataExtraction,
        CleaningTaskType::FormatConversion,
    ];
    let h0 = has_task_exec(queue, file_id, CleaningTaskType::TextCleanup);
    let h1 = has_task_exec(queue, file_id, CleaningTaskType::MetadataExtraction);
    let h2 = has_task_exec(queue, file_id, CleaningTaskType::FormatConversion);
    let missing: i64 = (if h0 { 0 } else { 1 }) + (if h1 { 0 } else { 1 }) + (if h2 { 0 } else { 1 });
    if queue.next_id() as i128 + missing as i128 > i64::MAX as i128 {
        return Err(QueueError::IdsExhausted);
    }
    let mut created: usize = 0;
    let mut k: usize = 0;
    while k < 3
        invariant
            queue.wf(),
            k <= 3,
            types@ == seq![
                CleaningTaskType::TextCleanup,
                CleaningTaskType::MetadataExtraction,
                CleaningTaskType::FormatConversion,
            ],
            n0 as int + missing_count(s0, file_id) <= i64::MAX as int,
            created <= k,
            queue.next_id_spec() == n0 + created,
            queue@.len() == s0.len() + created,
            queue@.subrange(0, s0.len() as int) == s0,
            created == (if k > 0 && !has_task(s0, file_id, CleaningTaskType::TextCleanup) {
                1int
            } else {
                0int
            }) + (if k > 1 && !has_task(s0, file_id, CleaningTaskType::MetadataExtraction) {
                1int
            } else {
                0int
            }) + (if k > 2 && !has_task(s0, file_id, CleaningTaskType::FormatConversion) {
                1int
            } else {
                0int
            }),
            forall|j: int| 0 <= j < k ==> has_task(queue@, file_id, #[trigger] types@[j]),
            forall|j: int| k <= j < 3 ==> has_task(queue@, file_id, #[trigger] types@[j]) == has_task(s0, file_id, types@[j]),
            forall|f: i64, t: CleaningTaskType|
                f != file_id ==> has_task(queue@, f, t) == has_task(s0, f, t),
            forall|i: int|
                s0.len() <= i < queue@.len() ==> (#[trigger] queue@[i]).file_id == file_id
                    && queue@[i].status == TaskStatus::Pending && queue@[i].input_content == Some(
                    content@,
                ) && !has_task(s0, file_id, queue@[i].task_type),
            forall|i: int, j: int|
                s0.len() <= i < j < queue@.len() ==> (#[trigger] queue@[i]).task_type
                    != (#[trigger] queue@[j]).task_type,
        decreases 3 - k,
    {
        let t = types[k];
        if !has_task_exec(queue, file_id, t) {
            let ghost before = queue@;
            assert(!has_task(s0, file_id, t));
            assert(created + 1 <= missing_count(s0, file_id));
            let res = add_task(queue, file_id, t, (k + 1) as i64, content, now);
            assert(res is Ok);
            proof {
                let x = choose|x: TaskView|
                    {
                        &&& queue@ == before.push(x)
                        &&& #[trigger] x.file_id == file_id
                        &&& x.task_type == t
                        &&& x.status == TaskStatus::Pending
                        &&& x.priority == (k + 1) as i64
                        &&& x.input_content == Some(content@)
                    };
                assert forall|j: int| 0 <= j < 3 implies has_task(queue@, file_id, #[trigger] types@[j])
                    == (has_task(before, file_id, types@[j]) || types@[j] == t) by {
                    lemma_has_task_push(before, x, file_id, types@[j]);
                }
                assert forall|f: i64, tt: CleaningTaskType| f != file_id implies has_task(queue@, f, tt)
                    == has_task(s0, f, tt) by {
                    lemma_has_task_push(before, x, f, tt);
                }
                assert(queue@.subrange(0, s0.len() as int) =~= before.subrange(0, s0.len() as int));
                assert forall|i: int| s0.len() <= i < queue@.len() implies (#[trigger] queue@[i]).file_id
                    == file_id && queue@[i].status == TaskStatus::Pending && queue@[i].input_content
                    == Some(content@) && !has_task(s0, file_id, queue@[i].task_type) by {
                    if i < before.len() {
                        assert(queue@[i] == before[i]);
                    } else {
                        assert(queue@[i] == x);
                    }
                }
                assert forall|i: int, j: int| s0.len() <= i < j < queue@.len() implies (#[trigger] queue@[i]).task_type
                    != (#[trigger] queue@[j]).task_type by {
                    assert(queue@[i] == before[i]);
                    if j < before.len() {
                        assert(queue@[j] == before[j]);
                    } else {
                        assert(queue@[j] == x);
                        if before[i].task_type == t {
                            assert(has_task(before, file_id, t));
                        }
                    }
                }
            }
            created = created + 1;
        }
        k = k + 1;
    }
    assert(types@[0] == CleaningTaskType::TextCleanup);
    assert(types@[1] == CleaningTaskType::MetadataExtraction);
    assert(types@[2] == CleaningTaskType::FormatConversion);
    if created == 0 {
        assert(queue@ =~= s0);
    }
    Ok(created)
}

/// What reading one discovered file gave.
pub enum FileOutcome {
    /// The file could not be read.
    Unreadable,
    /// The file was read but holds no text.
    Binary,
    /// The file's text.
    Text(String),
}

/// A file found by the walk, registered under `file_id`.
pub struct DiscoveredFile {
    pub file_id: i64,
    pub outcome: FileOutcome,
}

/// Per-job counts after registering a batch of files.
pub struct IngestionTally {
    pub total_files: usize,
    pub processed_files: usize,
    pub error_count: usize,
    pub tasks_created: usize,
}

/// Number of files of `fs` that were read as text.
pub open spec fn text_count(fs: Seq<DiscoveredFile>) -> int
    decreases fs.len(),
{
    if fs.len() == 0 {
        0
    } else {
        text_count(fs.drop_last()) + if fs.last().outcome is Text {
            1int
        } else {
            0int
        }
    }
}

/// Number of files of `fs` that could not be read.
pub open spec fn unreadable_count(fs: Seq<DiscoveredFile>) -> int
    decreases fs.len(),
{
    if fs.len() == 0 {
        0
    } else {
        unreadable_count(fs.drop_last()) + if fs.last().outcome is Unreadable {
            1int
        } else {
            0int
        }
    }
}

/// No two files share an id.
pub open spec fn distinct_ids(fs: Seq<DiscoveredFile>) -> bool {
    forall|i: int, j: int| 0 <= i < j < fs.len() ==> #[trigger] fs[i].file_id != #[trigger] fs[j].file_id
}

/// None of the files has a task in `s` yet.
pub open spec fn fresh_for(s: Seq<TaskView>, fs: Seq<DiscoveredFile>) -> bool {
    forall|j: int, t: CleaningTaskType| 0 <= j < fs.len() ==> !#[trigger] has_task(s, fs[j].file_id, t)
}

/// Some file among the first `n` of `fs` with this id was read as text.
pub open spec fn text_file_among(fs: Seq<DiscoveredFile>, n: int, id: i64) -> bool {
    exists|j: int| 0 <= j < n && j < fs.len() && #[trigger] fs[j].file_id == id && fs[j].outcome is Text
}

proof fn lemma_has_task_extends(s: Seq<TaskView>, t: Seq<TaskView>, fid: i64, ty: CleaningTaskType)
    requires
        s.len() <= t.len(),
        t.subrange(0, s.len() as int) == s,
        has_task(s, fid, ty),
    ensures
        has_task(t, fid, ty),
{
    let i = choose|i: int| 0 <= i < s.len() && #[trigger] s[i].file_id == fid && s[i].task_type == ty;
    assert(t.subrange(0, s.len() as int)[i] == t[i]);
}

proof fn lemma_text_count_prefix(fs: Seq<DiscoveredFile>, i: int, j: int)
    requires
        0 <= i <= j <= fs.len(),
    ensures
        text_count(fs.subrange(0, i)) <= text_count(fs.subrange(0, j)),
        0 <= text_count(fs.subrange(0, i)),
    decreases j,
{
    if j > i {
        assert(fs.subrange(0, j).drop_last() =~= fs.subrange(0, j - 1));
        lemma_text_count_prefix(fs, i, j - 1);
    } else if i > 0 {
        assert(fs.subrange(0, i).drop_last() =~= fs.subrange(0, i - 1));
        lemma_text_count_prefix(fs, i - 1, i - 1);
    }
}

/// Registers a batch of discovered files: unreadable files count as
/// errors, every other file as processed, and each text file gets the
/// cleaning tasks it lacks. It fails, changing nothing, only when the
/// queue could not hand out three ids per text file. Files whose ids are
/// distinct and new to the queue get exactly three tasks each.
pub fn register_files(queue: &mut CleaningQueue, files: &Vec<DiscoveredFile>, now: i64) -> (r: Result<
    IngestionTally,
    QueueError,
>)
    requires
        old(queue).wf(),
        files@.len() * 3 <= usize::MAX,
    ensures
        final(queue).wf(),
        r is Ok <==> old(queue).next_id_spec() as int + 3 * text_count(files@) <= i64::MAX as int,
        r is Err ==> r == Err::<IngestionTally, QueueError>(QueueError::IdsExhausted) && final(queue)@
            == old(queue)@,
        r matches Ok(t) ==> {
            &&& t.total_files == files@.len()
            &&& t.processed_files + t.error_count == t.total_files
            &&& t.error_count == unreadable_count(files@)
            &&& final(queue)@.len() == old(queue)@.len() + t.tasks_created
            &&& final(queue)@.subrange(0, old(queue)@.len() as int) == old(queue)@
            &&& forall|j: int|
                0 <= j < files@.len() && (#[trigger] files@[j]).outcome is Text ==> {
                    &&& has_task(final(queue)@, files@[j].file_id, CleaningTaskType::TextCleanup)
                    &&& has_task(final(queue)@, files@[j].file_id, CleaningTaskType::MetadataExtraction)
                    &&& has_task(final(queue)@, files@[j].file_id, CleaningTaskType::FormatConversion)
                }
            &&& forall|i: int|
                old(queue)@.len() <= i < final(queue)@.len() ==> text_file_among(
                    files@,
                    files@.len() as int,
                    (#[trigger] final(queue)@[i]).file_id,
                )
            &&& (distinct_ids(files@) && fresh_for(old(queue)@, files@)) ==> t.tasks_created == 3
                * text_count(files@)
        },
{
    let ghost s0 = queue@;
    let ghost n0 = queue.next_id_spec();
    let mut texts_seen: usize = 0;
    let mut c: usize = 0;
    while c < files.len()
        invariant
            c <= files@.len(),
            texts_seen == text_count(files@.subrange(0, c as int)),
            texts_seen <= c,
        decreases files.len() - c,
    {
        assert(files@.subrange(0, c + 1).drop_last() =~= files@.subrange(0, c as int));
        if let FileOutcome::Text(_) = &files[c].outcome {
            texts_seen = texts_seen + 1;
        }
        c = c + 1;
    }
    assert(files@.subrange(0, files@.len() as int) =~= files@);
    if queue.next_id() as i128 + 3 * (texts_seen as i128) > i64::MAX as i128 {
        return Err(QueueError::IdsExhausted);
    }
    let mut processed: usize = 0;
    let mut errors: usize = 0;
    let mut tasks: usize = 0;
    let mut i: usize = 0;
    while i < files.len()
        invariant
            queue.wf(),
            i <= files@.len(),
            files@.len() * 3 <= usize::MAX,
            n0 as int + 3 * text_count(files@) <= i64::MAX as int,
            processed + errors == i,
            errors == unreadable_count(files@.subrange(0, i as int)),
            tasks <= 3 * text_count(files@.subrange(0, i as int)),
            tasks <= 3 * i,
            queue.next_id_spec() == n0 + tasks,
            queue@.len() == s0.len() + tasks,
            queue@.subrange(0, s0.len() as int) == s0,
            forall|j: int|
                0 <= j < i && (#[trigger] files@[j]).outcome is Text ==> {
                    &&& has_task(queue@, files@[j].file_id, CleaningTaskType::TextCleanup)
                    &&& has_task(queue@, files@[j].file_id, CleaningTaskType::MetadataExtraction)
                    &&& has_task(queue@, files@[j].file_id, CleaningTaskType::FormatConversion)
                },
            forall|k: int|
                s0.len() <= k < queue@.len() ==> text_file_among(files@, i as int, (#[trigger] queue@[k]).file_id),
            (distinct_ids(files@) && fresh_for(s0, files@)) ==> {
                &&& tasks == 3 * text_count(files@.subrange(0, i as int))
                &&& forall|j: int, t: CleaningTaskType|
                    i <= j < files@.len() ==> !#[trigger] has_task(queue@, files@[j].file_id, t)
            },
        decreases files.len() - i,
    {
        let ghost pre = files@.subrange(0, i as int);
        let ghost cur = files@.subrange(0, i + 1);
        assert(cur.drop_last() =~= pre);
        proof {
            lemma_text_count_prefix(files@, i + 1, files@.len() as int);
            assert(files@.subrange(0, files@.len() as int) =~= files@);
        }
        let ghost before = queue@;
        let f = &files[i];
        match &f.outcome {
            FileOutcome::Unreadable => {
                errors = errors + 1;
            },
            FileOutcome::Binary => {
                processed = processed + 1;
            },
            FileOutcome::Text(content) => {
                let res = create_cleaning_tasks(queue, f.file_id, content.as_str(), now);
                assert(res is Ok);
                let n = match res {
                    Ok(n) => n,
                    Err(e) => {
                        return Err(e);
                    },
                };
                proof {
                    assert(queue@.subrange(0, s0.len() as int) =~= queue@.subrange(0, before.len() as int).subrange(0, s0.len() as int));
                    assert forall|j: int|
                        0 <= j < i + 1 && (#[trigger] files@[j]).outcome is Text implies {
                            &&& has_task(queue@, files@[j].file_id, CleaningTaskType::TextCleanup)
                            &&& has_task(queue@, files@[j].file_id, CleaningTaskType::MetadataExtraction)
                            &&& has_task(queue@, files@[j].file_id, CleaningTaskType::FormatConversion)
                        } by {
                        if j < i {
                            lemma_has_task_extends(before, queue@, files@[j].file_id, CleaningTaskType::TextCleanup);
                            lemma_has_task_extends(before, queue@, files@[j].file_id, CleaningTaskType::MetadataExtraction);
                            lemma_has_task_extends(before, queue@, files@[j].file_id, CleaningTaskType::FormatConversion);
                        }
                    }
                    assert forall|k: int|
                        s0.len() <= k < queue@.len() implies text_file_among(files@, i + 1, (#[trigger] queue@[k]).file_id) by {
                        if k < before.len() {
                            assert(queue@.subrange(0, before.len() as int)[k] == queue@[k]);
                            assert(before[k] == queue@[k]);
                            assert(text_file_among(files@, i as int, before[k].file_id));
                            let w = choose|w: int| 0 <= w < i && w < files@.len() && #[trigger] files@[w].file_id == before[k].file_id && files@[w].outcome is Text;
                            assert(files@[w].file_id == queue@[k].file_id);
                        } else {
                            assert(files@[i as int].file_id == queue@[k].file_id);
                        }
                    }
                    if distinct_ids(files@) && fresh_for(s0, files@) {
                        assert(!has_task(before, files@[i as int].file_id, CleaningTaskType::TextCleanup));
                        assert(!has_task(before, files@[i as int].file_id, CleaningTaskType::MetadataExtraction));
                        assert(!has_task(before, files@[i as int].file_id, CleaningTaskType::FormatConversion));
                        assert forall|j: int, t: CleaningTaskType|
                            i + 1 <= j < files@.len() implies !#[trigger] has_task(queue@, files@[j].file_id, t) by {
                            assert(files@[i as int].file_id != files@[j].file_id);
                            assert(!has_task(before, files@[j].file_id, t));
                        }
                    }
                }
                tasks = tasks + n;
                processed = processed + 1;
            },
        }
        proof {
            if !(f.outcome is Text) {
                assert forall|k: int|
                    s0.len() <= k < queue@.len() implies text_file_among(files@, i + 1, (#[trigger] queue@[k]).file_id) by {
                    let w = choose|w: int| 0 <= w < i && w < files@.len() && #[trigger] files@[w].file_id == queue@[k].file_id && files@[w].outcome is Text;
                    assert(files@[w].file_id == queue@[k].file_id);
                }
            }
        }
        i = i + 1;
    }
    assert(files@.subrange(0, files@.len() as int) =~= files@);
    Ok(IngestionTally {
        total_files: files.len(),
        processed_files: processed,
        error_count: errors,
        tasks_created: tasks,
    })
}

/// Where an ingestion job stands.
#[derive(Debug, Clone, Copy, PartialEq, Eq, Structural)]
pub enum JobStatus {
    Pending,
    Running,
    Completed,
    Failed,
    Cancelled,
}

/// What a caller supplies to open an ingestion job.
pub struct CreateIngestionJob {
    pub source_path: String,
    pub job_type: String,
}

/// One ingestion run. `progress` is a percentage; times are milliseconds
/// since the Unix epoch.
pub struct IngestionJob {
    pub id: i64,
    pub source_path: String,
    pub job_type: String,
    pub status: JobStatus,
    pub progress: u32,
    pub total_files: i64,
    pub processed_files: i64,
    pub error_count: i64,
    pub created_at: i64,
    pub started_at: Option<i64>,
    pub completed_at: Option<i64>,
    pub error_message: Option<String>,
}

/// A job status that ends the job.
pub open spec fn is_terminal_job(s: JobStatus) -> bool {
    s == JobStatus::Completed || s == JobStatus::Failed || s == JobStatus::Cancelled
}

/// The percentage of `total` that `done` files make, capped at 100; 0 when
/// the total is unknown.
pub open spec fn percent_of(done: int, total: int) -> int {
    if total <= 0 || done <= 0 {
        0
    } else if done * 100 / total > 100 {
        100
    } else {
        done * 100 / total
    }
}

fn bump(n: i64) -> (r: i64)
    ensures
        r == if n < i64::MAX {
            n + 1
        } else {
            n as int
        },
{
    if n < i64::MAX {
        n + 1
    } else {
        n
    }
}

impl IngestionJob {
    /// A pending job with no files counted yet.
    pub fn new(id: i64, job: CreateIngestionJob, now: i64) -> (r: IngestionJob)
        ensures
            r.id == id,
            r.source_path@ == job.source_path@,
            r.job_type@ == job.job_type@,
            r.status == JobStatus::Pending,
            r.progress == 0,
            r.total_files == 0 && r.processed_files == 0 && r.error_count == 0,
            r.created_at == now,
            r.started_at is None && r.completed_at is None && r.error_message is None,
    {
        IngestionJob {
            id,
            source_path: job.source_path,
            job_type: job.job_type,
            status: JobStatus::Pending,
            progress: 0,
            total_files: 0,
            processed_files: 0,
            error_count: 0,
            created_at: now,
            started_at: None,
            completed_at: None,
            error_message: None,
        }
    }

    /// Starts a pending job with the number of files the walk will visit;
    /// any other status is left as it is and `false` returned.
    pub fn start(&mut self, total_files: i64, now: i64) -> (r: bool)
        ensures
            r == (old(self).status == JobStatus::Pending),
            r ==> final(self).status == JobStatus::Running && final(self).started_at == Some(now)
                && final(self).total_files == total_files,
            !r ==> final(self).status == old(self).status && final(self).total_files == old(self).total_files,
            final(self).progress == old(self).progress,
            final(self).processed_files == old(self).processed_files,
            final(self).error_count == old(self).error_count,
    {
        if self.status != JobStatus::Pending {
            return false;
        }
        self.status = JobStatus::Running;
        self.started_at = Some(now);
        self.total_files = total_files;
        true
    }

    /// Counts one more file of a running job, as processed or as failed,
    /// and raises the progress to match (never lowering it).
    pub fn record_file(&mut self, ok: bool)
        ensures
            final(self).status == old(self).status,
            final(self).total_files == old(self).total_files,
            old(self).status == JobStatus::Running ==> {
                &&& ok ==> final(self).processed_files == if old(self).processed_files < i64::MAX {
                    old(self).processed_files + 1
                } else {
                    old(self).processed_files as int
                }
                &&& ok ==> final(self).error_count == old(self).error_count
                &&& !ok ==> final(self).error_count == if old(self).error_count < i64::MAX {
                    old(self).error_count + 1
                } else {
                    old(self).error_count as int
                }
                &&& !ok ==> final(self).processed_files == old(self).processed_files
                &&& final(self).progress as int == if percent_of(
                    final(self).processed_files + final(self).error_count,
                    final(self).total_files as int,
                ) > old(self).progress {
                    percent_of(
                        final(self).processed_files + final(self).error_count,
                        final(self).total_files as int,
                    )
                } else {
                    old(self).progress as int
                }
            },
            old(self).status != JobStatus::Running ==> final(self).processed_files == old(self).processed_files && final(self).error_count == old(self).error_count && final(self).progress == old(self).progress,
            final(self).progress >= old(self).progress,
    {
        if self.status != JobStatus::Running {
            return ;
        }
        if ok {
            self.processed_files = bump(self.processed_files);
        } else {
            self.error_count = bump(self.error_count);
        }
        let p = job_percent(self.processed_files, self.error_count, self.total_files);
        if p > self.progress {
            self.progress = p;
        }
    }

    /// Finishes a running job: progress 100, completed at `now`.
    pub fn complete(&mut self, now: i64) -> (r: bool)
        ensures
            r == (old(self).status == JobStatus::Running),
            r ==> final(self).status == JobStatus::Completed && final(self).progress == 100
                && final(self).completed_at == Some(now),
            !r ==> final(self).status == old(self).status && final(self).progress == old(self).progress,
            final(self).progress >= old(self).progress || old(self).progress > 100,
            final(self).processed_files == old(self).processed_files,
            final(self).error_count == old(self).error_count,
    {
        if self.status != JobStatus::Running {
            return false;
        }
        self.status = JobStatus::Completed;
        self.progress = 100;
        self.completed_at = Some(now);
        true
    }

    /// Ends a job that has not ended yet as failed, with a message.
    pub fn fail(&mut self, message: String, now: i64) -> (r: bool)
        ensures
            r == !is_terminal_job(old(self).status),
            r ==> final(self).status == JobStatus::Failed && final(self).completed_at == Some(now)
                && text_opt(final(self).error_message) == Some(message@),
            !r ==> final(self).status == old(self).status,
            final(self).progress == old(self).progress,
    {
        if self.status == JobStatus::Completed || self.status == JobStatus::Failed || self.status
            == JobStatus::Cancelled {
            return false;
        }
        self.status = JobStatus::Failed;
        self.completed_at = Some(now);
        self.error_message = Some(message);
        true
    }

    /// Ends a job that has not ended yet as cancelled.
    pub fn cancel(&mut self, now: i64) -> (r: bool)
        ensures
            r == !is_terminal_job(old(self).status),
            r ==> final(self).status == JobStatus::Cancelled && final(self).completed_at == Some(now),
            !r ==> final(self).status == old(self).status,
            final(self).progress == old(self).progress,
    {
        if self.status == JobStatus::Completed || self.status == JobStatus::Failed || self.status
            == JobStatus::Cancelled {
            return false;
        }
        self.status = JobStatus::Cancelled;
        self.completed_at = Some(now);
        true
    }
}

fn job_percent(processed: i64, errors: i64, total: i64) -> (r: u32)
    ensures
        r as int == percent_of(processed + errors, total as int),
        r <= 100,
{
    if total <= 0 {
        return 0;
    }
    let done = processed as i128 + errors as i128;
    if done <= 0 {
        return 0;
    }
    let p = done * 100 / (total as i128);
    if p > 100 {
        100
    } else if p < 0 {
        0
    } else {
        p as u32
    }
}

/// Totals over ingestion jobs.
pub struct IngestionJobStats {
    pub total_jobs: i64,
    pub pending_jobs: i64,
    pub running_jobs: i64,
    pub completed_jobs: i64,
    pub failed_jobs: i64,
    pub total_files_processed: i64,
    pub total_errors: i64,
}

/// Number of jobs of `js` with status `st`.
pub open spec fn jobs_with(js: Seq<IngestionJob>, st: JobStatus) -> int
    decreases js.len(),
{
    if js.len() == 0 {
        0
    } else {
        jobs_with(js.drop_last(), st) + if js.last().status == st {
            1int
        } else {
            0int
        }
    }
}

/// Sum of processed files (`errors` false) or of errors (`errors` true).
pub open spec fn job_sum(js: Seq<IngestionJob>, errors: bool) -> int
    decreases js.len(),
{
    if js.len() == 0 {
        0
    } else {
        job_sum(js.drop_last(), errors) + if errors {
            js.last().error_count as int
        } else {
            js.last().processed_files as int
        }
    }
}

/// `n` clamped to the range of `i64`.
pub open spec fn clamp64(n: int) -> i64 {
    if n > i64::MAX as int {
        i64::MAX
    } else if n < i64::MIN as int {
        i64::MIN
    } else {
        n as i64
    }
}

fn clamp_exec(n: i128) -> (r: i64)
    ensures
        r == clamp64(n as int),
{
    if n > i64::MAX as i128 {
        i64::MAX
    } else if n < i64::MIN as i128 {
        i64::MIN
    } else {
        n as i64
    }
}

proof fn lemma_jobs_with_bound(js: Seq<IngestionJob>, st: JobStatus)
    ensures
        0 <= jobs_with(js, st) <= js.len(),
    decreases js.len(),
{
    if js.len() > 0 {
        lemma_jobs_with_bound(js.drop_last(), st);
    }
}

proof fn lemma_job_sum_bound(js: Seq<IngestionJob>, e: bool)
    ensures
        -(js.len() as int) * 0x8000_0000_0000_0000 <= job_sum(js, e) <= (js.len() as int)
            * 0x8000_0000_0000_0000,
    decreases js.len(),
{
    if js.len() > 0 {
        lemma_job_sum_bound(js.drop_last(), e);
    }
}

/// Counts of jobs by status and the totals of processed files and errors
/// (each clamped to the range of `i64`).
pub fn get_ingestion_stats(jobs: &Vec<IngestionJob>) -> (r: IngestionJobStats)
    ensures
        r.total_jobs == clamp64(jobs@.len() as int),
        r.pending_jobs == clamp64(jobs_with(jobs@, JobStatus::Pending)),
        r.running_jobs == clamp64(jobs_with(jobs@, JobStatus::Running)),
        r.completed_jobs == clamp64(jobs_with(jobs@, JobStatus::Completed)),
        r.failed_jobs == clamp64(jobs_with(jobs@, JobStatus::Failed)),
        r.total_files_processed == clamp64(job_sum(jobs@, false)),
        r.total_errors == clamp64(job_sum(jobs@, true)),
{
    let n = jobs.len();
    let mut counts: [i128; 4] = [0, 0, 0, 0];
    let mut processed: i128 = 0;
    let mut errors: i128 = 0;
    let mut i: usize = 0;
    while i < n
        invariant
            n == jobs@.len(),
            i <= n,
            counts@[0] == jobs_with(jobs@.subrange(0, i as int), JobStatus::Pending),
            counts@[1] == jobs_with(jobs@.subrange(0, i as int), JobStatus::Running),
            counts@[2] == jobs_with(jobs@.subrange(0, i as int), JobStatus::Completed),
            counts@[3] == jobs_with(jobs@.subrange(0, i as int), JobStatus::Failed),
            processed == job_sum(jobs@.subrange(0, i as int), false),
            errors == job_sum(jobs@.subrange(0, i as int), true),
        decreases n - i,
    {
        let ghost pre = jobs@.subrange(0, i as int);
        let ghost cur = jobs@.subrange(0, i + 1);
        assert(cur.drop_last() =~= pre);
        proof {
            lemma_jobs_with_bound(pre, JobStatus::Pending);
            lemma_jobs_with_bound(pre, JobStatus::Running);
            lemma_jobs_with_bound(pre, JobStatus::Completed);
            lemma_jobs_with_bound(pre, JobStatus::Failed);
            lemma_job_sum_bound(pre, false);
            lemma_job_sum_bound(pre, true);
        }
        assert((i as int) * 0x8000_0000_0000_0000 + 0x8000_0000_0000_0000 <= 0x7fff_ffff_ffff_ffff_ffff_ffff_ffff_ffff) by (nonlinear_arith)
            requires
                i < n,
                n <= usize::MAX,
        ;
        let j = &jobs[i];
        match j.status {
            JobStatus::Pending => {
                counts.set(0, counts[0] + 1);
            },
            JobStatus::Running => {
                counts.set(1, counts[1] + 1);
            },
            JobStatus::Completed => {
                counts.set(2, counts[2] + 1);
            },
            JobStatus::Failed => {
                counts.set(3, counts[3] + 1);
            },
            JobStatus::Cancelled => {},
        }
        processed = processed + j.processed_files as i128;
        errors = errors + j.error_count as i128;
        i = i + 1;
    }
    assert(jobs@.subrange(0, n as int) =~= jobs@);
    IngestionJobStats {
        total_jobs: clamp_exec(n as i128),
        pending_jobs: clamp_exec(counts[0]),
        running_jobs: clamp_exec(counts[1]),
        completed_jobs: clamp_exec(counts[2]),
        failed_jobs: clamp_exec(counts[3]),
        total_files_processed: clamp_exec(processed),
        total_errors: clamp_exec(errors),
    }
}

/// The MIME type that the extension table gives a path (`text/plain` when
/// the extension is missing or unknown); it depends on the path alone.
pub uninterp spec fn mime_of(path: Seq<char>) -> Seq<char>;

/// Relies on `mime_guess::from_path(..).first_or_text_plain()`: a lookup of
/// the path's extension in a fixed table.
#[verifier::external_body]
fn guess_mime(path: &str) -> (r: String)
    ensures
        r@ == mime_of(path@),
{
    mime_guess::from_path(path).first_or_text_plain().to_string()
}

/// The lowercase hexadecimal SHA-256 digest of some bytes.
pub uninterp spec fn sha256_hex_of(bytes: Seq<u8>) -> Seq<char>;

/// Relies on `sha2::Sha256::digest`, printed as lowercase hexadecimal: 64
/// characters that depend on the bytes alone.
#[verifier::external_body]
fn sha256_hex(bytes: &Vec<u8>) -> (r: String)
    ensures
        r@ == sha256_hex_of(bytes@),
        r@.len() == 64,
{
    format!("{:x}", <sha2::Sha256 as sha2::Digest>::digest(bytes.as_slice()))
}

/// What ingestion learns of one file before reading it as text.
pub struct FileFingerprint {
    pub mime_type: String,
    pub content_hash: String,
}

/// The MIME type of a path (by its extension) and the SHA-256 digest of
/// the file's bytes.
pub fn fingerprint(path: &str, bytes: &Vec<u8>) -> (r: FileFingerprint)
    ensures
        r.mime_type@ == mime_of(path@),
        r.content_hash@ == sha256_hex_of(bytes@),
{
    FileFingerprint { mime_type: guess_mime(path), content_hash: sha256_hex(bytes) }
}

/// Whether a file's content differs from what was last seen: always for a
/// file not seen before.
pub fn content_changed(previous_hash: Option<&str>, current_hash: &str) -> (r: bool)
    ensures
        r == match previous_hash {
            Some(h) => h@ != current_hash@,
            None => true,
        },
{
    match previous_hash {
        Some(h) => !text_eq(h, current_hash),
        None => true,
    }
}

/// What a [`FileMetadata`] record holds, as mathematical values.
pub struct FileRecordView {
    pub id: i64,
    pub filename: Seq<char>,
    pub filepath: Seq<char>,
    pub filesize: i64,
    pub mimetype: Seq<char>,
    pub created_at: Seq<char>,
}

pub open spec fn file_view(f: FileMetadata) -> FileRecordView {
    FileRecordView {
        id: f.id,
        filename: f.filename@,
        filepath: f.filepath@,
        filesize: f.filesize,
        mimetype: f.mimetype@,
        created_at: f.created_at@,
    }
}

/// Files known to ingestion, one record per path; ids strictly increase.
pub struct FileRegistry {
    files: Vec<FileMetadata>,
    next_id: i64,
}

impl View for FileRegistry {
    type V = Seq<FileRecordView>;

    closed spec fn view(&self) -> Seq<FileRecordView> {
        self.files@.map_values(|f: FileMetadata| file_view(f))
    }
}

/// Where the record for `path` stands in `s`, if there is one.
pub open spec fn path_index(s: Seq<FileRecordView>, path: Seq<char>) -> Option<int> {
    if exists|i: int| 0 <= i < s.len() && #[trigger] s[i].filepath == path {
        Some(choose|i: int| 0 <= i < s.len() && #[trigger] s[i].filepath == path)
    } else {
        None
    }
}

/// Why a file could not be registered.
#[derive(Debug, Clone, Copy, PartialEq, Eq, Structural)]
pub enum RegistryError {
    /// Every file id has been handed out.
    IdsExhausted,
}

impl FileRegistry {
    /// The id the next new path receives.
    pub closed spec fn next_id_spec(&self) -> i64 {
        self.next_id
    }

    /// Paths are unique, ids positive and below the next id.
    pub closed spec fn wf(&self) -> bool {
        &&& self.next_id >= 1
        &&& forall|i: int| 0 <= i < self@.len() ==> 1 <= #[trigger] self@[i].id < self.next_id
        &&& forall|i: int, j: int|
            0 <= i < j < self@.len() ==> #[trigger] self@[i].filepath != #[trigger] self@[j].filepath
    }

    /// An empty registry.
    pub fn new() -> (r: FileRegistry)
        ensures
            r.wf(),
            r@.len() == 0,
    {
        FileRegistry { files: Vec::new(), next_id: 1 }
    }

    /// The records, in order of first sight.
    pub fn files(&self) -> (r: &Vec<FileMetadata>)
        ensures
            r@.map_values(|f: FileMetadata| file_view(f)) == self@,
    {
        &self.files
    }

    fn find_path(&self, path: &str) -> (r: Option<usize>)
        requires
            self.wf(),
        ensures
            r matches Some(k) ==> path_index(self@, path@) == Some(k as int),
            r is None ==> path_index(self@, path@) is None,
    {
        let mut i: usize = 0;
        while i < self.files.len()
            invariant
                self.wf(),
                i <= self@.len(),
                forall|k: int| 0 <= k < i ==> #[trigger] self@[k].filepath != path@,
            decreases self@.len() - i,
        {
            assert(self@[i as int] == file_view(self.files@[i as int]));
            if text_eq(self.files[i].filepath.as_str(), path) {
                proof {
                    let k = choose|k: int| 0 <= k < self@.len() && #[trigger] self@[k].filepath == path@;
                    if k != i {
                        if k < i {
                            assert(self@[k].filepath != self@[i as int].filepath);
                        } else {
                            assert(self@[i as int].filepath != self@[k].filepath);
                        }
                    }
                }
                return Some(i);
            }
            i = i + 1;
        }
        None
    }

    /// Registers a file seen at `filepath`: a path seen before keeps its id
    /// and gets the new size and MIME type; a new path gets a fresh id.
    /// Returns the id and whether the path was new.
    pub fn register_file(
        &mut self,
        filename: &str,
        filepath: &str,
        filesize: i64,
        mimetype: &str,
        now: &str,
    ) -> (r: Result<(i64, bool), RegistryError>)
        requires
            old(self).wf(),
        ensures
            final(self).wf(),
            r is Err <==> (path_index(old(self)@, filepath@) is None && old(self).next_id_spec()
                == i64::MAX),
            r matches Ok((id, true)) ==> id == old(self).next_id_spec() && final(self).next_id_spec()
                == id + 1,
            r matches Ok((_, false)) ==> final(self).next_id_spec() == old(self).next_id_spec(),
            r is Err ==> final(self).next_id_spec() == old(self).next_id_spec(),
            match path_index(old(self)@, filepath@) {
                Some(k) => {
                    let f = old(self)@[k];
                    &&& r == Ok::<(i64, bool), RegistryError>((f.id, false))
                    &&& final(self)@ == old(self)@.update(
                        k,
                        FileRecordView { filesize, mimetype: mimetype@, ..f },
                    )
                },
                None => match r {
                    Ok((id, is_new)) => {
                        &&& is_new
                        &&& final(self)@ == old(self)@.push(
                            FileRecordView {
                                id,
                                filename: filename@,
                                filepath: filepath@,
                                filesize,
                                mimetype: mimetype@,
                                created_at: now@,
                            },
                        )
                        &&& forall|i: int| 0 <= i < old(self)@.len() ==> #[trigger] old(self)@[i].id < id
                    },
                    Err(_) => final(self)@ == old(self)@,
                },
            },
    {
        match self.find_path(filepath) {
            Some(k) => {
                let ghost before = self@;
                let id = self.files[k].id;
                let mut f = FileMetadata {
                    id,
                    filename: self.files[k].filename.clone(),
                    filepath: self.files[k].filepath.clone(),
                    filesize,
                    mimetype: String::from_str(mimetype),
                    created_at: self.files[k].created_at.clone(),
                };
                self.files.set(k, f);
                assert(self@ =~= before.update(
                    k as int,
                    FileRecordView { filesize, mimetype: mimetype@, ..before[k as int] },
                ));
                assert forall|i: int, j: int| 0 <= i < j < self@.len() implies #[trigger] self@[i].filepath
                    != #[trigger] self@[j].filepath by {
                    assert(before[i].filepath != before[j].filepath);
                }
                assert(path_index(before, filepath@) == Some(k as int));
                assert(before[k as int].id == id);
                Ok((id, false))
            },
            None => {
                if self.next_id == i64::MAX {
                    return Err(RegistryError::IdsExhausted);
                }
                let id = self.next_id;
                let ghost before = self@;
                let f = FileMetadata {
                    id,
                    filename: String::from_str(filename),
                    filepath: String::from_str(filepath),
                    filesize,
                    mimetype: String::from_str(mimetype),
                    created_at: String::from_str(now),
                };
                self.files.push(f);
                self.next_id = id + 1;
                let ghost nv = FileRecordView {
                    id,
                    filename: filename@,
                    filepath: filepath@,
                    filesize,
                    mimetype: mimetype@,
                    created_at: now@,
                };
                assert(self@ =~= before.push(nv));
                assert(forall|i: int| 0 <= i < before.len() ==> #[trigger] before[i].id < id);
                assert(path_index(before, filepath@) is None);
                assert forall|i: int, j: int| 0 <= i < j < self@.len() implies #[trigger] self@[i].filepath
                    != #[trigger] self@[j].filepath by {
                    if j == before.len() {
                        assert(before[i].filepath != filepath@);
                    } else {
                        assert(before[i].filepath != before[j].filepath);
                    }
                }
                Ok((id, true))
            },
        }
    }
}

} // verus!
