use play_core::analysis::{detect_content_type, detect_language, text_statistics};
use play_core::chunker::{chunk_content, chunk_text};
use play_core::extract::{ExtractionKind, FileProcessor};
use play_core::transforms::{clean_lines, normalize_format};

#[test]
fn word_chunks_without_overlap() {
    let r = chunk_text("a b c d e", 2, 0).unwrap();
    assert_eq!(r, vec!["a b", "c d", "e"]);
}

#[test]
fn word_chunks_with_overlap() {
    let r = chunk_text("one two three four five", 3, 1).unwrap();
    assert_eq!(r, vec!["one two three", "three four five"]);
}

#[test]
fn word_chunks_progress_when_overlap_exceeds_size() {
    let r = chunk_text("a b c", 2, 5).unwrap();
    assert_eq!(r, vec!["a b", "b c"]);
}

#[test]
fn word_chunks_reject_zero_size() {
    assert!(chunk_text("a b", 0, 0).is_err());
}

#[test]
fn word_chunks_of_empty_text() {
    assert_eq!(chunk_text("   ", 3, 1).unwrap(), Vec::<String>::new());
}

#[test]
fn char_chunks_short_text_is_one_chunk() {
    assert_eq!(chunk_content("hello", 10), vec!["hello"]);
    assert_eq!(chunk_content("", 10), vec![""]);
}

#[test]
fn char_chunks_back_off_to_whitespace() {
    let r = chunk_content("hello world foo", 8);
    assert_eq!(r, vec!["hello", "world", "foo"]);
    let rebuilt = r.join(" ");
    assert_eq!(rebuilt, "hello world foo");
    for c in &r {
        assert!(c.chars().count() <= 8);
    }
}

#[test]
fn char_chunks_cut_long_words() {
    let r = chunk_content("abcdefghij", 4);
    assert_eq!(r, vec!["abcd", "efgh", "ij"]);
}

#[test]
fn text_cleanup_strips_blank_lines_and_trailing_space() {
    assert_eq!(clean_lines("  a  \n\n   \nb\t\r\nc"), "  a\nb\nc");
    assert_eq!(clean_lines(""), "");
}

#[test]
fn format_conversion_normalises_endings_and_blank_runs() {
    let r = normalize_format("a\r\nb\r\n\n\n\n\nc  ");
    assert_eq!(r.text, "a\nb\n\n\nc");
    assert!(r.utf8_valid);
    assert_eq!(r.original_size, 13);
    assert_eq!(r.converted_size, 7);
    assert_eq!(r.special_chars, 0);
    let s = normalize_format("caf\u{e9}\rx");
    assert_eq!(s.text, "caf\u{e9}\nx");
    assert_eq!(s.special_chars, 1);
    assert_eq!(s.original_size, 7);
}

#[test]
fn extraction_cleaning_trims_everything() {
    assert_eq!(FileProcessor::clean_text("  a \r\n\r\n b  \r c "), "a\nb\nc");
}

#[test]
fn extraction_route_by_mime() {
    assert_eq!(FileProcessor::extraction_kind("text/plain"), ExtractionKind::PlainText);
    assert_eq!(FileProcessor::extraction_kind("text/html"), ExtractionKind::Html);
    assert_eq!(FileProcessor::extraction_kind("application/pdf"), ExtractionKind::Pdf);
    assert_eq!(FileProcessor::extraction_kind("application/json"), ExtractionKind::Json);
    assert_eq!(FileProcessor::extraction_kind("image/png"), ExtractionKind::PlainText);
}

#[test]
fn statistics_of_empty_text_are_zero() {
    let s = text_statistics("");
    assert_eq!(s.total_lines, 0);
    assert_eq!(s.total_words, 0);
    assert_eq!(s.unique_words, 0);
    assert_eq!(s.total_characters, 0);
    assert_eq!(s.characters_no_spaces, 0);
    assert_eq!(s.reading_time_minutes, 0);
    assert_eq!(s.complexity_score, 0);
}

#[test]
fn statistics_of_a_sample() {
    let s = text_statistics("The cat. The dog!\n\nA bird");
    assert_eq!(s.total_lines, 3);
    assert_eq!(s.empty_lines, 1);
    assert_eq!(s.non_empty_lines, 2);
    assert_eq!(s.total_words, 6);
    assert_eq!(s.unique_words, 5);
    assert_eq!(s.total_characters, 25);
    assert_eq!(s.characters_no_spaces, 19);
    assert_eq!(s.reading_time_minutes, 1);
    assert_eq!(s.sentence_count, 2);
    // word length 100*19/6 -> 300; sentence length 50*6/3 = 100; symbols and capitals capped at 200 each
    assert_eq!(s.complexity_score, 800);
    assert!(!s.has_numbers);
    assert!(s.has_special_chars);
    let t = text_statistics("version 2 is here");
    assert!(t.has_numbers);
    assert!(!t.has_special_chars);
}

#[test]
fn content_type_keywords() {
    assert_eq!(detect_content_type("The API endpoint"), "technical_documentation");
    assert_eq!(detect_content_type("def main(): pass"), "code");
    assert_eq!(detect_content_type("Dear Bob, kind regards"), "email");
    assert_eq!(detect_content_type("Meeting agenda"), "meeting_notes");
    assert_eq!(detect_content_type("hello"), "general_text");
}

#[test]
fn language_from_stop_words() {
    assert_eq!(detect_language("the cat and the dog"), "english");
    assert_eq!(detect_language("qqq"), "unknown");
    assert_eq!(detect_language("xyz"), "spanish");
    assert_eq!(detect_language("ou pour le"), "french");
}
