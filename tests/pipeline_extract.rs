use play_core::analysis::{classify_lowered, language_of_lowered};
use play_core::extract::join_spaced;
use play_core::ics::{calendar_text, CalendarEvent};
use play_core::ingestion::is_text_extension_lowered;
use play_core::cleaning::{transform_step, CleaningQueue, CleaningTaskType, CreateCleaningTask, QueueError, TaskStatus, TransformStep};
use play_core::extract::FileProcessor;
use play_core::ingestion::{content_changed, fingerprint, FileRegistry};

#[test]
fn fingerprint_uses_extension_and_digest() {
    let f = fingerprint("notes/readme.md", &b"abc".to_vec());
    assert_eq!(f.mime_type, "text/markdown");
    assert_eq!(f.content_hash, "ba7816bf8f01cfea414140de5dae2223b00361a396177a9cb410ff61f20015ad");
    let g = fingerprint("noext", &vec![]);
    assert_eq!(g.mime_type, "text/plain");
    assert!(content_changed(None, &f.content_hash));
    assert!(!content_changed(Some(&f.content_hash), &f.content_hash));
    assert!(content_changed(Some("00"), &f.content_hash));
}

#[test]
fn registry_keys_files_by_path() {
    let mut r = FileRegistry::new();
    let (a, new_a) = r.register_file("a.txt", "/d/a.txt", 11, "text/plain", "t0").unwrap();
    let (b, new_b) = r.register_file("b.bin", "/d/b.bin", 5, "application/octet-stream", "t0").unwrap();
    assert!(new_a && new_b && a != b);
    let (a2, new_a2) = r.register_file("a.txt", "/d/a.txt", 20, "text/markdown", "t1").unwrap();
    assert_eq!(a2, a);
    assert!(!new_a2);
    assert_eq!(r.files().len(), 2);
    assert_eq!(r.files()[0].filesize, 20);
    assert_eq!(r.files()[0].mimetype, "text/markdown");
    assert_eq!(r.files()[0].created_at, "t0");
}

#[test]
fn docx_runs_become_spaced_text() {
    let xml = r#"<w:p><w:r><w:t>Hello</w:t></w:r><w:r><w:t xml:space="preserve"> world</w:t></w:r></w:p>"#;
    assert_eq!(FileProcessor::extract_text_from_docx_xml(xml), "Hello  world ");
}

#[test]
fn slide_text_is_trimmed() {
    let xml = "<a:t>  Title </a:t><a:t> </a:t><a:t>Body</a:t>";
    assert_eq!(FileProcessor::extract_text_from_xml(xml), "Title Body ");
}

#[test]
fn pdf_text_falls_back_to_placeholder() {
    let placeholder = "PDF file processed - no extractable text found. This may be a scanned document that requires OCR.";
    assert_eq!(FileProcessor::pdf_text(None), placeholder);
    assert_eq!(FileProcessor::pdf_text(Some("   \n ")), placeholder);
    assert_eq!(FileProcessor::pdf_text(Some("extraction failed here")), placeholder);
    assert_eq!(FileProcessor::pdf_text(Some(" Page one \r\n\r\n two ")), "Page one\ntwo");
}

#[test]
fn transform_steps_by_type() {
    assert!(matches!(transform_step(CleaningTaskType::TextCleanup, "x"), TransformStep::Cleanup));
    assert!(matches!(transform_step(CleaningTaskType::MetadataExtraction, "x"), TransformStep::Analyse));
    assert!(matches!(transform_step(CleaningTaskType::FormatConversion, "x"), TransformStep::Convert));
    match transform_step(CleaningTaskType::DuplicateRemoval, "abc") {
        TransformStep::AskModel(p) => {
            assert!(p.starts_with("Please identify and remove duplicate content"));
            assert!(p.ends_with(":\n\nabc"));
        }
        _ => panic!("expected a model prompt"),
    }
}

#[test]
fn finished_cleanup_is_handed_to_indexing() {
    let mut q = CleaningQueue::new();
    let c = q
        .create_cleaning_task(
            CreateCleaningTask { file_id: 4, task_type: CleaningTaskType::TextCleanup, priority: None, input_content: None },
            1,
        )
        .unwrap();
    let m = q
        .create_cleaning_task(
            CreateCleaningTask { file_id: 4, task_type: CleaningTaskType::MetadataExtraction, priority: None, input_content: None },
            1,
        )
        .unwrap();
    assert!(matches!(q.finish_task(c.id, Ok("x".to_string()), 2), Err(QueueError::InvalidTransition)));
    q.start_task(c.id, 2).unwrap();
    q.start_task(m.id, 2).unwrap();
    let req = q.finish_task(c.id, Ok("clean".to_string()), 3).unwrap().unwrap();
    assert_eq!(req.content_id, 4);
    assert_eq!(req.content_type, "cleaned_file");
    assert_eq!(req.content, "clean");
    assert!(q.finish_task(m.id, Err("boom".to_string()), 4).unwrap().is_none());
    assert_eq!(q.get_cleaning_task(m.id).unwrap().status, TaskStatus::Failed);
    assert_eq!(q.get_cleaning_task(c.id).unwrap().status, TaskStatus::Completed);
}

#[test]
fn html_markup_becomes_lines() {
    let html = "<html><body><h1>Title</h1><p>First <b>bold</b> para</p><ul><li>one</li><li>two</li></ul></body></html>";
    assert_eq!(FileProcessor::html_to_text(html), "Title\nFirst bold para\n\u{2022} one\n\u{2022} two");
    assert_eq!(FileProcessor::html_to_text("a<br>b<unclosed c"), "a\nb");
}

#[test]
fn text_metadata_title_author_keywords() {
    let mut m = play_core::extract::ContentMetadata {
        title: None,
        author: None,
        created_date: None,
        modified_date: None,
        page_count: None,
        word_count: None,
        language: None,
        subject: None,
        keywords: vec!["stale".to_string()],
        file_size: 0,
        mime_type: "text/plain".to_string(),
    };
    let text = "A long enough title line\nBy: Someone\nzeta rust rust Rust! verus verus (verus) abc abc abc zeta zeta";
    FileProcessor::extract_text_metadata(text, &mut m);
    assert_eq!(m.title, Some("A long enough title line".to_string()));
    assert_eq!(m.author, Some("By: Someone".to_string()));
    assert_eq!(m.keywords, vec!["rust".to_string(), "verus".to_string(), "zeta".to_string()]);
    FileProcessor::extract_pdf_metadata(&mut m);
    assert_eq!(m.page_count, Some(1));
    assert_eq!(FileProcessor::word_count("a b  c"), 3);
}

#[test]
fn keywords_stop_at_ten() {
    let mut text = String::new();
    for w in ["kappa", "alpha", "delta", "gamma", "omega", "sigma", "theta", "lambda", "beta", "iota", "zeta", "epsilon"] {
        for _ in 0..3 {
            text.push_str(w);
            text.push(' ');
        }
    }
    let mut m = play_core::extract::ContentMetadata {
        title: None,
        author: None,
        created_date: None,
        modified_date: None,
        page_count: None,
        word_count: None,
        language: None,
        subject: None,
        keywords: vec![],
        file_size: 0,
        mime_type: "text/plain".to_string(),
    };
    FileProcessor::extract_text_metadata(&text, &mut m);
    assert_eq!(
        m.keywords,
        vec!["alpha", "beta", "delta", "epsilon", "gamma", "iota", "kappa", "lambda", "omega", "sigma"]
    );
}

#[test]
fn functions_after_outside_calls() {
    assert_eq!(classify_lowered("our research study"), "research");
    assert_eq!(classify_lowered("Research"), "general_text");
    assert_eq!(language_of_lowered("el perro y la casa"), "spanish");
    assert!(is_text_extension_lowered("toml"));
    assert!(!is_text_extension_lowered("TOML"));
    assert_eq!(join_spaced(&vec![" a ".to_string(), "".to_string(), "b".to_string()], true), "a b ");
    assert_eq!(join_spaced(&vec![" a ".to_string(), "b".to_string()], false), " a  b ");
    let ev = CalendarEvent {
        id: -3,
        title: "T".to_string(),
        description: Some("x;y".to_string()),
        start_time: String::new(),
        end_time: String::new(),
        reminder_time: None,
        recurrence: None,
        created_at: String::new(),
    };
    let doc = calendar_text(&vec![ev], &vec![("S".to_string(), "E".to_string())]);
    assert_eq!(
        doc,
        "BEGIN:VCALENDAR\r\nVERSION:2.0\r\nPRODID:-//Play//Play MVP//EN\r\nBEGIN:VEVENT\r\nUID:-3\r\nSUMMARY:T\r\nDESCRIPTION:x\\;y\r\nDTSTART:S\r\nDTEND:E\r\nEND:VEVENT\r\nEND:VCALENDAR\r\n"
    );
}
