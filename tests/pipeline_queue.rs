use play_core::cleaning::{CleaningQueue, CleaningTaskType, CreateCleaningTask, QueueError, TaskStatus};
use play_core::ics::{escape_ics_text, parse_ics_to_iso, CalendarEvent, ICSService, NotificationService};
use play_core::ingestion::{
    create_cleaning_tasks, extract_metadata, get_ingestion_stats, is_readable_text, is_text_extension,
    is_text_file, is_zip_file, looks_like_text, register_files, CreateIngestionJob, DiscoveredFile,
    FileOutcome, IngestionJob, JobStatus,
};
use play_core::insights::{content_quality_insights, QualityInsight};
use play_core::progress::{progress_event, should_pause, ProgressKind};
use play_core::records::UserSettings;

fn task(file_id: i64, t: CleaningTaskType, priority: i64) -> CreateCleaningTask {
    CreateCleaningTask { file_id, task_type: t, priority: Some(priority), input_content: Some("x".to_string()) }
}

#[test]
fn task_type_names_round_trip() {
    for t in [
        CleaningTaskType::TextCleanup,
        CleaningTaskType::StructureRepair,
        CleaningTaskType::MetadataExtraction,
        CleaningTaskType::ContentNormalization,
        CleaningTaskType::DuplicateRemoval,
        CleaningTaskType::FormatConversion,
    ] {
        assert_eq!(CleaningTaskType::from_str(t.as_str()), Ok(t));
    }
    assert_eq!(CleaningTaskType::TextCleanup.to_string(), "text_cleanup");
    assert_eq!(
        CleaningTaskType::from_str("bogus"),
        Err("Unknown cleaning task type: bogus".to_string())
    );
    assert_eq!(TaskStatus::parse("running"), Some(TaskStatus::Running));
    assert_eq!(TaskStatus::parse("in_progress"), None);
}

#[test]
fn task_lifecycle_is_monotonic() {
    let mut q = CleaningQueue::new();
    let t = q.create_cleaning_task(task(1, CleaningTaskType::TextCleanup, 1), 100).unwrap();
    assert_eq!(t.status, TaskStatus::Pending);
    assert_eq!(q.complete_task(t.id, "out".to_string(), 150), Err(QueueError::InvalidTransition));
    q.start_task(t.id, 200).unwrap();
    assert_eq!(q.start_task(t.id, 201), Err(QueueError::InvalidTransition));
    q.complete_task(t.id, "out".to_string(), 190).unwrap();
    let done = q.get_cleaning_task(t.id).unwrap();
    assert_eq!(done.status, TaskStatus::Completed);
    assert_eq!(done.started_at, Some(200));
    assert_eq!(done.completed_at, Some(200));
    assert_eq!(done.output_content, Some("out".to_string()));
    assert_eq!(q.start_task(t.id, 300), Err(QueueError::InvalidTransition));
    assert_eq!(q.fail_task(t.id, "e".to_string(), 300), Err(QueueError::InvalidTransition));
    assert_eq!(q.start_task(99, 300), Err(QueueError::NotFound));
}

#[test]
fn failed_task_keeps_message() {
    let mut q = CleaningQueue::new();
    let t = q.create_cleaning_task(task(1, CleaningTaskType::MetadataExtraction, 2), 10).unwrap();
    q.fail_task(t.id, "boom".to_string(), 20).unwrap();
    let f = q.get_cleaning_task(t.id).unwrap();
    assert_eq!(f.status, TaskStatus::Failed);
    assert_eq!(f.error_message, Some("boom".to_string()));
    assert_eq!(f.completed_at, Some(20));
    assert!(q.delete_cleaning_task(t.id));
    assert!(q.get_cleaning_task(t.id).is_none());
}

#[test]
fn pending_tasks_by_priority_then_age() {
    let mut q = CleaningQueue::new();
    let a = q.create_cleaning_task(task(1, CleaningTaskType::TextCleanup, 1), 10).unwrap();
    let b = q.create_cleaning_task(task(1, CleaningTaskType::FormatConversion, 3), 20).unwrap();
    let c = q.create_cleaning_task(task(2, CleaningTaskType::FormatConversion, 3), 5).unwrap();
    let d = q.create_cleaning_task(task(2, CleaningTaskType::TextCleanup, 1), 1).unwrap();
    q.start_task(d.id, 30).unwrap();
    let ids: Vec<i64> = q.get_pending_tasks(10).iter().map(|t| t.id).collect();
    assert_eq!(ids, vec![c.id, b.id, a.id]);
    let first: Vec<i64> = q.get_pending_tasks(1).iter().map(|t| t.id).collect();
    assert_eq!(first, vec![c.id]);
    let st = q.get_cleaning_stats();
    assert_eq!(st.total_tasks, 4);
    assert_eq!(st.pending_tasks, 3);
    assert_eq!(st.running_tasks, 1);
    assert_eq!(st.average_processing_time, None);
    q.complete_task(d.id, "o".to_string(), 50).unwrap();
    assert_eq!(q.get_cleaning_stats().average_processing_time, Some(20));
}

#[test]
fn text_detection_rules() {
    assert!(is_text_file("text/plain"));
    assert!(is_text_file("application/json"));
    assert!(!is_text_file("image/png"));
    assert!(is_text_extension("MD"));
    assert!(!is_text_extension("bin"));
    assert!(looks_like_text(&b"hello world".to_vec()));
    assert!(!looks_like_text(&vec![0u8, 1, 2, 3, 200, 201]));
    assert!(!looks_like_text(&vec![]));
    assert!(is_readable_text("application/x-unknown", "bin", &b"plain words".to_vec()));
    assert!(!is_readable_text("image/png", "png", &vec![0x89, 0x50, 0x4e, 0x47]));
}

#[test]
fn zip_detection() {
    assert!(is_zip_file("ZIP", "application/octet-stream", &vec![]));
    assert!(is_zip_file("dat", "application/zip", &vec![]));
    assert!(is_zip_file("dat", "x", &vec![0x50, 0x4b, 3, 4]));
    assert!(!is_zip_file("txt", "text/plain", &b"hi".to_vec()));
}

#[test]
fn metadata_from_long_text() {
    let body = format!("Project notes\nAuthor: Ada\n# rust\nplain line\n  #verus  \n{}", "x".repeat(120));
    let m = extract_metadata(4, &body);
    assert_eq!(m.author, Some("Author: Ada".to_string()));
    assert_eq!(m.topic, Some("Project notes".to_string()));
    assert_eq!(m.tags, vec!["# rust".to_string(), "#verus".to_string()]);
    assert!(m.success);
    let short = extract_metadata(4, "Author: Bob");
    assert_eq!(short.author, Some("Author: Bob".to_string()));
    assert_eq!(short.topic, Some("Author: Bob".to_string()));
    let blank_first = extract_metadata(4, "\n   \n  Topic here \n#tag\n@author me");
    assert_eq!(blank_first.topic, Some("Topic here".to_string()));
    assert_eq!(blank_first.author, Some("@author me".to_string()));
    assert_eq!(blank_first.tags, vec!["#tag".to_string()]);
    let empty = extract_metadata(4, "");
    assert_eq!(empty.author, None);
    assert_eq!(empty.topic, None);
    assert!(empty.tags.is_empty());
}

#[test]
fn readable_file_gets_three_tasks_once() {
    let mut q = CleaningQueue::new();
    assert_eq!(create_cleaning_tasks(&mut q, 9, "hello world", 1), Ok(3));
    assert_eq!(create_cleaning_tasks(&mut q, 9, "hello world", 2), Ok(0));
    let types: Vec<(CleaningTaskType, i64)> = q.tasks().iter().map(|t| (t.task_type, t.priority)).collect();
    assert_eq!(
        types,
        vec![
            (CleaningTaskType::TextCleanup, 1),
            (CleaningTaskType::MetadataExtraction, 2),
            (CleaningTaskType::FormatConversion, 3)
        ]
    );
    assert!(q.tasks().iter().all(|t| t.input_content == Some("hello world".to_string())));
}

#[test]
fn two_file_directory_ingestion() {
    let mut q = CleaningQueue::new();
    let files = vec![
        DiscoveredFile { file_id: 1, outcome: FileOutcome::Text("hello world".to_string()) },
        DiscoveredFile { file_id: 2, outcome: FileOutcome::Binary },
    ];
    let t = register_files(&mut q, &files, 5).unwrap();
    assert_eq!(t.tasks_created, 3);
    assert_eq!(t.processed_files + t.error_count, t.total_files);
    assert!(q.tasks().iter().all(|x| x.file_id == 1));
    assert_eq!(q.tasks().len(), 3);
}

#[test]
fn ingestion_counts_unreadable_files_as_errors() {
    let mut q = CleaningQueue::new();
    let files = vec![
        DiscoveredFile { file_id: 1, outcome: FileOutcome::Text("a".to_string()) },
        DiscoveredFile { file_id: 2, outcome: FileOutcome::Unreadable },
        DiscoveredFile { file_id: 3, outcome: FileOutcome::Text("b".to_string()) },
        DiscoveredFile { file_id: 4, outcome: FileOutcome::Binary },
    ];
    let t = register_files(&mut q, &files, 5).unwrap();
    assert_eq!(t.tasks_created, 6);
    assert_eq!(t.error_count, 1);
    assert_eq!(t.processed_files, 3);
    assert_eq!(t.total_files, 4);
}

#[test]
fn job_progress_only_rises() {
    let mut j = IngestionJob::new(1, CreateIngestionJob { source_path: "/d".to_string(), job_type: "folder".to_string() }, 0);
    j.record_file(true);
    assert_eq!(j.processed_files, 0);
    assert!(j.start(4, 1));
    j.record_file(true);
    assert_eq!(j.progress, 25);
    j.record_file(false);
    assert_eq!(j.progress, 50);
    assert_eq!(j.error_count, 1);
    assert!(j.complete(9));
    assert_eq!(j.status, JobStatus::Completed);
    assert_eq!(j.progress, 100);
    assert!(!j.cancel(10));
    let stats = get_ingestion_stats(&vec![j]);
    assert_eq!(stats.total_jobs, 1);
    assert_eq!(stats.completed_jobs, 1);
    assert_eq!(stats.total_files_processed, 1);
    assert_eq!(stats.total_errors, 1);
}

#[test]
fn corrupted_empty_share_yields_no_insight() {
    assert_eq!(content_quality_insights(5000, 30, 10), vec![]);
    assert_eq!(
        content_quality_insights(500, 30, 10),
        vec![QualityInsight::SmallFiles { average_size: 500 }]
    );
    assert_eq!(
        content_quality_insights(5000, 3, 10),
        vec![QualityInsight::EmptyContent { empty: 3, total: 10 }]
    );
    assert_eq!(content_quality_insights(5000, 1, 10), vec![]);
    assert_eq!(
        content_quality_insights(5000, 0, 10),
        vec![QualityInsight::ExcellentQuality { total: 10 }]
    );
}

#[test]
fn batch_pauses_every_tenth_unit() {
    assert!(!should_pause(0));
    assert!(should_pause(9));
    assert!(!should_pause(10));
    assert!(should_pause(19));
    let e = progress_event(ProgressKind::Progress, 10, 3, 1, 40);
    assert_eq!(e.progress_percent, 40);
    assert_eq!(e.eta_seconds, 60);
    let c = progress_event(ProgressKind::Completed, 10, 9, 1, 40);
    assert_eq!((c.progress_percent, c.eta_seconds), (100, 0));
}

#[test]
fn ics_export_and_stamps() {
    assert_eq!(escape_ics_text("a,b;c\nd"), r"a\,b\;c\nd");
    assert_eq!(parse_ics_to_iso("20240102T030405Z"), Ok("2024-01-02T03:04:05Z".to_string()));
    assert!(parse_ics_to_iso("2024").is_err());
    let ev = CalendarEvent {
        id: 7,
        title: "Stand, up".to_string(),
        description: None,
        start_time: "2024-01-02T03:04:05Z".to_string(),
        end_time: "2024-01-02T04:04:05Z".to_string(),
        reminder_time: None,
        recurrence: None,
        created_at: "now".to_string(),
    };
    let svc = ICSService::new();
    let doc = svc.export_to_ics(&vec![ev]).unwrap();
    assert_eq!(
        doc,
        "BEGIN:VCALENDAR\r\nVERSION:2.0\r\nPRODID:-//Play//Play MVP//EN\r\nBEGIN:VEVENT\r\nUID:7\r\nSUMMARY:Stand\\, up\r\nDTSTART:20240102T030405Z\r\nDTEND:20240102T040405Z\r\nEND:VEVENT\r\nEND:VCALENDAR\r\n"
    );
    let bad = CalendarEvent {
        id: 1,
        title: "x".to_string(),
        description: None,
        start_time: "yesterday".to_string(),
        end_time: "2024-01-02T04:04:05Z".to_string(),
        reminder_time: None,
        recurrence: None,
        created_at: "now".to_string(),
    };
    assert!(svc.export_to_ics(&vec![bad]).is_err());
    let _n = NotificationService::new();
}

#[test]
fn default_user_settings() {
    let s = UserSettings::default();
    assert_eq!(s.theme, "light");
    assert_eq!(s.auto_save_interval, 2000);
    assert_eq!(s.default_module, "chat");
}

#[test]
fn ics_import_reads_events() {
    let svc = ICSService::new();
    let text = "BEGIN:VCALENDAR\r\nBEGIN:VEVENT\r\nSUMMARY:Standup\r\nDESCRIPTION:Daily\r\nDTSTART:20240102T030405Z\r\nDTEND:20240102T040405Z\r\nEND:VEVENT\r\nEND:VCALENDAR\r\n";
    let evs = svc.import_from_ics(text, "now").unwrap();
    assert_eq!(evs.len(), 1);
    assert_eq!(evs[0].title, "Standup");
    assert_eq!(evs[0].description, Some("Daily".to_string()));
    assert_eq!(evs[0].start_time, "2024-01-02T03:04:05Z");
    assert_eq!(evs[0].end_time, "2024-01-02T04:04:05Z");
    assert_eq!(evs[0].created_at, "now");
    assert!(svc.import_from_ics("BEGIN:VEVENT\nDTSTART:2024\nEND:VEVENT", "now").is_err());
    assert!(svc.import_from_ics("SUMMARY:outside", "now").unwrap().is_empty());
}

#[test]
fn local_tasks_run_to_completion() {
    let mut q = CleaningQueue::new();
    let c = q
        .create_cleaning_task(
            CreateCleaningTask { file_id: 3, task_type: CleaningTaskType::TextCleanup, priority: None, input_content: Some("a  \n\n b".to_string()) },
            1,
        )
        .unwrap();
    let m = q
        .create_cleaning_task(
            CreateCleaningTask { file_id: 3, task_type: CleaningTaskType::MetadataExtraction, priority: None, input_content: Some(String::new()) },
            1,
        )
        .unwrap();
    let d = q
        .create_cleaning_task(
            CreateCleaningTask { file_id: 3, task_type: CleaningTaskType::DuplicateRemoval, priority: None, input_content: None },
            1,
        )
        .unwrap();
    let req = q.run_local_task(c.id, 10, 5).unwrap().unwrap();
    assert_eq!(req.content, "a\n b");
    let done = q.get_cleaning_task(c.id).unwrap();
    assert_eq!(done.status, TaskStatus::Completed);
    assert_eq!((done.started_at, done.completed_at), (Some(10), Some(10)));
    assert!(q.run_local_task(m.id, 11, 12).unwrap().is_none());
    let report = q.get_cleaning_task(m.id).unwrap().output_content.unwrap();
    assert!(report.starts_with("total_lines: 0\nnon_empty_lines: 0\n"));
    assert!(report.contains("complexity_per_mille: 0\n"));
    assert!(report.ends_with("content_type: general_text\nlanguage: unknown\n"));
    assert!(matches!(q.run_local_task(d.id, 1, 2), Err(QueueError::InvalidTransition)));
    assert!(matches!(q.run_local_task(c.id, 1, 2), Err(QueueError::InvalidTransition)));
}

#[test]
fn creating_tasks_twice_changes_nothing() {
    let mut q = CleaningQueue::new();
    create_cleaning_tasks(&mut q, 1, "x", 0).unwrap();
    let before: Vec<i64> = q.tasks().iter().map(|t| t.id).collect();
    assert_eq!(create_cleaning_tasks(&mut q, 1, "x", 0), Ok(0));
    let after: Vec<i64> = q.tasks().iter().map(|t| t.id).collect();
    assert_eq!(before, after);
    assert_eq!(q.next_id(), 4);
}
