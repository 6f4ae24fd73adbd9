//! Records that the pipeline's collaborators exchange with it: stored
//! files, notes, tasks, events, links, settings and service payloads.

use vstd::prelude::*;
use vstd::string::StringExecFns;

verus! {

/// A file registered by ingestion.
pub struct FileMetadata {
    pub id: i64,
    pub filename: String,
    pub filepath: String,
    pub filesize: i64,
    pub mimetype: String,
    pub created_at: String,
}

/// Stored metadata of a file.
pub struct Metadata {
    pub id: i64,
    pub file_id: i64,
    pub author: Option<String>,
    pub topic: Option<String>,
    pub date: Option<String>,
    pub tags: Option<String>,
    pub extracted_content: Option<String>,
    pub custom_metadata: Option<String>,
    pub created_at: String,
    pub updated_at: String,
}

/// Metadata to store for a file.
pub struct CreateMetadata {
    pub file_id: i64,
    pub author: Option<String>,
    pub topic: Option<String>,
    pub date: Option<String>,
    pub tags: Option<String>,
    pub extracted_content: Option<String>,
    pub custom_metadata: Option<String>,
}

/// A patch of stored metadata.
pub struct UpdateMetadata {
    pub author: Option<String>,
    pub topic: Option<String>,
    pub date: Option<String>,
    pub tags: Option<String>,
    pub extracted_content: Option<String>,
    pub custom_metadata: Option<String>,
}

/// A file written by a cleaning task.
pub struct OutputFileInfo {
    pub filename: String,
    pub task_type: String,
    pub file_path: String,
    pub size_bytes: u64,
    pub created_at: i64,
}

/// A file handled by a data-processing job.
pub struct ProcessedFile {
    pub id: i64,
    pub job_id: i64,
    pub filename: String,
    pub filepath: String,
    pub file_size: i64,
    pub mime_type: String,
    pub status: String,
    pub chunks_count: i64,
    pub has_embeddings: bool,
    pub is_duplicate: bool,
    pub metadata: String,
    pub created_at: String,
}

/// Totals over data-processing jobs.
pub struct ProcessingStats {
    pub total_jobs: i64,
    pub pending_jobs: i64,
    pub running_jobs: i64,
    pub completed_jobs: i64,
    pub failed_jobs: i64,
    pub total_files_processed: i64,
    pub total_chunks_created: i64,
    pub total_embeddings_generated: i64,
    pub total_errors: i64,
}

/// What a caller supplies to open a data-processing job.
pub struct CreateDataProcessingJob {
    pub name: String,
}

/// Totals of document analysis.
pub struct DocumentIntelligenceStats {
    pub total_documents_processed: i64,
    pub vector_dimensions: i64,
    pub models_used: Vec<String>,
    pub last_updated: Option<String>,
}

/// A text-generation request.
pub struct OllamaRequest {
    pub model: String,
    pub prompt: String,
    pub stream: bool,
}

/// A text-generation reply.
pub struct OllamaResponse {
    pub model: String,
    pub created_at: String,
    pub response: String,
    pub done: bool,
}

/// Whether the model service is set up.
pub struct SetupStatus {
    pub ollama_installed: bool,
    pub models_installed: Vec<String>,
    pub ollama_running: bool,
}

/// A note.
pub struct Document {
    pub id: i64,
    pub title: String,
    pub content: String,
    pub version: i64,
    pub tags: Option<String>,
    pub created_at: String,
    pub updated_at: String,
}

/// A note to create.
pub struct CreateDocument {
    pub title: String,
    pub content: String,
    pub tags: Option<String>,
}

/// A patch of a note.
pub struct UpdateDocument {
    pub title: Option<String>,
    pub content: Option<String>,
    pub tags: Option<String>,
}

/// A stored earlier version of a note.
pub struct DocumentVersion {
    pub id: i64,
    pub version: i64,
    pub content: String,
    pub created_at: String,
}

/// A chat message.
pub struct Message {
    pub id: i64,
    pub channel_id: i64,
    pub user_id: i64,
    pub content: String,
    pub attachments: Option<String>,
    pub created_at: String,
    pub updated_at: String,
}

/// A chat message to create.
pub struct CreateMessage {
    pub channel_id: i64,
    pub user_id: i64,
    pub content: String,
    pub attachments: Option<String>,
}

/// A to-do item.
pub struct Task {
    pub id: i64,
    pub title: String,
    pub description: Option<String>,
    pub status: String,
    pub priority: String,
    pub due_date: Option<String>,
    pub reminder_time: Option<String>,
    pub created_at: String,
    pub updated_at: String,
}

/// A to-do item to create.
pub struct CreateTask {
    pub title: String,
    pub description: Option<String>,
    pub status: Option<String>,
    pub priority: Option<String>,
    pub due_date: Option<String>,
    pub reminder_time: Option<String>,
}

/// A patch of a to-do item.
pub struct UpdateTask {
    pub title: Option<String>,
    pub description: Option<String>,
    pub status: Option<String>,
    pub priority: Option<String>,
    pub due_date: Option<String>,
    pub reminder_time: Option<String>,
}

/// A calendar event to create.
pub struct CreateEvent {
    pub title: String,
    pub description: Option<String>,
    pub start_time: String,
    pub end_time: String,
    pub reminder_time: Option<String>,
    pub recurrence: Option<String>,
}

/// A patch of a calendar event.
pub struct UpdateEvent {
    pub title: Option<String>,
    pub description: Option<String>,
    pub start_time: Option<String>,
    pub end_time: Option<String>,
    pub reminder_time: Option<String>,
    pub recurrence: Option<String>,
}

/// A link between two items.
pub struct Link {
    pub id: i64,
    pub source_type: String,
    pub source_id: i64,
    pub target_type: String,
    pub target_id: i64,
    pub created_at: String,
}

/// A link to create.
pub struct CreateLink {
    pub source_type: String,
    pub source_id: i64,
    pub target_type: String,
    pub target_id: i64,
}

/// How far along a learner is.
#[derive(Debug, Clone, Copy, PartialEq, Eq, Structural)]
pub enum DifficultyLevel {
    Beginner,
    Intermediate,
    Advanced,
}

/// A mentor's answer.
pub struct MentorResponse {
    pub explanation: String,
    pub suggestion: Option<String>,
    pub learning_resources: Vec<String>,
    pub difficulty_level: DifficultyLevel,
}

/// A suggested rewrite of a prompt.
pub struct PromptSuggestion {
    pub original: String,
    pub improved: String,
    pub explanation: String,
    pub improvements: Vec<String>,
}

/// User preferences.
pub struct UserSettings {
    pub theme: String,
    pub language: String,
    pub notifications_enabled: bool,
    pub auto_save_interval: i64,
    pub default_module: String,
}

impl Default for UserSettings {
    /// The preferences of a new user: light theme, English, notifications
    /// on, saving every 2000 milliseconds, opening the chat.
    fn default() -> (r: UserSettings)
        ensures
            r.theme@ == "light"@,
            r.language@ == "en"@,
            r.notifications_enabled,
            r.auto_save_interval == 2000,
            r.default_module@ == "chat"@,
    {
        UserSettings {
            theme: String::from_str("light"),
            language: String::from_str("en"),
            notifications_enabled: true,
            auto_save_interval: 2000,
            default_module: String::from_str("chat"),
        }
    }
}

} // verus!
