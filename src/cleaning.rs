//! The cleaning task queue: typed tasks, their monotonic status machine,
//! and the order in which pending work is handed out.

use vstd::prelude::*;
use vstd::string::StringExecFns;
use crate::text::text_eq;
use crate::ranking::{is_ranking, rank_by_score};
use crate::transforms::{cleaned_text, converted_text, clean_lines, normalize_format};
use crate::analysis::{metadata_report, metadata_report_text};

verus! {

/// The kinds of cleaning work a task can ask for.
#[derive(Debug, Clone, Copy, PartialEq, Eq, Structural)]
pub enum CleaningTaskType {
    TextCleanup,
    StructureRepair,
    MetadataExtraction,
    ContentNormalization,
    DuplicateRemoval,
    FormatConversion,
}

/// The persisted name of each task type.
pub open spec fn task_type_name(t: CleaningTaskType) -> Seq<char> {
    match t {
        CleaningTaskType::TextCleanup => "text_cleanup"@,
        CleaningTaskType::StructureRepair => "structure_repair"@,
        CleaningTaskType::MetadataExtraction => "metadata_extraction"@,
        CleaningTaskType::ContentNormalization => "content_normalization"@,
        CleaningTaskType::DuplicateRemoval => "duplicate_removal"@,
        CleaningTaskType::FormatConversion => "format_conversion"@,
    }
}

/// `s` is the name of some task type.
pub open spec fn is_task_type_name(s: Seq<char>) -> bool {
    s == task_type_name(CleaningTaskType::TextCleanup) || s == task_type_name(CleaningTaskType::StructureRepair)
        || s == task_type_name(CleaningTaskType::MetadataExtraction) || s == task_type_name(
        CleaningTaskType::ContentNormalization,
    ) || s == task_type_name(CleaningTaskType::DuplicateRemoval) || s == task_type_name(
        CleaningTaskType::FormatConversion,
    )
}

impl CleaningTaskType {
    /// The persisted name of this type.
    pub fn as_str(&self) -> (r: &'static str)
        ensures
            r@ == task_type_name(*self),
    {
        match self {
            CleaningTaskType::TextCleanup => "text_cleanup",
            CleaningTaskType::StructureRepair => "structure_repair",
            CleaningTaskType::MetadataExtraction => "metadata_extraction",
            CleaningTaskType::ContentNormalization => "content_normalization",
            CleaningTaskType::DuplicateRemoval => "duplicate_removal",
            CleaningTaskType::FormatConversion => "format_conversion",
        }
    }

    /// The persisted name of this type, as an owned string.
    pub fn to_string(&self) -> (r: String)
        ensures
            r@ == task_type_name(*self),
    {
        String::from_str(self.as_str())
    }

    /// The type with this persisted name; any other text is rejected with
    /// a message naming it.
    pub fn from_str(s: &str) -> (r: Result<CleaningTaskType, String>)
        ensures
            r matches Ok(t) ==> task_type_name(t) == s@,
            r is Err <==> !is_task_type_name(s@),
            r matches Err(m) ==> m@ == "Unknown cleaning task type: "@ + s@,
    {
        if text_eq(s, "text_cleanup") {
            Ok(CleaningTaskType::TextCleanup)
        } else if text_eq(s, "structure_repair") {
            Ok(CleaningTaskType::StructureRepair)
        } else if text_eq(s, "metadata_extraction") {
            Ok(CleaningTaskType::MetadataExtraction)
        } else if text_eq(s, "content_normalization") {
            Ok(CleaningTaskType::ContentNormalization)
        } else if text_eq(s, "duplicate_removal") {
            Ok(CleaningTaskType::DuplicateRemoval)
        } else if text_eq(s, "format_conversion") {
            Ok(CleaningTaskType::FormatConversion)
        } else {
            let mut m = String::from_str("Unknown cleaning task type: ");
            m.append(s);
            Err(m)
        }
    }
}

/// Where a task stands.
#[derive(Debug, Clone, Copy, PartialEq, Eq, Structural)]
pub enum TaskStatus {
    Pending,
    Running,
    Completed,
    Failed,
}

/// The persisted name of each status.
pub open spec fn status_name(s: TaskStatus) -> Seq<char> {
    match s {
        TaskStatus::Pending => "pending"@,
        TaskStatus::Running => "running"@,
        TaskStatus::Completed => "completed"@,
        TaskStatus::Failed => "failed"@,
    }
}

impl TaskStatus {
    /// The persisted name of this status.
    pub fn as_str(&self) -> (r: &'static str)
        ensures
            r@ == status_name(*self),
    {
        match self {
            TaskStatus::Pending => "pending",
            TaskStatus::Running => "running",
            TaskStatus::Completed => "completed",
            TaskStatus::Failed => "failed",
        }
    }

    /// The status with this persisted name, if any.
    pub fn parse(s: &str) -> (r: Option<TaskStatus>)
        ensures
            r matches Some(t) ==> status_name(t) == s@,
            r is None <==> (s@ != status_name(TaskStatus::Pending) && s@ != status_name(
                TaskStatus::Running,
            ) && s@ != status_name(TaskStatus::Completed) && s@ != status_name(
                TaskStatus::Failed,
            )),
    {
        if text_eq(s, "pending") {
            Some(TaskStatus::Pending)
        } else if text_eq(s, "running") {
            Some(TaskStatus::Running)
        } else if text_eq(s, "completed") {
            Some(TaskStatus::Completed)
        } else if text_eq(s, "failed") {
            Some(TaskStatus::Failed)
        } else {
            None
        }
    }
}

/// Status `b` may follow status `a`: work only moves forward, and a
/// finished task stays as it is.
pub open spec fn may_follow(a: TaskStatus, b: TaskStatus) -> bool {
    match a {
        TaskStatus::Pending => true,
        TaskStatus::Running => b != TaskStatus::Pending,
        TaskStatus::Completed => b == TaskStatus::Completed,
        TaskStatus::Failed => b == TaskStatus::Failed,
    }
}

/// One unit of cleaning work on one file. Times are milliseconds since the
/// Unix epoch.
pub struct CleaningTask {
    pub id: i64,
    pub file_id: i64,
    pub task_type: CleaningTaskType,
    pub status: TaskStatus,
    pub priority: i64,
    pub input_content: Option<String>,
    pub output_content: Option<String>,
    pub error_message: Option<String>,
    pub created_at: i64,
    pub started_at: Option<i64>,
    pub completed_at: Option<i64>,
}

/// What a [`CleaningTask`] holds, as mathematical values.
pub struct TaskView {
    pub id: i64,
    pub file_id: i64,
    pub task_type: CleaningTaskType,
    pub status: TaskStatus,
    pub priority: i64,
    pub input_content: Option<Seq<char>>,
    pub output_content: Option<Seq<char>>,
    pub error_message: Option<Seq<char>>,
    pub created_at: i64,
    pub started_at: Option<i64>,
    pub completed_at: Option<i64>,
}

pub open spec fn text_opt(o: Option<String>) -> Option<Seq<char>> {
    match o {
        Some(s) => Some(s@),
        None => None,
    }
}

fn copy_text_opt(o: &Option<String>) -> (r: Option<String>)
    ensures
        text_opt(r) == text_opt(*o),
{
    match o {
        Some(s) => Some(s.clone()),
        None => None,
    }
}

impl View for CleaningTask {
    type V = TaskView;

    open spec fn view(&self) -> TaskView {
        TaskView {
            id: self.id,
            file_id: self.file_id,
            task_type: self.task_type,
            status: self.status,
            priority: self.priority,
            input_content: text_opt(self.input_content),
            output_content: text_opt(self.output_content),
            error_message: text_opt(self.error_message),
            created_at: self.created_at,
            started_at: self.started_at,
            completed_at: self.completed_at,
        }
    }
}

impl CleaningTask {
    /// A field-by-field copy.
    pub fn duplicate(&self) -> (r: CleaningTask)
        ensures
            r@ == self@,
    {
        CleaningTask {
            id: self.id,
            file_id: self.file_id,
            task_type: self.task_type,
            status: self.status,
            priority: self.priority,
            input_content: copy_text_opt(&self.input_content),
            output_content: copy_text_opt(&self.output_content),
            error_message: copy_text_opt(&self.error_message),
            created_at: self.created_at,
            started_at: self.started_at,
            completed_at: self.completed_at,
        }
    }
}

/// A task's times are consistent: a pending task has not started or
/// finished, a running one has started, and a task that started and
/// finished did so in that order.
pub open spec fn times_ok(t: TaskView) -> bool {
    &&& (t.status == TaskStatus::Pending ==> t.started_at is None && t.completed_at is None)
    &&& (t.status == TaskStatus::Running ==> t.started_at is Some && t.completed_at is None)
    &&& (t.status == TaskStatus::Completed ==> t.completed_at is Some)
    &&& (t.status == TaskStatus::Failed ==> t.completed_at is Some)
    &&& (t.started_at matches Some(s) ==> (t.completed_at matches Some(c) ==> s <= c))
}

/// What a caller supplies to enqueue a task.
pub struct CreateCleaningTask {
    pub file_id: i64,
    pub task_type: CleaningTaskType,
    pub priority: Option<i64>,
    pub input_content: Option<String>,
}

/// A typed patch: only the fields that are `Some` change.
pub struct UpdateCleaningTask {
    pub status: Option<TaskStatus>,
    pub output_content: Option<String>,
    pub error_message: Option<String>,
    pub started_at: Option<i64>,
    pub completed_at: Option<i64>,
}

/// Why a queue operation was refused.
#[derive(Debug, Clone, Copy, PartialEq, Eq, Structural)]
pub enum QueueError {
    /// No task has this id.
    NotFound,
    /// The task's status does not allow this step.
    InvalidTransition,
    /// Every task id has been handed out.
    IdsExhausted,
}

/// Counts of tasks by status, and the mean time from start to completion
/// of completed tasks, in milliseconds.
pub struct CleaningTaskStats {
    pub total_tasks: i64,
    pub pending_tasks: i64,
    pub running_tasks: i64,
    pub completed_tasks: i64,
    pub failed_tasks: i64,
    pub average_processing_time: Option<i64>,
}

/// The task with this id, if any, and where it stands.
pub open spec fn index_of(s: Seq<TaskView>, id: i64) -> Option<int> {
    if exists|i: int| 0 <= i < s.len() && #[trigger] s[i].id == id {
        Some(choose|i: int| 0 <= i < s.len() && #[trigger] s[i].id == id)
    } else {
        None
    }
}

/// With increasing ids, a task found at position `k` is the one that
/// `index_of` finds for its id.
pub proof fn lemma_index_of_unique(s: Seq<TaskView>, k: int)
    requires
        ids_increasing(s),
        0 <= k < s.len(),
    ensures
        index_of(s, s[k].id) == Some(k),
{
    let id = s[k].id;
    assert(s[k].id == id);
    let j = choose|i: int| 0 <= i < s.len() && #[trigger] s[i].id == id;
    if j < k {
        assert(s[j].id < s[k].id);
    } else if k < j {
        assert(s[k].id < s[j].id);
    }
}

/// The queue: tasks in creation order, with strictly increasing ids below
/// the next id, each with consistent times.
pub struct CleaningQueue {
    tasks: Vec<CleaningTask>,
    next_id: i64,
}

impl View for CleaningQueue {
    type V = Seq<TaskView>;

    closed spec fn view(&self) -> Seq<TaskView> {
        self.tasks@.map_values(|t: CleaningTask| t@)
    }
}

/// Ids in `s` increase strictly with position.
pub open spec fn ids_increasing(s: Seq<TaskView>) -> bool {
    forall|i: int, j: int| 0 <= i < j < s.len() ==> #[trigger] s[i].id < #[trigger] s[j].id
}

/// Every task of `s` has consistent times.
pub open spec fn all_times_ok(s: Seq<TaskView>) -> bool {
    forall|i: int| 0 <= i < s.len() ==> times_ok(#[trigger] s[i])
}

/// `after` is `before` with task `k` replaced by `t`.
pub open spec fn replaced(before: Seq<TaskView>, after: Seq<TaskView>, k: int, t: TaskView) -> bool {
    0 <= k < before.len() && after == before.update(k, t)
}

/// The pending tasks of `s`, in order.
pub open spec fn pending_of(s: Seq<TaskView>) -> Seq<TaskView>
    decreases s.len(),
{
    if s.len() == 0 {
        s
    } else if s.last().status == TaskStatus::Pending {
        pending_of(s.drop_last()).push(s.last())
    } else {
        pending_of(s.drop_last())
    }
}

/// The hand-out key of a task: higher priority first, then earlier
/// creation.
pub open spec fn queue_key(t: TaskView) -> u128 {
    ((t.priority as int + 0x8000_0000_0000_0000) * 0x1_0000_0000_0000_0000 + (
    0x7fff_ffff_ffff_ffff - t.created_at as int)) as u128
}

/// Keys of the tasks of `s`.
pub open spec fn queue_keys(s: Seq<TaskView>) -> Seq<u128> {
    s.map_values(|t: TaskView| queue_key(t))
}

/// A larger key means higher priority, or equal priority and earlier
/// creation.
pub proof fn lemma_queue_key_order(a: TaskView, b: TaskView)
    ensures
        queue_key(a) > queue_key(b) <==> (a.priority > b.priority || (a.priority == b.priority
            && a.created_at < b.created_at)),
        queue_key(a) == queue_key(b) <==> (a.priority == b.priority && a.created_at
            == b.created_at),
{
    let pa = a.priority as int + 0x8000_0000_0000_0000;
    let pb = b.priority as int + 0x8000_0000_0000_0000;
    let ca = 0x7fff_ffff_ffff_ffff - a.created_at as int;
    let cb = 0x7fff_ffff_ffff_ffff - b.created_at as int;
    assert(0 <= pa < 0x1_0000_0000_0000_0000 && 0 <= pb < 0x1_0000_0000_0000_0000);
    assert(0 <= ca < 0x1_0000_0000_0000_0000 && 0 <= cb < 0x1_0000_0000_0000_0000);
    assert(pa * 0x1_0000_0000_0000_0000 + ca < 0x1_0000_0000_0000_0000 * 0x1_0000_0000_0000_0000)
        by (nonlinear_arith)
        requires
            0 <= pa < 0x1_0000_0000_0000_0000,
            0 <= ca < 0x1_0000_0000_0000_0000,
    ;
    assert(pb * 0x1_0000_0000_0000_0000 + cb < 0x1_0000_0000_0000_0000 * 0x1_0000_0000_0000_0000)
        by (nonlinear_arith)
        requires
            0 <= pb < 0x1_0000_0000_0000_0000,
            0 <= cb < 0x1_0000_0000_0000_0000,
    ;
    assert(pa * 0x1_0000_0000_0000_0000 + ca > pb * 0x1_0000_0000_0000_0000 + cb <==> (pa > pb || (
    pa == pb && ca > cb))) by (nonlinear_arith)
        requires
            0 <= ca < 0x1_0000_0000_0000_0000,
            0 <= cb < 0x1_0000_0000_0000_0000,
    ;
    assert(pa * 0x1_0000_0000_0000_0000 + ca == pb * 0x1_0000_0000_0000_0000 + cb <==> (pa == pb
        && ca == cb)) by (nonlinear_arith)
        requires
            0 <= ca < 0x1_0000_0000_0000_0000,
            0 <= cb < 0x1_0000_0000_0000_0000,
    ;
}

fn compute_queue_key(t: &CleaningTask) -> (r: u128)
    ensures
        r == queue_key(t@),
{
    let p = (t.priority as i128 + 0x8000_0000_0000_0000i128) as u128;
    let c = (0x7fff_ffff_ffff_ffffi128 - t.created_at as i128) as u128;
    assert(p * 0x1_0000_0000_0000_0000u128 + c <= u128::MAX) by (nonlinear_arith)
        requires
            p < 0x1_0000_0000_0000_0000,
            c < 0x1_0000_0000_0000_0000,
    ;
    p * 0x1_0000_0000_0000_0000u128 + c
}

/// Every task present both in `a` and in `b` moved only along allowed
/// status steps.
pub open spec fn evolves(a: Seq<TaskView>, b: Seq<TaskView>) -> bool {
    forall|i: int, j: int|
        0 <= i < a.len() && 0 <= j < b.len() && #[trigger] a[i].id == #[trigger] b[j].id
            ==> may_follow(a[i].status, b[j].status)
}

proof fn lemma_evolves_update(a: Seq<TaskView>, k: int, t: TaskView)
    requires
        ids_increasing(a),
        0 <= k < a.len(),
        t.id == a[k].id,
        may_follow(a[k].status, t.status),
    ensures
        evolves(a, a.update(k, t)),
        ids_increasing(a.update(k, t)),
{
    let b = a.update(k, t);
    assert forall|i: int, j: int|
        0 <= i < a.len() && 0 <= j < b.len() && #[trigger] a[i].id == #[trigger] b[j].id implies may_follow(
        a[i].status,
        b[j].status,
    ) by {
        assert(b[j].id == a[j].id);
        if i < j {
            assert(a[i].id < a[j].id);
        } else if j < i {
            assert(a[j].id < a[i].id);
        }
    }
    assert forall|i: int, j: int| 0 <= i < j < b.len() implies #[trigger] b[i].id < #[trigger] b[j].id by {
        assert(b[i].id == a[i].id);
        assert(b[j].id == a[j].id);
    }
}

proof fn lemma_evolves_remove(a: Seq<TaskView>, k: int)
    requires
        ids_increasing(a),
        0 <= k < a.len(),
    ensures
        evolves(a, a.remove(k)),
        ids_increasing(a.remove(k)),
        all_times_ok(a) ==> all_times_ok(a.remove(k)),
{
    let b = a.remove(k);
    assert forall|i: int, j: int|
        0 <= i < a.len() && 0 <= j < b.len() && #[trigger] a[i].id == #[trigger] b[j].id implies may_follow(
        a[i].status,
        b[j].status,
    ) by {
        let jj = if j < k {
            j
        } else {
            j + 1
        };
        assert(b[j] == a[jj]);
        if i < jj {
            assert(a[i].id < a[jj].id);
        } else if jj < i {
            assert(a[jj].id < a[i].id);
        }
    }
    assert forall|i: int, j: int| 0 <= i < j < b.len() implies #[trigger] b[i].id < #[trigger] b[j].id by {
        let ii = if i < k {
            i
        } else {
            i + 1
        };
        let jj = if j < k {
            j
        } else {
            j + 1
        };
        assert(b[i] == a[ii]);
        assert(b[j] == a[jj]);
    }
    if all_times_ok(a) {
        assert forall|i: int| 0 <= i < b.len() implies times_ok(#[trigger] b[i]) by {
            if i < k {
                assert(b[i] == a[i]);
            } else {
                assert(b[i] == a[i + 1]);
            }
        }
    }
}

proof fn lemma_evolves_stay(a: Seq<TaskView>)
    requires
        ids_increasing(a),
    ensures
        evolves(a, a),
{
    assert forall|i: int, j: int|
        0 <= i < a.len() && 0 <= j < a.len() && #[trigger] a[i].id == #[trigger] a[j].id implies may_follow(
        a[i].status,
        a[j].status,
    ) by {
        if i < j {
            assert(a[i].id < a[j].id);
        } else if j < i {
            assert(a[j].id < a[i].id);
        }
    }
}

proof fn lemma_evolves_push(a: Seq<TaskView>, t: TaskView)
    requires
        ids_increasing(a),
        forall|i: int| 0 <= i < a.len() ==> #[trigger] a[i].id < t.id,
    ensures
        evolves(a, a.push(t)),
{
    let b = a.push(t);
    assert forall|i: int, j: int|
        0 <= i < a.len() && 0 <= j < b.len() && #[trigger] a[i].id == #[trigger] b[j].id implies may_follow(
        a[i].status,
        b[j].status,
    ) by {
        if j < a.len() {
            assert(b[j] == a[j]);
            if i < j {
                assert(a[i].id < a[j].id);
            } else if j < i {
                assert(a[j].id < a[i].id);
            }
        } else {
            assert(b[j] == t);
            assert(a[i].id < t.id);
        }
    }
}

/// Once a task is completed or failed it keeps that status (so it never
/// returns to pending), and a task that both started and finished did not
/// finish before it started.
pub proof fn lemma_finished_tasks_stay_finished(
    a: Seq<TaskView>,
    b: Seq<TaskView>,
    i: int,
    j: int,
)
    requires
        evolves(a, b),
        all_times_ok(b),
        0 <= i < a.len(),
        0 <= j < b.len(),
        a[i].id == b[j].id,
        a[i].status == TaskStatus::Completed || a[i].status == TaskStatus::Failed,
    ensures
        b[j].status == a[i].status,
        b[j].status != TaskStatus::Pending,
        b[j].started_at matches Some(s) ==> b[j].completed_at matches Some(c) ==> s <= c,
{
    assert(times_ok(b[j]));
}

impl CleaningQueue {
    /// The id the next created task receives.
    pub closed spec fn next_id_spec(&self) -> i64 {
        self.next_id
    }

    /// Ids are positive, strictly increasing, below the next id, and every
    /// task's times are consistent.
    pub closed spec fn wf(&self) -> bool {
        &&& self.next_id >= 1
        &&& forall|i: int|
            0 <= i < self.tasks@.len() ==> 1 <= #[trigger] self.tasks@[i].id < self.next_id
        &&& ids_increasing(self@)
        &&& all_times_ok(self@)
    }

    /// What well-formedness gives a caller: ids are positive, strictly
    /// increasing in creation order and below the next id, and every task's
    /// times are consistent.
    pub proof fn lemma_wf_facts(&self)
        requires
            self.wf(),
        ensures
            self.next_id_spec() >= 1,
            ids_increasing(self@),
            all_times_ok(self@),
            forall|i: int| 0 <= i < self@.len() ==> 1 <= #[trigger] self@[i].id < self.next_id_spec(),
    {
        assert forall|i: int| 0 <= i < self@.len() implies 1 <= #[trigger] self@[i].id < self.next_id_spec() by {
            assert(self@[i] == self.tasks@[i]@);
        }
    }

    /// An empty queue.
    pub fn new() -> (r: CleaningQueue)
        ensures
            r.wf(),
            r@ == Seq::<TaskView>::empty(),
    {
        let r = CleaningQueue { tasks: Vec::new(), next_id: 1 };
        assert(r@ =~= Seq::<TaskView>::empty());
        r
    }

    /// The id the next created task receives.
    pub fn next_id(&self) -> (r: i64)
        ensures
            r == self.next_id_spec(),
    {
        self.next_id
    }

    /// The tasks, in creation order.
    pub fn tasks(&self) -> (r: &Vec<CleaningTask>)
        ensures
            r@.map_values(|t: CleaningTask| t@) == self@,
    {
        &self.tasks
    }

    fn find(&self, id: i64) -> (r: Option<usize>)
        requires
            self.wf(),
        ensures
            r == match index_of(self@, id) {
                Some(k) => Some(k as usize),
                None => None::<usize>,
            },
            r matches Some(k) ==> k < self@.len() && self@[k as int].id == id,
    {
        let mut i: usize = 0;
        while i < self.tasks.len()
            invariant
                self.wf(),
                i <= self@.len(),
                forall|k: int| 0 <= k < i ==> #[trigger] self@[k].id != id,
            decreases self@.len() - i,
        {
            if self.tasks[i].id == id {
                assert(self@[i as int].id == id);
                proof {
                    let k = choose|k: int| 0 <= k < self@.len() && #[trigger] self@[k].id == id;
                    if k != i {
                        if k < i {
                            assert(self@[k].id < self@[i as int].id);
                        } else {
                            assert(self@[i as int].id < self@[k].id);
                        }
                    }
                }
                return Some(i);
            }
            i = i + 1;
        }
        None
    }

    /// Enqueues a pending task under a fresh id (priority 0 when none is
    /// given), created at `now`.
    pub fn create_cleaning_task(&mut self, task: CreateCleaningTask, now: i64) -> (r: Result<
        CleaningTask,
        QueueError,
    >)
        requires
            old(self).wf(),
        ensures
            final(self).wf(),
            evolves(old(self)@, final(self)@),
            old(self).next_id_spec() == i64::MAX <==> r is Err,
            r matches Err(e) ==> e == QueueError::IdsExhausted && final(self)@ == old(self)@
                && final(self).next_id_spec() == old(self).next_id_spec(),
            r is Ok ==> final(self).next_id_spec() == old(self).next_id_spec() + 1,
            r matches Ok(t) ==> {
                &&& final(self)@ == old(self)@.push(t@)
                &&& t.id == old(self).next_id_spec()
                &&& t.file_id == task.file_id
                &&& t.task_type == task.task_type
                &&& t.status == TaskStatus::Pending
                &&& t.priority == (match task.priority {
                    Some(p) => p,
                    None => 0,
                })
                &&& t@.input_content == text_opt(task.input_content)
                &&& t.output_content is None
                &&& t.error_message is None
                &&& t.created_at == now
                &&& t.started_at is None
                &&& t.completed_at is None
            },
    {
        if self.next_id == i64::MAX {
            proof {
                lemma_evolves_stay(self@);
            }
            return Err(QueueError::IdsExhausted);
        }
        let t = CleaningTask {
            id: self.next_id,
            file_id: task.file_id,
            task_type: task.task_type,
            status: TaskStatus::Pending,
            priority: match task.priority {
                Some(p) => p,
                None => 0,
            },
            input_content: task.input_content,
            output_content: None,
            error_message: None,
            created_at: now,
            started_at: None,
            completed_at: None,
        };
        let copy = t.duplicate();
        let ghost before = self@;
        self.tasks.push(t);
        self.next_id = self.next_id + 1;
        assert(self@ =~= before.push(copy@));
        proof {
            lemma_evolves_push(before, copy@);
        }
        Ok(copy)
    }

    /// A copy of the task with this id.
    pub fn get_cleaning_task(&self, id: i64) -> (r: Option<CleaningTask>)
        requires
            self.wf(),
        ensures
            r is None <==> index_of(self@, id) is None,
            r matches Some(t) ==> t@ == self@[index_of(self@, id)->Some_0],
    {
        match self.find(id) {
            Some(k) => Some(self.tasks[k].duplicate()),
            None => None,
        }
    }

    fn replace_at(&mut self, k: usize, t: CleaningTask)
        requires
            old(self).wf(),
            k < old(self)@.len(),
            t.id == old(self)@[k as int].id,
            times_ok(t@),
            may_follow(old(self)@[k as int].status, t.status),
        ensures
            final(self).wf(),
            evolves(old(self)@, final(self)@),
            final(self)@ == old(self)@.update(k as int, t@),
            final(self).next_id_spec() == old(self).next_id_spec(),
    {
        let ghost before = self@;
        self.tasks.set(k, t);
        assert(self@ =~= before.update(k as int, t@));
        proof {
            lemma_evolves_update(before, k as int, t@);
        }
    }

    /// Moves a pending task to running, started at `now`.
    pub fn start_task(&mut self, id: i64, now: i64) -> (r: Result<(), QueueError>)
        requires
            old(self).wf(),
        ensures
            final(self).wf(),
            evolves(old(self)@, final(self)@),
            final(self).next_id_spec() == old(self).next_id_spec(),
            index_of(old(self)@, id) is None ==> r == Err::<(), QueueError>(QueueError::NotFound),
            index_of(old(self)@, id) matches Some(k) ==> {
                let t = old(self)@[k];
                if t.status == TaskStatus::Pending {
                    &&& r is Ok
                    &&& final(self)@ == old(self)@.update(
                        k,
                        TaskView { status: TaskStatus::Running, started_at: Some(now), ..t },
                    )
                } else {
                    r == Err::<(), QueueError>(QueueError::InvalidTransition)
                }
            },
            r is Err ==> final(self)@ == old(self)@,
    {
        let k = match self.find(id) {
            Some(k) => k,
            None => {
                proof {
                    lemma_evolves_stay(self@);
                }
                return Err(QueueError::NotFound);
            },
        };
        if self.tasks[k].status != TaskStatus::Pending {
            proof {
                lemma_evolves_stay(self@);
            }
            return Err(QueueError::InvalidTransition);
        }
        let mut t = self.tasks[k].duplicate();
        t.status = TaskStatus::Running;
        t.started_at = Some(now);
        self.replace_at(k, t);
        Ok(())
    }

    /// Moves a running task to completed with its output. The completion
    /// time is `now`, or the start time if the clock reads earlier.
    pub fn complete_task(&mut self, id: i64, output: String, now: i64) -> (r: Result<(), QueueError>)
        requires
            old(self).wf(),
        ensures
            final(self).wf(),
            evolves(old(self)@, final(self)@),
            final(self).next_id_spec() == old(self).next_id_spec(),
            index_of(old(self)@, id) is None ==> r == Err::<(), QueueError>(QueueError::NotFound),
            index_of(old(self)@, id) matches Some(k) ==> {
                let t = old(self)@[k];
                if t.status == TaskStatus::Running {
                    &&& r is Ok
                    &&& final(self)@ == old(self)@.update(
                        k,
                        TaskView {
                            status: TaskStatus::Completed,
                            output_content: Some(output@),
                            completed_at: Some(
                                if now >= t.started_at->Some_0 {
                                    now
                                } else {
                                    t.started_at->Some_0
                                },
                            ),
                            ..t
                        },
                    )
                } else {
                    r == Err::<(), QueueError>(QueueError::InvalidTransition)
                }
            },
            r is Err ==> final(self)@ == old(self)@,
    {
        let k = match self.find(id) {
            Some(k) => k,
            None => {
                proof {
                    lemma_evolves_stay(self@);
                }
                return Err(QueueError::NotFound);
            },
        };
        if self.tasks[k].status != TaskStatus::Running {
            proof {
                lemma_evolves_stay(self@);
            }
            return Err(QueueError::InvalidTransition);
        }
        let mut t = self.tasks[k].duplicate();
        proof {
            assert(times_ok(self@[k as int]));
        }
        let started = match t.started_at {
            Some(s) => s,
            None => now,
        };
        t.status = TaskStatus::Completed;
        t.output_content = Some(output);
        t.completed_at = Some(
            if now >= started {
                now
            } else {
                started
            },
        );
        self.replace_at(k, t);
        Ok(())
    }

    /// Marks a pending or running task failed with a message, finished at
    /// `now` (or at its start time if the clock reads earlier).
    pub fn fail_task(&mut self, id: i64, error: String, now: i64) -> (r: Result<(), QueueError>)
        requires
            old(self).wf(),
        ensures
            final(self).wf(),
            evolves(old(self)@, final(self)@),
            final(self).next_id_spec() == old(self).next_id_spec(),
            index_of(old(self)@, id) is None ==> r == Err::<(), QueueError>(QueueError::NotFound),
            index_of(old(self)@, id) matches Some(k) ==> {
                let t = old(self)@[k];
                if t.status == TaskStatus::Pending || t.status == TaskStatus::Running {
                    &&& r is Ok
                    &&& final(self)@ == old(self)@.update(
                        k,
                        TaskView {
                            status: TaskStatus::Failed,
                            error_message: Some(error@),
                            completed_at: Some(
                                match t.started_at {
                                    Some(s) => if now >= s {
                                        now
                                    } else {
                                        s
                                    },
                                    None => now,
                                },
                            ),
                            ..t
                        },
                    )
                } else {
                    r == Err::<(), QueueError>(QueueError::InvalidTransition)
                }
            },
            r is Err ==> final(self)@ == old(self)@,
    {
        let k = match self.find(id) {
            Some(k) => k,
            None => {
                proof {
                    lemma_evolves_stay(self@);
                }
                return Err(QueueError::NotFound);
            },
        };
        let st = self.tasks[k].status;
        if st != TaskStatus::Pending && st != TaskStatus::Running {
            proof {
                lemma_evolves_stay(self@);
            }
            return Err(QueueError::InvalidTransition);
        }
        let mut t = self.tasks[k].duplicate();
        let done = match t.started_at {
            Some(s) => if now >= s {
                now
            } else {
                s
            },
            None => now,
        };
        t.status = TaskStatus::Failed;
        t.error_message = Some(error);
        t.completed_at = Some(done);
        self.replace_at(k, t);
        Ok(())
    }

    /// Removes the task with this id; tells whether it was there.
    pub fn delete_cleaning_task(&mut self, id: i64) -> (r: bool)
        requires
            old(self).wf(),
        ensures
            final(self).wf(),
            final(self).next_id_spec() == old(self).next_id_spec(),
            evolves(old(self)@, final(self)@),
            r == index_of(old(self)@, id) is Some,
            index_of(old(self)@, id) matches Some(k) ==> final(self)@ == old(self)@.remove(k),
            index_of(old(self)@, id) is None ==> final(self)@ == old(self)@,
    {
        match self.find(id) {
            Some(k) => {
                let ghost before = self@;
                let _gone = self.tasks.remove(k);
                assert(self@ =~= before.remove(k as int));
                proof {
                    lemma_evolves_remove(before, k as int);
                }
                true
            },
            None => {
                proof {
                    lemma_evolves_stay(self@);
                }
                false
            },
        }
    }
}

/// How many tasks of `s` have status `st`.
pub open spec fn count_status(s: Seq<TaskView>, st: TaskStatus) -> int
    decreases s.len(),
{
    if s.len() == 0 {
        0
    } else {
        count_status(s.drop_last(), st) + if s.last().status == st {
            1int
        } else {
            0int
        }
    }
}

/// A completed task with both times recorded.
pub open spec fn timed_completion(t: TaskView) -> bool {
    t.status == TaskStatus::Completed && t.started_at is Some && t.completed_at is Some
}

/// Number of timed completions in `s`.
pub open spec fn timed_count(s: Seq<TaskView>) -> int
    decreases s.len(),
{
    if s.len() == 0 {
        0
    } else {
        timed_count(s.drop_last()) + if timed_completion(s.last()) {
            1int
        } else {
            0int
        }
    }
}

/// Total time from start to completion over the timed completions of `s`.
pub open spec fn timed_total(s: Seq<TaskView>) -> int
    decreases s.len(),
{
    if s.len() == 0 {
        0
    } else {
        timed_total(s.drop_last()) + if timed_completion(s.last()) {
            s.last().completed_at->Some_0 - s.last().started_at->Some_0
        } else {
            0int
        }
    }
}

proof fn lemma_counts_bounded(s: Seq<TaskView>)
    ensures
        0 <= count_status(s, TaskStatus::Pending) <= s.len(),
        0 <= count_status(s, TaskStatus::Running) <= s.len(),
        0 <= count_status(s, TaskStatus::Completed) <= s.len(),
        0 <= count_status(s, TaskStatus::Failed) <= s.len(),
        0 <= timed_count(s) <= s.len(),
        all_times_ok(s) ==> 0 <= timed_total(s) <= timed_count(s) * 0x1_0000_0000_0000_0000,
    decreases s.len(),
{
    if s.len() > 0 {
        lemma_counts_bounded(s.drop_last());
        if all_times_ok(s) {
            assert(all_times_ok(s.drop_last())) by {
                assert forall|i: int| 0 <= i < s.drop_last().len() implies times_ok(
                    #[trigger] s.drop_last()[i],
                ) by {
                    assert(s.drop_last()[i] == s[i]);
                }
            }
            assert(times_ok(s[s.len() - 1]));
        }
    }
}

/// The number as an `i64`, saturating at the largest value.
pub open spec fn saturate(n: int) -> i64 {
    if n <= i64::MAX as int {
        n as i64
    } else {
        i64::MAX
    }
}

impl CleaningQueue {
    /// The pending tasks, highest priority first, then earliest created,
    /// then lowest id; at most `limit` of them.
    pub fn get_pending_tasks(&self, limit: usize) -> (r: Vec<CleaningTask>)
        requires
            self.wf(),
        ensures
            exists|order: Seq<usize>|
                {
                    &&& #[trigger] is_ranking(queue_keys(pending_of(self@)), 0, limit as int, order)
                    &&& order.len() == r@.len()
                    &&& forall|i: int|
                        0 <= i < order.len() ==> (#[trigger] r@[i])@ == pending_of(
                            self@,
                        )[order[i] as int]
                },
    {
        let mut pend: Vec<CleaningTask> = Vec::new();
        let mut keys: Vec<u128> = Vec::new();
        let mut i: usize = 0;
        while i < self.tasks.len()
            invariant
                i <= self@.len(),
                pend@.map_values(|t: CleaningTask| t@) == pending_of(self@.subrange(0, i as int)),
                keys@ == queue_keys(pending_of(self@.subrange(0, i as int))),
            decreases self@.len() - i,
        {
            let ghost pre = self@.subrange(0, i as int);
            let ghost cur = self@.subrange(0, i + 1);
            assert(cur.drop_last() =~= pre);
            assert(self@[i as int] == self.tasks@[i as int]@);
            if self.tasks[i].status == TaskStatus::Pending {
                let ghost pv = pend@;
                let ghost kv = keys@;
                let c = self.tasks[i].duplicate();
                keys.push(compute_queue_key(&c));
                pend.push(c);
                assert(pend@.map_values(|t: CleaningTask| t@) =~= pv.map_values(|t: CleaningTask| t@).push(c@));
                assert(keys@ =~= queue_keys(pending_of(cur)));
            }
            i = i + 1;
        }
        assert(self@.subrange(0, self@.len() as int) =~= self@);
        let order = rank_by_score(&keys, 0, limit);
        let mut out: Vec<CleaningTask> = Vec::new();
        let mut k: usize = 0;
        while k < order.len()
            invariant
                is_ranking(keys@, 0, limit as int, order@),
                keys@ == queue_keys(pending_of(self@)),
                pend@.map_values(|t: CleaningTask| t@) == pending_of(self@),
                k <= order@.len(),
                out@.len() == k,
                forall|j: int|
                    0 <= j < k ==> (#[trigger] out@[j])@ == pending_of(self@)[order@[j] as int],
            decreases order.len() - k,
        {
            let p = order[k];
            assert(p < keys@.len());
            out.push(pend[p].duplicate());
            k = k + 1;
        }
        out
    }

    /// Task counts by status (saturating), and the mean start-to-completion
    /// time of completed tasks in milliseconds, if any has both times.
    pub fn get_cleaning_stats(&self) -> (r: CleaningTaskStats)
        requires
            self.wf(),
        ensures
            r.total_tasks == saturate(self@.len() as int),
            r.pending_tasks == saturate(count_status(self@, TaskStatus::Pending)),
            r.running_tasks == saturate(count_status(self@, TaskStatus::Running)),
            r.completed_tasks == saturate(count_status(self@, TaskStatus::Completed)),
            r.failed_tasks == saturate(count_status(self@, TaskStatus::Failed)),
            timed_count(self@) == 0 <==> r.average_processing_time is None,
            r.average_processing_time matches Some(a) ==> a == saturate(
                timed_total(self@) / timed_count(self@),
            ),
    {
        let n = self.tasks.len();
        let mut pending: usize = 0;
        let mut running: usize = 0;
        let mut completed: usize = 0;
        let mut failed: usize = 0;
        let mut timed: usize = 0;
        let mut total: u128 = 0;
        let mut i: usize = 0;
        while i < n
            invariant
                n == self@.len(),
                self.wf(),
                i <= n,
                pending as int == count_status(self@.subrange(0, i as int), TaskStatus::Pending),
                running as int == count_status(self@.subrange(0, i as int), TaskStatus::Running),
                completed as int == count_status(self@.subrange(0, i as int), TaskStatus::Completed),
                failed as int == count_status(self@.subrange(0, i as int), TaskStatus::Failed),
                timed as int == timed_count(self@.subrange(0, i as int)),
                total as int == timed_total(self@.subrange(0, i as int)),
            decreases n - i,
        {
            let ghost pre = self@.subrange(0, i as int);
            let ghost cur = self@.subrange(0, i + 1);
            assert(cur.drop_last() =~= pre);
            assert(all_times_ok(cur)) by {
                assert forall|j: int| 0 <= j < cur.len() implies times_ok(#[trigger] cur[j]) by {
                    assert(cur[j] == self@[j]);
                }
            }
            proof {
                lemma_counts_bounded(cur);
                lemma_counts_bounded(pre);
            }
            assert(timed_total(cur) <= (i + 1) * 0x1_0000_0000_0000_0000) by (nonlinear_arith)
                requires
                    timed_total(cur) <= timed_count(cur) * 0x1_0000_0000_0000_0000,
                    timed_count(cur) <= i + 1,
            ;
            assert((i + 1) * 0x1_0000_0000_0000_0000 <= u128::MAX) by (nonlinear_arith)
                requires
                    i < n,
                    n <= usize::MAX,
            ;
            let t = &self.tasks[i];
            assert(t@ == self@[i as int]);
            assert(times_ok(self@[i as int]));
            match t.status {
                TaskStatus::Pending => {
                    pending = pending + 1;
                },
                TaskStatus::Running => {
                    running = running + 1;
                },
                TaskStatus::Completed => {
                    completed = completed + 1;
                    match (t.started_at, t.completed_at) {
                        (Some(s), Some(c)) => {
                            timed = timed + 1;
                            total = total + (c as i128 - s as i128) as u128;
                        },
                        _ => {},
                    }
                },
                TaskStatus::Failed => {
                    failed = failed + 1;
                },
            }
            i = i + 1;
        }
        assert(self@.subrange(0, n as int) =~= self@);
        let avg = if timed > 0 {
            let a = total / (timed as u128);
            proof {
                lemma_counts_bounded(self@);
            }
            assert(a <= total);
            if a <= 0x7fff_ffff_ffff_ffffu128 {
                Some(a as i64)
            } else {
                Some(i64::MAX)
            }
        } else {
            None
        };
        CleaningTaskStats {
            total_tasks: sat(n),
            pending_tasks: sat(pending),
            running_tasks: sat(running),
            completed_tasks: sat(completed),
            failed_tasks: sat(failed),
            average_processing_time: avg,
        }
    }
}

fn sat(n: usize) -> (r: i64)
    ensures
        r == saturate(n as int),
{
    if n as u64 <= 0x7fff_ffff_ffff_ffffu64 {
        n as i64
    } else {
        i64::MAX
    }
}

/// The instruction sent to the text-generation service for a task type
/// that needs a model, ahead of the task's input.
pub open spec fn model_instruction(t: CleaningTaskType) -> Seq<char> {
    match t {
        CleaningTaskType::StructureRepair => "Please analyze and repair the structure of the following document. Fix headings, paragraphs, lists, and other structural elements. Return only the repaired document:\n\n"@,
        CleaningTaskType::ContentNormalization => "Please normalize the following content to a consistent format. Standardize formatting, spacing, and structure. Return only the normalized content:\n\n"@,
        CleaningTaskType::DuplicateRemoval => "Please identify and remove duplicate content from the following text. Keep only unique content and maintain the original structure. Return only the deduplicated content:\n\n"@,
        _ => Seq::empty(),
    }
}

/// Task types whose transform runs locally.
pub open spec fn is_local(t: CleaningTaskType) -> bool {
    t == CleaningTaskType::TextCleanup || t == CleaningTaskType::MetadataExtraction || t
        == CleaningTaskType::FormatConversion
}

/// What running a task's transform asks for next.
pub enum TransformStep {
    /// Clean the input with `text_cleanup`.
    Cleanup,
    /// Analyse the input with `metadata_extraction`.
    Analyse,
    /// Normalise the input with `format_conversion`.
    Convert,
    /// Ask the text-generation service with this prompt.
    AskModel(String),
}

/// The next step for a task of type `t` with input `input`: a local
/// transform for the three local types, otherwise a prompt for the model.
pub fn transform_step(t: CleaningTaskType, input: &str) -> (r: TransformStep)
    ensures
        t == CleaningTaskType::TextCleanup ==> r is Cleanup,
        t == CleaningTaskType::MetadataExtraction ==> r is Analyse,
        t == CleaningTaskType::FormatConversion ==> r is Convert,
        !is_local(t) ==> (r matches TransformStep::AskModel(p) && p@ == model_instruction(t) + input@),
{
    let head = match t {
        CleaningTaskType::TextCleanup => {
            return TransformStep::Cleanup;
        },
        CleaningTaskType::MetadataExtraction => {
            return TransformStep::Analyse;
        },
        CleaningTaskType::FormatConversion => {
            return TransformStep::Convert;
        },
        CleaningTaskType::StructureRepair => "Please analyze and repair the structure of the following document. Fix headings, paragraphs, lists, and other structural elements. Return only the repaired document:\n\n",
        CleaningTaskType::ContentNormalization => "Please normalize the following content to a consistent format. Standardize formatting, spacing, and structure. Return only the normalized content:\n\n",
        CleaningTaskType::DuplicateRemoval => "Please identify and remove duplicate content from the following text. Keep only unique content and maintain the original structure. Return only the deduplicated content:\n\n",
    };
    let mut p = String::from_str(head);
    p.append(input);
    TransformStep::AskModel(p)
}

/// Content handed to indexing after a cleanup task completes.
pub struct IndexRequest {
    pub content_id: i64,
    pub content_type: String,
    pub content: String,
}

impl CleaningQueue {
    /// Records the outcome of a running task's transform: its output on
    /// success, its message on failure. A completed text cleanup hands its
    /// output on for indexing under content type `cleaned_file`.
    pub fn finish_task(&mut self, id: i64, outcome: Result<String, String>, now: i64) -> (r: Result<
        Option<IndexRequest>,
        QueueError,
    >)
        requires
            old(self).wf(),
        ensures
            final(self).wf(),
            evolves(old(self)@, final(self)@),
            final(self).next_id_spec() == old(self).next_id_spec(),
            index_of(old(self)@, id) is None ==> r is Err,
            index_of(old(self)@, id) matches Some(k) ==> {
                let t = old(self)@[k];
                &&& (t.status == TaskStatus::Running) <==> r is Ok
                &&& r is Ok && outcome is Ok ==> final(self)@ == old(self)@.update(
                    k,
                    TaskView {
                        status: TaskStatus::Completed,
                        output_content: Some(outcome->Ok_0@),
                        completed_at: Some(
                            if now >= t.started_at->Some_0 {
                                now
                            } else {
                                t.started_at->Some_0
                            },
                        ),
                        ..t
                    },
                )
                &&& r is Ok && outcome is Err ==> final(self)@ == old(self)@.update(
                    k,
                    TaskView {
                        status: TaskStatus::Failed,
                        error_message: Some(outcome->Err_0@),
                        completed_at: Some(
                            if now >= t.started_at->Some_0 {
                                now
                            } else {
                                t.started_at->Some_0
                            },
                        ),
                        ..t
                    },
                )
                &&& r matches Ok(req) ==> (req is Some <==> (outcome is Ok && t.task_type
                    == CleaningTaskType::TextCleanup))
                &&& r matches Ok(Some(req)) ==> req.content_id == t.file_id && req.content@
                    == outcome->Ok_0@ && req.content_type@ == "cleaned_file"@
            },
            r is Err ==> final(self)@ == old(self)@,
    {
        let k = match self.find(id) {
            Some(k) => k,
            None => {
                proof {
                    lemma_evolves_stay(self@);
                }
                return Err(QueueError::NotFound);
            },
        };
        if self.tasks[k].status != TaskStatus::Running {
            proof {
                lemma_evolves_stay(self@);
            }
            return Err(QueueError::InvalidTransition);
        }
        let file_id = self.tasks[k].file_id;
        let is_cleanup = self.tasks[k].task_type == CleaningTaskType::TextCleanup;
        match outcome {
            Ok(text) => {
                let copy = text.clone();
                let res = self.complete_task(id, text, now);
                assert(res is Ok);
                if is_cleanup {
                    Ok(
                        Some(
                            IndexRequest {
                                content_id: file_id,
                                content_type: String::from_str("cleaned_file"),
                                content: copy,
                            },
                        ),
                    )
                } else {
                    Ok(None)
                }
            },
            Err(msg) => {
                let res = self.fail_task(id, msg, now);
                assert(res is Ok);
                Ok(None)
            },
        }
    }
}

/// The output a locally transformed task gets from its input.
pub open spec fn local_output(t: CleaningTaskType, input: Seq<char>) -> Seq<char> {
    match t {
        CleaningTaskType::TextCleanup => cleaned_text(input),
        CleaningTaskType::FormatConversion => converted_text(input),
        CleaningTaskType::MetadataExtraction => metadata_report(input),
        _ => Seq::empty(),
    }
}

/// A task's input, or the empty text when it has none.
pub open spec fn input_of(t: TaskView) -> Seq<char> {
    match t.input_content {
        Some(x) => x,
        None => Seq::empty(),
    }
}

impl CleaningQueue {
    /// Runs a pending task whose transform is local (text cleanup, format
    /// conversion, metadata extraction): it starts at `start`, gets the
    /// transform of its input as output and completes at `end` (or at
    /// `start` if the clock reads earlier). A completed text cleanup is
    /// handed on for indexing. Any other task is left alone.
    pub fn run_local_task(&mut self, id: i64, start: i64, end: i64) -> (r: Result<
        Option<IndexRequest>,
        QueueError,
    >)
        requires
            old(self).wf(),
        ensures
            final(self).wf(),
            evolves(old(self)@, final(self)@),
            final(self).next_id_spec() == old(self).next_id_spec(),
            index_of(old(self)@, id) is None ==> r == Err::<Option<IndexRequest>, QueueError>(
                QueueError::NotFound,
            ),
            index_of(old(self)@, id) matches Some(k) ==> {
                let t = old(self)@[k];
                if t.status == TaskStatus::Pending && is_local(t.task_type) {
                    &&& r is Ok
                    &&& final(self)@ == old(self)@.update(
                        k,
                        TaskView {
                            status: TaskStatus::Completed,
                            output_content: Some(local_output(t.task_type, input_of(t))),
                            started_at: Some(start),
                            completed_at: Some(
                                if end >= start {
                                    end
                                } else {
                                    start
                                },
                            ),
                            ..t
                        },
                    )
                    &&& (r->Ok_0 is Some <==> t.task_type == CleaningTaskType::TextCleanup)
                    &&& r matches Ok(Some(req)) ==> req.content_id == t.file_id && req.content@
                        == local_output(t.task_type, input_of(t)) && req.content_type@
                        == "cleaned_file"@
                } else {
                    r == Err::<Option<IndexRequest>, QueueError>(QueueError::InvalidTransition)
                }
            },
            r is Err ==> final(self)@ == old(self)@,
    {
        let k = match self.find(id) {
            Some(k) => k,
            None => {
                proof {
                    lemma_evolves_stay(self@);
                }
                return Err(QueueError::NotFound);
            },
        };
        let ty = self.tasks[k].task_type;
        let local = ty == CleaningTaskType::TextCleanup || ty == CleaningTaskType::FormatConversion
            || ty == CleaningTaskType::MetadataExtraction;
        if self.tasks[k].status != TaskStatus::Pending || !local {
            proof {
                lemma_evolves_stay(self@);
            }
            return Err(QueueError::InvalidTransition);
        }
        let input = match &self.tasks[k].input_content {
            Some(x) => x.clone(),
            None => String::new(),
        };
        assert(input@ == input_of(self@[k as int]));
        let ghost s0 = self@;
        let started = self.start_task(id, start);
        assert(started is Ok);
        let ghost s1 = self@;
        proof {
            self.lemma_wf_facts();
            lemma_index_of_unique(s1, k as int);
            assert(s1[k as int].id == id);
        }
        let output = match ty {
            CleaningTaskType::TextCleanup => clean_lines(input.as_str()),
            CleaningTaskType::FormatConversion => normalize_format(input.as_str()).text,
            _ => metadata_report_text(input.as_str()),
        };
        assert(output@ == local_output(ty, input@));
        let r = self.finish_task(id, Ok(output), end);
        proof {
            assert(self@ =~= s0.update(
                k as int,
                TaskView {
                    status: TaskStatus::Completed,
                    output_content: Some(local_output(ty, input@)),
                    started_at: Some(start),
                    completed_at: Some(
                        if end >= start {
                            end
                        } else {
                            start
                        },
                    ),
                    ..s0[k as int]
                },
            ));
            lemma_evolves_compose(s0, s1, self@);
        }
        r
    }
}

/// Allowed status steps compose: two steps in a row are one allowed step.
pub proof fn lemma_evolves_compose(a: Seq<TaskView>, b: Seq<TaskView>, c: Seq<TaskView>)
    requires
        evolves(a, b),
        evolves(b, c),
        a.len() == b.len(),
        forall|i: int| 0 <= i < a.len() ==> #[trigger] a[i].id == b[i].id,
    ensures
        evolves(a, c),
{
    assert forall|i: int, j: int|
        0 <= i < a.len() && 0 <= j < c.len() && #[trigger] a[i].id == #[trigger] c[j].id implies may_follow(
        a[i].status,
        c[j].status,
    ) by {
        assert(b[i].id == a[i].id);
        assert(may_follow(a[i].status, b[i].status));
        assert(may_follow(b[i].status, c[j].status));
    }
}

} // verus!
