//! The bounded scheduler: which top-level entries become units of work,
//! where each of them writes, how many may run at once, and what the run as
//! a whole reports.

use crate::error::CopyError;
use crate::path::{
    at_or_below, copy_bytes, file_name, file_name_of, join_path, joined, lemma_file_name_is_plain,
    lemma_joined_child, lemma_siblings_apart, normalized,
};
use crate::utils::{trim_filename, trimmed};
use vstd::prelude::*;

verus! {

/// What the file system says a source path is.
#[derive(Debug, Clone, Copy, PartialEq, Eq)]
pub enum PathKind {
    /// Nothing exists at the path.
    Missing,
    /// A regular file.
    File,
    /// A directory.
    Directory,
    /// Something else: a socket, a device.
    Other,
}

/// The verdict on a source entry.
#[derive(Debug, PartialEq, Eq)]
pub enum Admission {
    /// A regular file: it becomes a unit of work.
    File,
    /// A directory, and recursion was asked for: it becomes a unit of work.
    Directory,
    /// Neither a file nor a directory: there is nothing to copy and nothing
    /// has failed.
    Skipped,
    /// The entry cannot be copied.
    Rejected(CopyError),
}

/// Where a unit of work stands.
#[derive(Debug, Clone, Copy, PartialEq, Eq)]
pub enum TaskState {
    /// Waiting for a slot.
    Queued,
    /// Holding a slot.
    Running,
    /// Finished without error; its slot is free again.
    Succeeded,
    /// Finished with an error; its slot is free again.
    Failed,
}

/// One unit of work: a top-level entry and the place it is copied to.
#[derive(Debug, PartialEq, Eq)]
pub struct CopyTask {
    /// Position among the scheduled entries; names the task when it finishes.
    pub index: usize,
    /// The entry as it was given.
    pub source: Vec<u8>,
    /// The destination directory extended by the entry's final name.
    pub dest: Vec<u8>,
    /// Whether the entry is a directory, to be copied as a tree.
    pub is_dir: bool,
}

/// The mathematical content of a [`CopyTask`].
pub struct CopyTaskView {
    pub index: nat,
    pub source: Seq<u8>,
    pub dest: Seq<u8>,
    pub is_dir: bool,
}

impl View for CopyTask {
    type V = CopyTaskView;

    open spec fn view(&self) -> CopyTaskView {
        CopyTaskView {
            index: self.index as nat,
            source: self.source@,
            dest: self.dest@,
            is_dir: self.is_dir,
        }
    }
}

impl CopyTask {
    /// The same unit of work, as a value of its own.
    pub fn duplicate(&self) -> (copy: CopyTask)
        ensures
            copy@ == self@,
    {
        CopyTask {
            index: self.index,
            source: copy_bytes(self.source.as_slice()),
            dest: copy_bytes(self.dest.as_slice()),
            is_dir: self.is_dir,
        }
    }
}

/// Widest name shown beside a progress bar.
pub const LABEL_WIDTH: usize = 28;

/// The number of slots of a run: what was asked for, but no more than the
/// machine has processing units.
pub open spec fn slots(requested: nat, available: nat) -> nat {
    if requested <= available {
        requested
    } else {
        available
    }
}

/// Clamps the requested concurrency to the available parallelism.
pub fn clamp_concurrency(requested: usize, available: usize) -> (limit: usize)
    ensures
        limit == slots(requested as nat, available as nat),
{
    if requested <= available {
        requested
    } else {
        available
    }
}

/// The name under which an entry is copied and shown: its final name, or
/// the whole path where it has none.
pub open spec fn entry_name_of(source: Seq<u8>) -> Seq<u8> {
    match file_name_of(source) {
        Some(name) => name,
        None => source,
    }
}

/// Computes the name under which the entry `source` is copied and shown.
pub fn entry_name(source: &[u8]) -> (name: Vec<u8>)
    ensures
        name@ == entry_name_of(source@),
{
    match file_name(source) {
        Some(name) => name,
        None => copy_bytes(source),
    }
}

/// Where an entry is copied to: the destination directory extended by the
/// entry's name.
pub open spec fn target_of(destination: Seq<u8>, source: Seq<u8>) -> Seq<u8> {
    joined(destination, entry_name_of(source))
}

/// Computes the path that the entry `source` is copied to below `destination`.
pub fn target_path(destination: &[u8], source: &[u8]) -> (dest: Vec<u8>)
    ensures
        dest@ == target_of(destination@, source@),
{
    let name = entry_name(source);
    join_path(destination, name.as_slice())
}

/// The text shown beside the progress bar of an entry with the given name:
/// the name, trimmed to the width of a label, behind the word that says
/// what is done to it.
pub fn progress_label(name: &str) -> (label: String)
    ensures
        label@ == "Copying "@ + trimmed(name@, LABEL_WIDTH as nat),
{
    let shown = trim_filename(name, LABEL_WIDTH);
    let mut label = "Copying ".to_owned();
    label.append(shown.as_str());
    label
}

/// The verdict on an entry of the given kind: a missing entry is rejected,
/// and so is a directory unless recursion was asked for.
pub open spec fn admission_of(kind: PathKind, recursive: bool) -> Admission {
    match kind {
        PathKind::Missing => Admission::Rejected(CopyError::SourceNotFound),
        PathKind::Directory => if recursive {
            Admission::Directory
        } else {
            Admission::Rejected(CopyError::SourceIsDirectoryWithoutRecursion)
        },
        PathKind::File => Admission::File,
        PathKind::Other => Admission::Skipped,
    }
}

/// Validates a source entry before any work is scheduled for it.
pub fn validate_source(kind: PathKind, recursive: bool) -> (verdict: Admission)
    ensures
        verdict == admission_of(kind, recursive),
{
    match kind {
        PathKind::Missing => Admission::Rejected(CopyError::SourceNotFound),
        PathKind::Directory => if recursive {
            Admission::Directory
        } else {
            Admission::Rejected(CopyError::SourceIsDirectoryWithoutRecursion)
        },
        PathKind::File => Admission::File,
        PathKind::Other => Admission::Skipped,
    }
}

/// How many of the given states are `Running`.
pub open spec fn count_running(states: Seq<TaskState>) -> nat
    decreases states.len(),
{
    if states.len() == 0 {
        0
    } else {
        count_running(states.drop_last()) + if states.last() is Running {
            1nat
        } else {
            0nat
        }
    }
}

/// Replacing one state changes the count of running tasks by what the old
/// and the new state contribute.
pub proof fn lemma_count_running_update(states: Seq<TaskState>, index: int, state: TaskState)
    requires
        0 <= index < states.len(),
    ensures
        count_running(states.update(index, state)) + (if states[index] is Running {
            1nat
        } else {
            0nat
        }) == count_running(states) + (if state is Running {
            1nat
        } else {
            0nat
        }),
    decreases states.len(),
{
    let updated = states.update(index, state);
    if index == states.len() - 1 {
        assert(updated.drop_last() =~= states.drop_last());
    } else {
        assert(updated.drop_last() =~= states.drop_last().update(index, state));
        lemma_count_running_update(states.drop_last(), index, state);
    }
}

/// Whether one of the given states is `Failed`.
pub open spec fn any_failed(states: Seq<TaskState>) -> bool {
    exists|i: int| 0 <= i < states.len() && #[trigger] states[i] is Failed
}

/// A state put behind the others brings a failure exactly when it is one.
pub proof fn lemma_any_failed_push(states: Seq<TaskState>, state: TaskState)
    ensures
        any_failed(states.push(state)) <==> any_failed(states) || state is Failed,
{
    let longer = states.push(state);
    if any_failed(states) {
        let k = choose|i: int| 0 <= i < states.len() && #[trigger] states[i] is Failed;
        assert(longer[k] is Failed);
    }
    if state is Failed {
        assert(longer[states.len() as int] is Failed);
    }
    if any_failed(longer) {
        let k = choose|i: int| 0 <= i < longer.len() && #[trigger] longer[i] is Failed;
        if k < states.len() {
            assert(states[k] is Failed);
        }
    }
}

/// A state put in the place of one that is not a failure brings a failure
/// exactly when it is one.
pub proof fn lemma_any_failed_update(states: Seq<TaskState>, index: int, state: TaskState)
    requires
        0 <= index < states.len(),
        !(states[index] is Failed),
    ensures
        any_failed(states.update(index, state)) <==> any_failed(states) || state is Failed,
{
    let updated = states.update(index, state);
    if any_failed(states) {
        let k = choose|i: int| 0 <= i < states.len() && #[trigger] states[i] is Failed;
        assert(updated[k] is Failed);
    }
    if state is Failed {
        assert(updated[index] is Failed);
    }
    if any_failed(updated) {
        let k = choose|i: int| 0 <= i < updated.len() && #[trigger] updated[i] is Failed;
        if k != index {
            assert(states[k] is Failed);
        }
    }
}

/// The mathematical content of a [`Scheduler`].
pub struct SchedulerView {
    /// The directory that every entry is copied into.
    pub destination: Seq<u8>,
    /// Whether directories are accepted.
    pub recursive: bool,
    /// The number of slots.
    pub limit: nat,
    /// The units of work, in the order in which they were scheduled.
    pub tasks: Seq<CopyTaskView>,
    /// The state of each unit of work.
    pub states: Seq<TaskState>,
    /// How many units of work have been handed out.
    pub started: nat,
    /// How many units of work hold a slot.
    pub running: nat,
    /// Whether an entry was rejected.
    pub rejected: bool,
    /// Whether a unit of work failed.
    pub task_failed: bool,
}

impl SchedulerView {
    /// A scheduler before anything was submitted.
    pub open spec fn initial(destination: Seq<u8>, recursive: bool, limit: nat) -> SchedulerView {
        SchedulerView {
            destination,
            recursive,
            limit,
            tasks: Seq::empty(),
            states: Seq::empty(),
            started: 0,
            running: 0,
            rejected: false,
            task_failed: false,
        }
    }

    /// What holds of every scheduler: tasks are handed out in order, each
    /// writes below the destination under its own name, the slots in use
    /// are counted exactly and never exceed the limit, and a failed task is
    /// remembered.
    pub open spec fn wf(self) -> bool {
        &&& self.states.len() == self.tasks.len()
        &&& self.started <= self.tasks.len()
        &&& forall|i: int|
            0 <= i < self.states.len() ==> ((#[trigger] self.states[i] is Queued) <==> i
                >= self.started)
        &&& forall|i: int|
            0 <= i < self.tasks.len() ==> (#[trigger] self.tasks[i]).index == i && self.tasks[i].dest
                == target_of(self.destination, self.tasks[i].source)
        &&& self.running == count_running(self.states)
        &&& self.running <= self.limit
        &&& self.task_failed <==> any_failed(self.states)
    }

    /// The scheduler after an entry of the given kind was submitted: a file
    /// or an accepted directory is queued as a new unit of work, a rejected
    /// entry is recorded as a failure, anything else changes nothing.
    pub open spec fn submitted(self, source: Seq<u8>, kind: PathKind) -> SchedulerView {
        match admission_of(kind, self.recursive) {
            Admission::File | Admission::Directory => SchedulerView {
                tasks: self.tasks.push(
                    CopyTaskView {
                        index: self.tasks.len(),
                        source,
                        dest: target_of(self.destination, source),
                        is_dir: kind is Directory,
                    },
                ),
                states: self.states.push(TaskState::Queued),
                ..self
            },
            Admission::Skipped => self,
            Admission::Rejected(_) => SchedulerView { rejected: true, ..self },
        }
    }

    /// Whether a unit of work may begin: one is waiting and a slot is free.
    pub open spec fn can_start(self) -> bool {
        self.started < self.tasks.len() && self.running < self.limit
    }

    /// The scheduler after the next unit of work was handed out, if one may
    /// begin.
    pub open spec fn started_next(self) -> SchedulerView {
        if self.can_start() {
            SchedulerView {
                states: self.states.update(self.started as int, TaskState::Running),
                started: self.started + 1,
                running: self.running + 1,
                ..self
            }
        } else {
            self
        }
    }

    /// The scheduler after the unit of work `index` reported its end. Only a
    /// running task can end: any other report changes nothing.
    pub open spec fn completed(self, index: nat, succeeded: bool) -> SchedulerView {
        if index < self.states.len() && self.states[index as int] is Running {
            SchedulerView {
                states: self.states.update(
                    index as int,
                    if succeeded {
                        TaskState::Succeeded
                    } else {
                        TaskState::Failed
                    },
                ),
                running: (self.running - 1) as nat,
                task_failed: self.task_failed || !succeeded,
                ..self
            }
        } else {
            self
        }
    }

    /// Nothing waits and nothing runs.
    pub open spec fn is_done(self) -> bool {
        self.started == self.tasks.len() && self.running == 0
    }

    /// The aggregate outcome: an entry was rejected or a unit of work failed.
    pub open spec fn overall_failed(self) -> bool {
        self.rejected || self.task_failed
    }
}

/// Submitting an entry keeps the scheduler well formed.
pub proof fn lemma_submitted_wf(v: SchedulerView, source: Seq<u8>, kind: PathKind)
    requires
        v.wf(),
    ensures
        v.submitted(source, kind).wf(),
{
    let w = v.submitted(source, kind);
    match admission_of(kind, v.recursive) {
        Admission::File | Admission::Directory => {
            assert(w.states.drop_last() =~= v.states);
            assert forall|i: int| 0 <= i < w.states.len() implies ((#[trigger] w.states[i] is Queued)
                <==> i >= w.started) by {
                if i < v.states.len() {
                    assert(w.states[i] == v.states[i]);
                }
            }
            assert forall|i: int| 0 <= i < w.tasks.len() implies (#[trigger] w.tasks[i]).index == i
                && w.tasks[i].dest == target_of(w.destination, w.tasks[i].source) by {
                if i < v.tasks.len() {
                    assert(w.tasks[i] == v.tasks[i]);
                }
            }
            lemma_any_failed_push(v.states, TaskState::Queued);
        },
        _ => {},
    }
}

/// Handing out a unit of work keeps the scheduler well formed.
pub proof fn lemma_started_next_wf(v: SchedulerView)
    requires
        v.wf(),
    ensures
        v.started_next().wf(),
{
    let w = v.started_next();
    if v.can_start() {
        assert(v.states[v.started as int] is Queued);
        lemma_count_running_update(v.states, v.started as int, TaskState::Running);
        lemma_any_failed_update(v.states, v.started as int, TaskState::Running);
    }
}

/// Recording the end of a unit of work keeps the scheduler well formed.
pub proof fn lemma_completed_wf(v: SchedulerView, index: nat, succeeded: bool)
    requires
        v.wf(),
    ensures
        v.completed(index, succeeded).wf(),
{
    let w = v.completed(index, succeeded);
    if index < v.states.len() && v.states[index as int] is Running {
        lemma_count_running_update(v.states, index as int, w.states[index as int]);
        lemma_any_failed_update(v.states, index as int, w.states[index as int]);
    }
}

/// The views of a vector of tasks.
pub open spec fn task_views(tasks: Seq<CopyTask>) -> Seq<CopyTaskView> {
    Seq::new(tasks.len(), |i: int| tasks[i]@)
}

/// Drives a copy request to completion with a bounded number of units of
/// work in flight. The caller submits each top-level entry with what the
/// file system says of it, starts the tasks that `next_task` hands out, and
/// reports each one's end with `task_finished`.
pub struct Scheduler {
    destination: Vec<u8>,
    recursive: bool,
    limit: usize,
    tasks: Vec<CopyTask>,
    states: Vec<TaskState>,
    started: usize,
    running: usize,
    rejected: bool,
    task_failed: bool,
}

impl View for Scheduler {
    type V = SchedulerView;

    closed spec fn view(&self) -> SchedulerView {
        SchedulerView {
            destination: self.destination@,
            recursive: self.recursive,
            limit: self.limit as nat,
            tasks: task_views(self.tasks@),
            states: self.states@,
            started: self.started as nat,
            running: self.running as nat,
            rejected: self.rejected,
            task_failed: self.task_failed,
        }
    }
}

impl Scheduler {
    /// A scheduler for copies into `destination`, with as many slots as
    /// were requested but no more than there are processing units.
    pub fn new(destination: Vec<u8>, recursive: bool, requested: usize, available: usize) -> (scheduler:
        Scheduler)
        ensures
            scheduler@ == SchedulerView::initial(
                destination@,
                recursive,
                slots(requested as nat, available as nat),
            ),
            scheduler@.wf(),
    {
        let scheduler = Scheduler {
            destination,
            recursive,
            limit: clamp_concurrency(requested, available),
            tasks: Vec::new(),
            states: Vec::new(),
            started: 0,
            running: 0,
            rejected: false,
            task_failed: false,
        };
        assert(scheduler@.tasks =~= Seq::<CopyTaskView>::empty());
        assert(scheduler@.states =~= Seq::<TaskState>::empty());
        scheduler
    }

    /// Submits one top-level entry. A missing entry, or a directory when
    /// recursion was not asked for, is recorded as a failure and never
    /// takes a slot; a file or an accepted directory is queued.
    pub fn submit(&mut self, source: Vec<u8>, kind: PathKind) -> (verdict: Admission)
        requires
            old(self)@.wf(),
        ensures
            final(self)@ == old(self)@.submitted(source@, kind),
            final(self)@.wf(),
            verdict == admission_of(kind, old(self)@.recursive),
    {
        proof {
            lemma_submitted_wf(self@, source@, kind);
        }
        let verdict = validate_source(kind, self.recursive);
        match verdict {
            Admission::File | Admission::Directory => {
                let dest = target_path(self.destination.as_slice(), source.as_slice());
                let is_dir = match kind {
                    PathKind::Directory => true,
                    _ => false,
                };
                let task = CopyTask { index: self.tasks.len(), source, dest, is_dir };
                self.tasks.push(task);
                self.states.push(TaskState::Queued);
                assert(self@.tasks =~= old(self)@.submitted(source@, kind).tasks);
            },
            Admission::Skipped => {},
            Admission::Rejected(_) => {
                self.rejected = true;
            },
        }
        verdict
    }

    /// Hands out the next unit of work if one is waiting and a slot is
    /// free; the task holds the slot until its end is reported.
    pub fn next_task(&mut self) -> (task: Option<CopyTask>)
        requires
            old(self)@.wf(),
        ensures
            final(self)@ == old(self)@.started_next(),
            final(self)@.wf(),
            match task {
                Some(t) => old(self)@.can_start() && t@ == old(self)@.tasks[old(self)@.started as int],
                None => !old(self)@.can_start(),
            },
    {
        proof {
            lemma_started_next_wf(self@);
        }
        if self.started < self.tasks.len() && self.running < self.limit {
            let task = self.tasks[self.started].duplicate();
            self.states.set(self.started, TaskState::Running);
            self.started = self.started + 1;
            self.running = self.running + 1;
            Some(task)
        } else {
            None
        }
    }

    /// Records that the unit of work `index` has ended and frees its slot,
    /// whether it succeeded or not. A report for a task that is not running
    /// is ignored.
    pub fn task_finished(&mut self, index: usize, succeeded: bool)
        requires
            old(self)@.wf(),
        ensures
            final(self)@ == old(self)@.completed(index as nat, succeeded),
            final(self)@.wf(),
    {
        proof {
            lemma_completed_wf(self@, index as nat, succeeded);
        }
        if index < self.states.len() {
            let is_running = match self.states[index] {
                TaskState::Running => true,
                _ => false,
            };
            if is_running {
                proof {
                    // A running task is counted, so the count is not zero.
                    lemma_count_running_update(self@.states, index as int, TaskState::Succeeded);
                }
                if succeeded {
                    self.states.set(index, TaskState::Succeeded);
                } else {
                    self.states.set(index, TaskState::Failed);
                    self.task_failed = true;
                }
                self.running = self.running - 1;
            }
        }
    }

    /// Whether every scheduled unit of work has been started and has ended.
    pub fn is_done(&self) -> (done: bool)
        ensures
            done == self@.is_done(),
    {
        self.started == self.tasks.len() && self.running == 0
    }

    /// Whether any entry was rejected or any unit of work failed.
    pub fn overall_failed(&self) -> (failed: bool)
        ensures
            failed == self@.overall_failed(),
    {
        self.rejected || self.task_failed
    }

    /// The number of slots.
    pub fn limit(&self) -> (limit: usize)
        ensures
            limit == self@.limit,
    {
        self.limit
    }

    /// The number of units of work that hold a slot.
    pub fn running(&self) -> (running: usize)
        ensures
            running == self@.running,
    {
        self.running
    }
}

/// One step of a run, as the scheduler sees it.
pub enum SchedulerOp {
    /// An entry is submitted.
    Submit { source: Seq<u8>, kind: PathKind },
    /// The next unit of work is asked for.
    Start,
    /// The end of a unit of work is reported.
    Finish { index: nat, succeeded: bool },
}

/// The scheduler after one step.
pub open spec fn apply_op(v: SchedulerView, op: SchedulerOp) -> SchedulerView {
    match op {
        SchedulerOp::Submit { source, kind } => v.submitted(source, kind),
        SchedulerOp::Start => v.started_next(),
        SchedulerOp::Finish { index, succeeded } => v.completed(index, succeeded),
    }
}

/// The scheduler after a sequence of steps.
pub open spec fn run_ops(v: SchedulerView, ops: Seq<SchedulerOp>) -> SchedulerView
    decreases ops.len(),
{
    if ops.len() == 0 {
        v
    } else {
        apply_op(run_ops(v, ops.drop_last()), ops.last())
    }
}

/// The entries that a sequence of steps submits, in order.
pub open spec fn submissions(ops: Seq<SchedulerOp>) -> Seq<(Seq<u8>, PathKind)>
    decreases ops.len(),
{
    if ops.len() == 0 {
        Seq::empty()
    } else {
        match ops.last() {
            SchedulerOp::Submit { source, kind } => submissions(ops.drop_last()).push(
                (source, kind),
            ),
            _ => submissions(ops.drop_last()),
        }
    }
}

/// Every reported end tells the truth about its task: `outcome(i)` says
/// whether the copy of task `i` succeeds.
pub open spec fn reports_agree(ops: Seq<SchedulerOp>, outcome: spec_fn(nat) -> bool) -> bool {
    forall|k: int|
        0 <= k < ops.len() ==> match #[trigger] ops[k] {
            SchedulerOp::Finish { index, succeeded } => succeeded == outcome(index),
            _ => true,
        }
}

/// No finished task contradicts `outcome`.
pub open spec fn faithful(v: SchedulerView, outcome: spec_fn(nat) -> bool) -> bool {
    forall|i: int|
        0 <= i < v.states.len() ==> match #[trigger] v.states[i] {
            TaskState::Succeeded => outcome(i as nat),
            TaskState::Failed => !outcome(i as nat),
            _ => true,
        }
}

/// The units of work and the rejection flag that a sequence of submissions
/// leaves behind.
pub open spec fn intake(
    destination: Seq<u8>,
    recursive: bool,
    entries: Seq<(Seq<u8>, PathKind)>,
) -> (Seq<CopyTaskView>, bool)
    decreases entries.len(),
{
    if entries.len() == 0 {
        (Seq::empty(), false)
    } else {
        let (tasks, rejected) = intake(destination, recursive, entries.drop_last());
        let (source, kind) = entries.last();
        match admission_of(kind, recursive) {
            Admission::File | Admission::Directory => (
                tasks.push(
                    CopyTaskView {
                        index: tasks.len(),
                        source,
                        dest: target_of(destination, source),
                        is_dir: kind is Directory,
                    },
                ),
                rejected,
            ),
            Admission::Skipped => (tasks, rejected),
            Admission::Rejected(_) => (tasks, true),
        }
    }
}

/// Where no task is counted as running, none is running.
pub proof fn lemma_none_running(states: Seq<TaskState>)
    requires
        count_running(states) == 0,
    ensures
        forall|i: int| 0 <= i < states.len() ==> !(#[trigger] states[i] is Running),
    decreases states.len(),
{
    if states.len() > 0 {
        lemma_none_running(states.drop_last());
        assert forall|i: int| 0 <= i < states.len() implies !(#[trigger] states[i] is Running) by {
            if i < states.len() - 1 {
                assert(states.drop_last()[i] == states[i]);
            }
        }
    }
}

/// Whatever the steps of a run are, the scheduler stays well formed: in
/// particular no more units of work hold a slot than there are slots.
pub proof fn lemma_run_wf(destination: Seq<u8>, recursive: bool, limit: nat, ops: Seq<SchedulerOp>)
    ensures
        run_ops(SchedulerView::initial(destination, recursive, limit), ops).wf(),
        run_ops(SchedulerView::initial(destination, recursive, limit), ops).running <= limit,
        run_ops(SchedulerView::initial(destination, recursive, limit), ops).limit == limit,
    decreases ops.len(),
{
    let start = SchedulerView::initial(destination, recursive, limit);
    if ops.len() > 0 {
        lemma_run_wf(destination, recursive, limit, ops.drop_last());
        let before = run_ops(start, ops.drop_last());
        match ops.last() {
            SchedulerOp::Submit { source, kind } => lemma_submitted_wf(before, source, kind),
            SchedulerOp::Start => lemma_started_next_wf(before),
            SchedulerOp::Finish { index, succeeded } => lemma_completed_wf(before, index, succeeded),
        }
    }
}

/// The units of work of a run, and whether an entry was rejected, depend on
/// the submitted entries alone: not on the number of slots, nor on when
/// tasks start and end.
pub proof fn lemma_run_intake(destination: Seq<u8>, recursive: bool, limit: nat, ops: Seq<SchedulerOp>)
    ensures
        ({
            let end = run_ops(SchedulerView::initial(destination, recursive, limit), ops);
            let (tasks, rejected) = intake(destination, recursive, submissions(ops));
            &&& end.destination == destination
            &&& end.recursive == recursive
            &&& end.tasks == tasks
            &&& end.rejected == rejected
        }),
    decreases ops.len(),
{
    if ops.len() > 0 {
        lemma_run_intake(destination, recursive, limit, ops.drop_last());
        match ops.last() {
            SchedulerOp::Submit { source, kind } => {
                assert(submissions(ops).drop_last() =~= submissions(ops.drop_last()));
            },
            _ => {},
        }
    }
}

/// As long as every report tells the truth, no recorded state contradicts
/// the outcome of its task.
pub proof fn lemma_run_faithful(
    destination: Seq<u8>,
    recursive: bool,
    limit: nat,
    ops: Seq<SchedulerOp>,
    outcome: spec_fn(nat) -> bool,
)
    requires
        reports_agree(ops, outcome),
    ensures
        faithful(run_ops(SchedulerView::initial(destination, recursive, limit), ops), outcome),
    decreases ops.len(),
{
    let start = SchedulerView::initial(destination, recursive, limit);
    if ops.len() > 0 {
        assert forall|k: int| 0 <= k < ops.drop_last().len() implies match #[trigger] ops.drop_last()[k] {
            SchedulerOp::Finish { index, succeeded } => succeeded == outcome(index),
            _ => true,
        } by {
            assert(ops.drop_last()[k] == ops[k]);
        }
        lemma_run_faithful(destination, recursive, limit, ops.drop_last(), outcome);
        lemma_run_wf(destination, recursive, limit, ops.drop_last());
        let before = run_ops(start, ops.drop_last());
        let after = run_ops(start, ops);
        let last = ops[ops.len() - 1];
        assert forall|i: int| 0 <= i < after.states.len() implies match #[trigger] after.states[i] {
            TaskState::Succeeded => outcome(i as nat),
            TaskState::Failed => !outcome(i as nat),
            _ => true,
        } by {
            match last {
                SchedulerOp::Submit { source, kind } => {
                    if i < before.states.len() {
                        assert(after.states[i] == before.states[i]);
                    }
                },
                SchedulerOp::Start => {
                    if before.can_start() && i != before.started {
                        assert(after.states[i] == before.states[i]);
                    }
                },
                SchedulerOp::Finish { index, succeeded } => {
                    if i != index {
                        assert(after.states[i] == before.states[i]);
                    }
                },
            }
        }
    }
}

/// The number of slots does not change the result of a run. Take two runs
/// over the same submitted entries, with any limits and any order of starts
/// and ends, in which every task ends as its copy really does; if both runs
/// come to an end, they have scheduled the same units of work, each task has
/// ended the same way in both, and both report the same aggregate failure.
pub proof fn lemma_limit_does_not_change_result(
    destination: Seq<u8>,
    recursive: bool,
    limit_a: nat,
    ops_a: Seq<SchedulerOp>,
    limit_b: nat,
    ops_b: Seq<SchedulerOp>,
    outcome: spec_fn(nat) -> bool,
)
    requires
        submissions(ops_a) == submissions(ops_b),
        reports_agree(ops_a, outcome),
        reports_agree(ops_b, outcome),
        run_ops(SchedulerView::initial(destination, recursive, limit_a), ops_a).is_done(),
        run_ops(SchedulerView::initial(destination, recursive, limit_b), ops_b).is_done(),
    ensures
        ({
            let a = run_ops(SchedulerView::initial(destination, recursive, limit_a), ops_a);
            let b = run_ops(SchedulerView::initial(destination, recursive, limit_b), ops_b);
            &&& a.tasks == b.tasks
            &&& a.states == b.states
            &&& a.overall_failed() == b.overall_failed()
        }),
{
    let a = run_ops(SchedulerView::initial(destination, recursive, limit_a), ops_a);
    let b = run_ops(SchedulerView::initial(destination, recursive, limit_b), ops_b);
    lemma_run_wf(destination, recursive, limit_a, ops_a);
    lemma_run_wf(destination, recursive, limit_b, ops_b);
    lemma_run_intake(destination, recursive, limit_a, ops_a);
    lemma_run_intake(destination, recursive, limit_b, ops_b);
    lemma_run_faithful(destination, recursive, limit_a, ops_a, outcome);
    lemma_run_faithful(destination, recursive, limit_b, ops_b, outcome);
    lemma_none_running(a.states);
    lemma_none_running(b.states);
    assert forall|i: int| 0 <= i < a.states.len() implies a.states[i] == b.states[i] by {
        assert(!(a.states[i] is Queued));
        assert(!(b.states[i] is Queued));
        assert(!(a.states[i] is Running));
        assert(!(b.states[i] is Running));
    }
    assert(a.states =~= b.states);
}

/// Entries with different final names are copied to disjoint subtrees of
/// the destination: whatever one unit of work writes, at or below its
/// target, the other does not touch. Paths are taken relative to the
/// working directory `cwd`.
pub proof fn lemma_targets_apart(
    cwd: Seq<u8>,
    destination: Seq<u8>,
    first: Seq<u8>,
    second: Seq<u8>,
)
    requires
        file_name_of(first) is Some,
        file_name_of(second) is Some,
        file_name_of(first) != file_name_of(second),
    ensures
        forall|path: Seq<Seq<u8>>|
            #![trigger at_or_below(path, normalized(joined(cwd, target_of(destination, first))))]
            !(at_or_below(path, normalized(joined(cwd, target_of(destination, first))))
                && at_or_below(path, normalized(joined(cwd, target_of(destination, second))))),
{
    let a = file_name_of(first)->0;
    let b = file_name_of(second)->0;
    lemma_file_name_is_plain(first);
    lemma_file_name_is_plain(second);
    lemma_joined_child(cwd, destination, a);
    lemma_joined_child(cwd, destination, b);
    lemma_siblings_apart(joined(cwd, destination), a, b);
}

/// The failure flag is only ever set: once a run has recorded a failure,
/// no later step takes it back.
pub proof fn lemma_failure_is_kept(v: SchedulerView, op: SchedulerOp)
    requires
        v.overall_failed(),
    ensures
        apply_op(v, op).overall_failed(),
{
}

/// A run cannot get stuck while it has a slot: if something is left to do,
/// either a unit of work may begin or one is in flight, whose end will be
/// reported.
pub proof fn lemma_never_stuck(v: SchedulerView)
    requires
        v.wf(),
        v.limit > 0,
        !v.is_done(),
    ensures
        v.can_start() || v.running > 0,
{
}

/// Whether a step submits an entry that cannot become a unit of work.
pub open spec fn schedules_nothing(op: SchedulerOp, recursive: bool) -> bool {
    match op {
        SchedulerOp::Submit { source, kind } => !(admission_of(kind, recursive) is File)
            && !(admission_of(kind, recursive) is Directory),
        SchedulerOp::Start => true,
        SchedulerOp::Finish { .. } => true,
    }
}

/// Whether a step submits an entry that is rejected.
pub open spec fn submits_rejected(op: SchedulerOp, recursive: bool) -> bool {
    match op {
        SchedulerOp::Submit { source, kind } => admission_of(kind, recursive) is Rejected,
        SchedulerOp::Start => false,
        SchedulerOp::Finish { .. } => false,
    }
}

/// Entries that are rejected or passed over never take a slot: when no
/// submitted entry can be copied, the run is over at once, and it reports a
/// failure exactly when an entry was rejected.
pub proof fn lemma_nothing_to_schedule(
    destination: Seq<u8>,
    recursive: bool,
    limit: nat,
    ops: Seq<SchedulerOp>,
)
    requires
        forall|k: int| 0 <= k < ops.len() ==> schedules_nothing(#[trigger] ops[k], recursive),
    ensures
        run_ops(SchedulerView::initial(destination, recursive, limit), ops).tasks.len() == 0,
        run_ops(SchedulerView::initial(destination, recursive, limit), ops).running == 0,
        run_ops(SchedulerView::initial(destination, recursive, limit), ops).is_done(),
        run_ops(SchedulerView::initial(destination, recursive, limit), ops).overall_failed()
            <==> exists|k: int| 0 <= k < ops.len() && submits_rejected(#[trigger] ops[k], recursive),
    decreases ops.len(),
{
    let start = SchedulerView::initial(destination, recursive, limit);
    if ops.len() > 0 {
        let shorter = ops.drop_last();
        assert forall|k: int| 0 <= k < shorter.len() implies schedules_nothing(
            #[trigger] shorter[k],
            recursive,
        ) by {
            assert(shorter[k] == ops[k]);
        }
        lemma_nothing_to_schedule(destination, recursive, limit, shorter);
        lemma_run_wf(destination, recursive, limit, shorter);
        lemma_run_intake(destination, recursive, limit, shorter);
        let before = run_ops(start, shorter);
        let end = run_ops(start, ops);
        let last = ops[ops.len() - 1];
        assert(schedules_nothing(last, recursive));
        assert(end == apply_op(before, ops.last()));
        assert(before.recursive == recursive);
        assert(before.states.len() == 0);
        assert(!before.task_failed);
        assert(!before.can_start());
        assert(end.tasks == before.tasks);
        assert(end.task_failed == before.task_failed);
        assert(end.rejected == (before.rejected || submits_rejected(last, recursive)));
        if exists|k: int| 0 <= k < shorter.len() && submits_rejected(#[trigger] shorter[k], recursive) {
            let k = choose|k: int|
                0 <= k < shorter.len() && submits_rejected(#[trigger] shorter[k], recursive);
            assert(shorter[k] == ops[k]);
            assert(submits_rejected(ops[k], recursive));
        }
        if exists|k: int| 0 <= k < ops.len() && submits_rejected(#[trigger] ops[k], recursive) {
            let k = choose|k: int|
                0 <= k < ops.len() && submits_rejected(#[trigger] ops[k], recursive);
            if k < shorter.len() {
                assert(shorter[k] == ops[k]);
                assert(submits_rejected(shorter[k], recursive));
            }
        }
    }
}

} // verus!
