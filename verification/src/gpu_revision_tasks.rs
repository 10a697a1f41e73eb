//! At most one task runs and one waits; newer work replaces what waits.

use crate::document::DocumentRevision;
use crate::gpu_recovery_timeline::GpuRecoveryTimelineSnapshot;
use vstd::prelude::*;

verus! {

/// Work that belongs to one revision of a document.
pub trait GpuRevisionedPayload: Sized {
    spec fn spec_revision(&self) -> DocumentRevision;

    fn revision(&self) -> (revision: DocumentRevision)
        ensures
            revision == self.spec_revision(),
    ;
}

impl<C> GpuRevisionedPayload for GpuRecoveryTimelineSnapshot<C> {
    open spec fn spec_revision(&self) -> DocumentRevision {
        self@.target
    }

    fn revision(&self) -> (revision: DocumentRevision) {
        self.target_revision()
    }
}

#[derive(Clone, Copy, Debug, PartialEq, Eq, Hash, Structural)]
pub struct GpuRevisionTaskId(pub(crate) u64);

impl GpuRevisionTaskId {
    pub open(crate) spec fn number(self) -> u64 {
        self.0
    }

    pub fn get(self) -> (raw: u64)
        ensures
            raw == self.number(),
    {
        self.0
    }
}

/// A piece of work with its name.
#[derive(Debug)]
pub struct GpuRevisionTask<T> {
    pub(crate) id: GpuRevisionTaskId,
    pub(crate) revision: DocumentRevision,
    pub(crate) payload: T,
}

pub struct TaskModel<T> {
    pub id: u64,
    pub revision: DocumentRevision,
    pub payload: T,
}

impl<T> View for GpuRevisionTask<T> {
    type V = TaskModel<T>;

    open(crate) spec fn view(&self) -> TaskModel<T> {
        TaskModel { id: self.id.0, revision: self.revision, payload: self.payload }
    }
}

impl<T> GpuRevisionTask<T> {
    /// A task under a name of the caller's choice. A queue accepts its completion
    /// only where it handed out that name for that revision.
    pub fn from_parts(id: u64, revision: DocumentRevision, payload: T) -> (task: GpuRevisionTask<T>)
        ensures
            task@ == (TaskModel { id, revision, payload }),
    {
        GpuRevisionTask { id: GpuRevisionTaskId(id), revision, payload }
    }

    pub fn id(&self) -> (id: GpuRevisionTaskId)
        ensures
            id.number() == self@.id,
    {
        self.id
    }

    pub fn revision(&self) -> (revision: DocumentRevision)
        ensures
            revision == self@.revision,
    {
        self.revision
    }

    pub fn payload(&self) -> (payload: &T)
        ensures
            *payload == self@.payload,
    {
        &self.payload
    }

    pub fn into_payload(self) -> (payload: T)
        ensures
            payload == self@.payload,
    {
        self.payload
    }

    fn active_metadata(&self) -> (active: ActiveGpuRevisionTask)
        ensures
            active.id.0 == self@.id,
            active.revision == self@.revision,
    {
        ActiveGpuRevisionTask { id: self.id, revision: self.revision }
    }
}

#[derive(Clone, Copy, Debug, PartialEq, Eq, Structural)]
pub(crate) struct ActiveGpuRevisionTask {
    pub(crate) id: GpuRevisionTaskId,
    pub(crate) revision: DocumentRevision,
}

#[derive(Clone, Copy, Debug, PartialEq, Eq, Structural)]
pub enum GpuRevisionTaskError {
    TaskIdExhausted,
    NoActiveTask,
    ActiveTaskMismatch {
        expected_id: GpuRevisionTaskId,
        expected_revision: DocumentRevision,
        actual_id: GpuRevisionTaskId,
        actual_revision: DocumentRevision,
    },
    InteractiveRevisionBehindTask { interactive: DocumentRevision, task: DocumentRevision },
}

/// What became of a request.
#[derive(Debug)]
pub enum GpuRevisionRequest<T> {
    Start(GpuRevisionTask<T>),
    Queued { superseded: Option<T> },
    AlreadyCovered(T),
}

#[derive(Debug)]
pub struct GpuRevisionCompletion<T> {
    pub succeeded: bool,
    pub saved_current_revision: bool,
    pub completed: GpuRevisionTask<T>,
    pub next: Option<GpuRevisionTask<T>>,
}

#[derive(Debug)]
pub struct GpuRevisionRequestFailure<T> {
    pub error: GpuRevisionTaskError,
    pub payload: T,
}

#[derive(Debug)]
pub struct GpuRevisionCompletionFailure<T> {
    pub error: GpuRevisionTaskError,
    pub task: GpuRevisionTask<T>,
}

/// The task that runs, by name and revision; the one that waits; the next name.
pub struct QueueModel<T> {
    pub active: Option<(u64, DocumentRevision)>,
    pub pending: Option<TaskModel<T>>,
    pub next_id: u64,
}

impl<T> QueueModel<T> {
    /// Nothing waits while nothing runs, what waits is newer than what runs, and
    /// names that were handed out are not handed out again.
    pub open spec fn valid(self) -> bool {
        &&& self.pending is Some ==> self.active is Some
        &&& self.active matches Some(active) ==> (active.0 < self.next_id)
        &&& match (self.active, self.pending) {
            (Some((id, revision)), Some(pending)) => id < pending.id < self.next_id && revision.0
                < pending.revision.0,
            _ => true,
        }
    }

    pub open spec fn newest(self) -> Option<DocumentRevision> {
        match self.pending {
            Some(pending) => Some(pending.revision),
            None => match self.active {
                Some(active) => Some(active.1),
                None => None,
            },
        }
    }

    pub open spec fn covers(self, revision: DocumentRevision) -> bool {
        self.newest() matches Some(newest) && revision.0 <= newest.0
    }

    /// Why a completion is not taken, if it is not.
    pub open(crate) spec fn completion_error(
        self,
        task: TaskModel<T>,
        interactive: DocumentRevision,
    ) -> Option<GpuRevisionTaskError> {
        match self.active {
            None => Some(GpuRevisionTaskError::NoActiveTask),
            Some(active) => if task.id != active.0 || task.revision != active.1 {
                Some(
                    GpuRevisionTaskError::ActiveTaskMismatch {
                        expected_id: GpuRevisionTaskId(active.0),
                        expected_revision: active.1,
                        actual_id: GpuRevisionTaskId(task.id),
                        actual_revision: task.revision,
                    },
                )
            } else if interactive.0 < task.revision.0 {
                Some(
                    GpuRevisionTaskError::InteractiveRevisionBehindTask {
                        interactive,
                        task: task.revision,
                    },
                )
            } else {
                None
            },
        }
    }

    /// The queue after its task has ended: what waited now runs.
    pub open spec fn completed(self) -> QueueModel<T> {
        QueueModel {
            active: match self.pending {
                Some(pending) => Some((pending.id, pending.revision)),
                None => None,
            },
            pending: None,
            next_id: self.next_id,
        }
    }
}

/// Runs one task at a time, always the newest.
#[derive(Debug)]
pub struct GpuRevisionTaskQueue<T> {
    pub(crate) active: Option<ActiveGpuRevisionTask>,
    pub(crate) pending: Option<GpuRevisionTask<T>>,
    pub(crate) next_id: u64,
}

impl<T> View for GpuRevisionTaskQueue<T> {
    type V = QueueModel<T>;

    open(crate) spec fn view(&self) -> QueueModel<T> {
        QueueModel {
            active: match self.active {
                Some(active) => Some((active.id.0, active.revision)),
                None => None,
            },
            pending: match self.pending {
                Some(pending) => Some(pending@),
                None => None,
            },
            next_id: self.next_id,
        }
    }
}

impl<T: GpuRevisionedPayload> GpuRevisionTaskQueue<T> {
    pub open spec fn wf(self) -> bool {
        self@.valid()
    }

    pub fn new() -> (queue: Self)
        ensures
            queue.wf(),
            queue@ == (QueueModel::<T> { active: None, pending: None, next_id: 1 }),
    {
        GpuRevisionTaskQueue { active: None, pending: None, next_id: 1 }
    }

    /// An idle queue whose next task gets the given name.
    pub fn starting_at(next_id: u64) -> (queue: Self)
        ensures
            queue.wf(),
            queue@ == (QueueModel::<T> { active: None, pending: None, next_id }),
    {
        GpuRevisionTaskQueue { active: None, pending: None, next_id }
    }

    /// Asks for work on a revision. It starts at once, waits, or is already covered
    /// by newer work. A payload that is not taken comes back unchanged.
    pub fn request(&mut self, payload: T) -> (request: Result<
        GpuRevisionRequest<T>,
        Box<GpuRevisionRequestFailure<T>>,
    >)
        requires
            old(self).wf(),
        ensures
            final(self).wf(),
            ({
                let queue = old(self)@;
                let revision = payload.spec_revision();
                let task = TaskModel { id: queue.next_id, revision, payload };
                match request {
                    Ok(GpuRevisionRequest::AlreadyCovered(returned)) => {
                        &&& queue.covers(revision)
                        &&& returned == payload
                        &&& *final(self) == *old(self)
                    },
                    Ok(GpuRevisionRequest::Start(started)) => {
                        &&& !queue.covers(revision)
                        &&& queue.next_id < u64::MAX
                        &&& queue.active is None
                        &&& started@ == task
                        &&& final(self)@ == (QueueModel {
                            active: Some((task.id, revision)),
                            next_id: (queue.next_id + 1) as u64,
                            ..queue
                        })
                    },
                    Ok(GpuRevisionRequest::Queued { superseded }) => {
                        &&& !queue.covers(revision)
                        &&& queue.next_id < u64::MAX
                        &&& queue.active is Some
                        &&& superseded == (match queue.pending {
                            Some(pending) => Some(pending.payload),
                            None => None,
                        })
                        &&& final(self)@ == (QueueModel {
                            pending: Some(task),
                            next_id: (queue.next_id + 1) as u64,
                            ..queue
                        })
                    },
                    Err(failure) => {
                        &&& !queue.covers(revision)
                        &&& queue.next_id == u64::MAX
                        &&& failure.error == GpuRevisionTaskError::TaskIdExhausted
                        &&& failure.payload == payload
                        &&& *final(self) == *old(self)
                    },
                }
            }),
    {
        let revision = payload.revision();
        match self.newest_outstanding_revision() {
            Some(newest) => {
                if revision.get() <= newest.get() {
                    return Ok(GpuRevisionRequest::AlreadyCovered(payload));
                }
            },
            None => {},
        }
        let task = match self.allocate_task(payload) {
            Ok(task) => task,
            Err(payload) => {
                return Err(
                    Box::new(
                        GpuRevisionRequestFailure {
                            error: GpuRevisionTaskError::TaskIdExhausted,
                            payload,
                        },
                    ),
                );
            },
        };
        if self.active.is_none() {
            self.active = Some(task.active_metadata());
            return Ok(GpuRevisionRequest::Start(task));
        }
        let superseded = match self.pending.take() {
            Some(pending) => Some(pending.into_payload()),
            None => None,
        };
        self.pending = Some(task);
        Ok(GpuRevisionRequest::Queued { superseded })
    }

    /// Ends the task that runs and starts the one that waits.
    pub fn complete(
        &mut self,
        task: GpuRevisionTask<T>,
        succeeded: bool,
        interactive_revision: DocumentRevision,
    ) -> (completion: Result<GpuRevisionCompletion<T>, Box<GpuRevisionCompletionFailure<T>>>)
        requires
            old(self).wf(),
        ensures
            final(self).wf(),
            match completion {
                Ok(completion) => {
                    &&& old(self)@.completion_error(task@, interactive_revision) is None
                    &&& final(self)@ == old(self)@.completed()
                    &&& completion.succeeded == succeeded
                    &&& completion.saved_current_revision == (succeeded && task@.revision
                        == interactive_revision)
                    &&& completion.completed == task
                    &&& match completion.next {
                        Some(next) => old(self)@.pending == Some(next@),
                        None => old(self)@.pending is None,
                    }
                },
                Err(failure) => {
                    &&& old(self)@.completion_error(task@, interactive_revision) == Some(
                        failure.error,
                    )
                    &&& failure.task == task
                    &&& *final(self) == *old(self)
                },
            },
    {
        let active = match self.active {
            Some(active) => active,
            None => {
                return Err(
                    Box::new(
                        GpuRevisionCompletionFailure {
                            error: GpuRevisionTaskError::NoActiveTask,
                            task,
                        },
                    ),
                );
            },
        };
        if task.id.0 != active.id.0 || task.revision.get() != active.revision.get() {
            return Err(
                Box::new(
                    GpuRevisionCompletionFailure {
                        error: GpuRevisionTaskError::ActiveTaskMismatch {
                            expected_id: active.id,
                            expected_revision: active.revision,
                            actual_id: task.id,
                            actual_revision: task.revision,
                        },
                        task,
                    },
                ),
            );
        }
        if interactive_revision.get() < task.revision.get() {
            return Err(
                Box::new(
                    GpuRevisionCompletionFailure {
                        error: GpuRevisionTaskError::InteractiveRevisionBehindTask {
                            interactive: interactive_revision,
                            task: task.revision,
                        },
                        task,
                    },
                ),
            );
        }
        let next = self.pending.take();
        self.active = match &next {
            Some(pending) => Some(pending.active_metadata()),
            None => None,
        };
        Ok(
            GpuRevisionCompletion {
                saved_current_revision: succeeded && task.revision.get()
                    == interactive_revision.get(),
                succeeded,
                completed: task,
                next,
            },
        )
    }

    pub fn active_id(&self) -> (id: Option<GpuRevisionTaskId>)
        ensures
            match (id, self@.active) {
                (Some(id), Some(active)) => id.number() == active.0,
                (None, None) => true,
                _ => false,
            },
    {
        match self.active {
            Some(active) => Some(active.id),
            None => None,
        }
    }

    pub fn active_revision(&self) -> (revision: Option<DocumentRevision>)
        ensures
            revision == (match self@.active {
                Some(active) => Some(active.1),
                None => None,
            }),
    {
        match self.active {
            Some(active) => Some(active.revision),
            None => None,
        }
    }

    pub fn pending_revision(&self) -> (revision: Option<DocumentRevision>)
        ensures
            revision == (match self@.pending {
                Some(pending) => Some(pending.revision),
                None => None,
            }),
    {
        match &self.pending {
            Some(pending) => Some(pending.revision()),
            None => None,
        }
    }

    pub fn outstanding_count(&self) -> (count: usize)
        ensures
            count == (if self@.active is Some { 1int } else { 0 }) + (if self@.pending is Some {
                1int
            } else {
                0
            }),
    {
        let active: usize = if self.active.is_some() { 1 } else { 0 };
        let pending: usize = if self.pending.is_some() { 1 } else { 0 };
        active + pending
    }

    pub fn is_idle(&self) -> (idle: bool)
        ensures
            idle == (self@.active is None),
    {
        self.active.is_none()
    }

    fn newest_outstanding_revision(&self) -> (newest: Option<DocumentRevision>)
        ensures
            newest == self@.newest(),
    {
        match &self.pending {
            Some(pending) => Some(pending.revision()),
            None => match self.active {
                Some(active) => Some(active.revision),
                None => None,
            },
        }
    }

    fn allocate_task(&mut self, payload: T) -> (task: Result<GpuRevisionTask<T>, T>)
        ensures
            match task {
                Ok(task) => {
                    &&& old(self)@.next_id < u64::MAX
                    &&& task@ == (TaskModel {
                        id: old(self)@.next_id,
                        revision: payload.spec_revision(),
                        payload,
                    })
                    &&& final(self).active == old(self).active
                    &&& final(self).pending == old(self).pending
                    &&& final(self).next_id == old(self).next_id + 1
                },
                Err(returned) => {
                    &&& old(self)@.next_id == u64::MAX
                    &&& returned == payload
                    &&& *final(self) == *old(self)
                },
            },
    {
        if self.next_id == u64::MAX {
            return Err(payload);
        }
        let id = GpuRevisionTaskId(self.next_id);
        self.next_id = self.next_id + 1;
        Ok(GpuRevisionTask { id, revision: payload.revision(), payload })
    }
}

impl<T: GpuRevisionedPayload> Default for GpuRevisionTaskQueue<T> {
    fn default() -> (queue: Self)
        ensures
            queue.wf(),
            queue@ == (QueueModel::<T> { active: None, pending: None, next_id: 1 }),
    {
        GpuRevisionTaskQueue::new()
    }
}

/// Ending a task keeps the queue valid, and what runs next is what was newest.
pub proof fn law_completion_starts_the_newest_work<T>(queue: QueueModel<T>)
    requires
        queue.valid(),
    ensures
        queue.completed().valid(),
        queue.completed().pending is None,
        queue.pending is Some ==> queue.completed().newest() == queue.newest(),
        queue.pending is None ==> queue.completed().active is None,
{
}

} // verus!
