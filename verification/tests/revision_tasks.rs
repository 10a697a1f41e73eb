use gpu_document::document::DocumentRevision;
use gpu_document::gpu_revision_tasks::{
    GpuRevisionRequest, GpuRevisionTask, GpuRevisionTaskError, GpuRevisionTaskQueue,
    GpuRevisionedPayload,
};

#[derive(Clone, Debug, PartialEq, Eq)]
struct Payload {
    revision: DocumentRevision,
    label: &'static str,
}

impl Payload {
    fn new(revision: u64, label: &'static str) -> Self {
        Self { revision: DocumentRevision::from_raw(revision), label }
    }
}

impl GpuRevisionedPayload for Payload {
    fn spec_revision(&self) -> DocumentRevision {
        self.revision
    }

    fn revision(&self) -> DocumentRevision {
        self.revision
    }
}

fn started(request: GpuRevisionRequest<Payload>) -> GpuRevisionTask<Payload> {
    match request {
        GpuRevisionRequest::Start(task) => task,
        _ => panic!("revision task did not start"),
    }
}

#[test]
fn newest_pending_revision_replaces_older_work_and_starts_after_completion() {
    let mut queue = GpuRevisionTaskQueue::new();
    let first = started(queue.request(Payload::new(1, "one")).unwrap());
    assert_eq!(queue.outstanding_count(), 1);
    assert!(matches!(
        queue.request(Payload::new(2, "two")).unwrap(),
        GpuRevisionRequest::Queued { superseded: None }
    ));
    let superseded = match queue.request(Payload::new(3, "three")).unwrap() {
        GpuRevisionRequest::Queued { superseded } => superseded.unwrap(),
        _ => panic!("newest revision was not queued"),
    };
    assert_eq!(superseded.label, "two");
    assert_eq!(queue.outstanding_count(), 2);
    assert_eq!(queue.pending_revision(), Some(DocumentRevision::from_raw(3)));

    let completion = queue.complete(first, true, DocumentRevision::from_raw(3)).unwrap();
    assert!(completion.succeeded);
    assert!(!completion.saved_current_revision);
    let next = completion.next.unwrap();
    assert_eq!(next.revision().get(), 3);
    assert_eq!(next.payload().label, "three");
    assert_eq!(queue.active_id(), Some(next.id()));

    let completion = queue.complete(next, true, DocumentRevision::from_raw(3)).unwrap();
    assert!(completion.saved_current_revision);
    assert!(completion.next.is_none());
    assert!(queue.is_idle());
}

#[test]
fn duplicate_and_older_revisions_are_covered_and_return_exact_payloads() {
    let mut queue = GpuRevisionTaskQueue::new();
    let active = started(queue.request(Payload::new(4, "active")).unwrap());
    let duplicate = match queue.request(Payload::new(4, "duplicate")).unwrap() {
        GpuRevisionRequest::AlreadyCovered(payload) => payload,
        _ => panic!("same revision was not covered"),
    };
    assert_eq!(duplicate.label, "duplicate");

    let stale = match queue.request(Payload::new(3, "stale")).unwrap() {
        GpuRevisionRequest::AlreadyCovered(payload) => payload,
        _ => panic!("older revision was not covered"),
    };
    assert_eq!(stale.label, "stale");
    assert_eq!(queue.outstanding_count(), 1);
    queue.complete(active, false, DocumentRevision::from_raw(4)).unwrap();
}

#[test]
fn failed_or_stale_completion_cannot_claim_the_current_revision() {
    let mut queue = GpuRevisionTaskQueue::new();
    let task = started(queue.request(Payload::new(5, "save")).unwrap());
    let completion = queue.complete(task, false, DocumentRevision::from_raw(5)).unwrap();
    assert!(!completion.succeeded);
    assert!(!completion.saved_current_revision);

    let task = started(queue.request(Payload::new(6, "next")).unwrap());
    let failure = match queue.complete(task, true, DocumentRevision::from_raw(5)) {
        Ok(_) => panic!("future save task unexpectedly completed"),
        Err(failure) => failure,
    };
    assert_eq!(failure.task.payload().label, "next");
    assert_eq!(
        failure.error,
        GpuRevisionTaskError::InteractiveRevisionBehindTask {
            interactive: DocumentRevision::from_raw(5),
            task: DocumentRevision::from_raw(6),
        }
    );
    assert_eq!(queue.active_id(), Some(failure.task.id()));
}

#[test]
fn token_mismatch_and_id_exhaustion_are_transactional() {
    let mut queue = GpuRevisionTaskQueue::new();
    let active = started(queue.request(Payload::new(7, "active")).unwrap());
    let counterfeit = GpuRevisionTask::from_parts(
        active.id().get() + 1,
        active.revision(),
        Payload::new(7, "counterfeit"),
    );
    let failure = match queue.complete(counterfeit, true, DocumentRevision::from_raw(7)) {
        Ok(_) => panic!("counterfeit revision task unexpectedly completed"),
        Err(failure) => failure,
    };
    assert!(matches!(
        failure.error,
        GpuRevisionTaskError::ActiveTaskMismatch { .. }
    ));
    assert_eq!(failure.task.payload().label, "counterfeit");
    assert_eq!(queue.active_id(), Some(active.id()));
    queue.complete(active, true, DocumentRevision::from_raw(7)).unwrap();

    let mut queue = GpuRevisionTaskQueue::starting_at(u64::MAX);
    let failure = match queue.request(Payload::new(8, "retained")) {
        Ok(_) => panic!("exhausted task ID unexpectedly allocated"),
        Err(failure) => failure,
    };
    assert_eq!(failure.error, GpuRevisionTaskError::TaskIdExhausted);
    assert_eq!(failure.payload.label, "retained");
    assert!(queue.is_idle());
}
