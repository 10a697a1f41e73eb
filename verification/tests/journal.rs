use gpu_document::document::DocumentRevision;
use gpu_document::gpu_cpu_mirror::{GpuCpuMirror, GpuCpuMirrorSnapshot};
use gpu_document::gpu_recovery_journal::{
    GpuRecoveryJournal, GpuRecoveryJournalError, GpuRecoveryRetirement,
};
use gpu_document::gpu_recovery_timeline::{GpuRecoveryTimeline, GpuRecoveryTimelineError};

fn revision(value: u64) -> DocumentRevision {
    DocumentRevision::from_raw(value)
}

#[test]
fn snapshots_keep_a_complete_replay_while_live_entries_retire() {
    let mut journal = GpuRecoveryJournal::new(DocumentRevision::initial(), 4, 64).unwrap();
    journal.record(revision(1), 8, 3_i32).unwrap();
    journal.record(revision(2), 12, -1_i32).unwrap();
    let snapshot = journal.snapshot();

    let preview = journal.check_acknowledge_mirrored(revision(1)).unwrap();
    assert_eq!(preview.previous_revision, DocumentRevision::initial());
    assert_eq!(preview.mirrored_revision, revision(1));
    assert_eq!(preview.retired_bytes, 8);
    assert_eq!(preview.record_count, 1);
    assert_eq!(journal.mirrored_revision(), DocumentRevision::initial());
    assert_eq!(journal.len(), 2);
    assert_eq!(journal.resident_bytes(), 20);
    let retired = journal.acknowledge_mirrored(revision(1)).unwrap();
    assert_eq!(retired.previous_revision, DocumentRevision::initial());
    assert_eq!(retired.mirrored_revision, revision(1));
    assert_eq!(retired.retired_bytes, 8);
    assert_eq!(*retired.records[0].command(), 3);
    assert_eq!(journal.len(), 1);
    assert_eq!(journal.resident_bytes(), 12);

    assert_eq!(snapshot.base_revision(), DocumentRevision::initial());
    assert_eq!(snapshot.target_revision(), revision(2));
    assert_eq!(snapshot.byte_len(), 20);
    assert_eq!(
        snapshot.records().iter().map(|record| *record.command()).sum::<i32>(),
        2
    );
}

#[test]
fn capacity_failure_returns_the_exact_command_without_mutation() {
    let mut journal = GpuRecoveryJournal::new(DocumentRevision::initial(), 2, 10).unwrap();
    journal.record(revision(1), 6, String::from("first")).unwrap();
    assert!(matches!(
        journal.check_record(revision(2), 5),
        Err(GpuRecoveryJournalError::ByteLimitExhausted { .. })
    ));
    let failure = journal.record(revision(2), 5, String::from("second")).unwrap_err();
    assert!(matches!(
        failure.error,
        GpuRecoveryJournalError::ByteLimitExhausted { resident: 6, requested: 5, maximum: 10 }
    ));
    assert_eq!(failure.command, "second");
    assert_eq!(journal.latest_revision(), revision(1));
    assert_eq!(journal.len(), 1);
    assert_eq!(journal.resident_bytes(), 6);
}

#[test]
fn every_interactive_revision_requires_one_journal_boundary() {
    let mut journal = GpuRecoveryJournal::new(DocumentRevision::initial(), 4, 64).unwrap();
    let gap = journal.record(revision(2), 4, 2_u8).unwrap_err();
    assert!(matches!(
        gap.error,
        GpuRecoveryJournalError::NonConsecutiveRevision { .. }
    ));
    assert_eq!(gap.command, 2);
    journal.record(revision(1), 4, 1_u8).unwrap();
    journal.record(revision(2), 4, 2_u8).unwrap();

    assert!(matches!(
        journal.acknowledge_mirrored(revision(3)),
        Err(GpuRecoveryJournalError::MirrorRevisionAhead { .. })
    ));
    assert!(matches!(
        journal.acknowledge_mirrored(DocumentRevision::initial()),
        Ok(GpuRecoveryRetirement { retired_bytes: 0, .. })
    ));
    journal.acknowledge_mirrored(revision(1)).unwrap();
    assert!(matches!(
        journal.acknowledge_mirrored(DocumentRevision::initial()),
        Err(GpuRecoveryJournalError::MirrorRevisionRegressed { .. })
    ));
}

#[derive(Clone, Copy, Debug)]
enum Command {
    Add(i32),
    Multiply(i32),
}

#[test]
fn replay_snapshot_reconstructs_the_declared_target_revision() {
    let mut journal = GpuRecoveryJournal::new(DocumentRevision::initial(), 4, 64).unwrap();
    journal.record(revision(1), 4, Command::Add(5)).unwrap();
    journal.record(revision(2), 4, Command::Multiply(3)).unwrap();
    let snapshot = journal.snapshot();
    let reconstructed =
        snapshot.records().iter().fold(2, |state, record| match *record.command() {
            Command::Add(value) => state + value,
            Command::Multiply(value) => state * value,
        });
    assert_eq!(reconstructed, 21);
    assert_eq!(snapshot.target_revision(), revision(2));
}

fn mirror(revision: u64, width: u32, height: u32, tile_size: u32) -> GpuCpuMirrorSnapshot {
    GpuCpuMirror::new(width, height, tile_size, DocumentRevision::from_raw(revision))
        .unwrap()
        .snapshot()
}

#[test]
fn base_and_journal_advance_as_one_revision_boundary() {
    let mut timeline = GpuRecoveryTimeline::new(mirror(0, 64, 64, 16), 8, 1_024).unwrap();
    timeline.record(DocumentRevision::from_raw(1), 10, "paint").unwrap();
    timeline.record(DocumentRevision::from_raw(2), 20, "erase").unwrap();
    let before = timeline.snapshot();

    let advance = timeline.advance_base(mirror(1, 64, 64, 16)).unwrap();
    assert_eq!(advance.previous_base.revision().get(), 0);
    assert_eq!(advance.retirement.retired_bytes, 10);
    assert_eq!(advance.retirement.records.len(), 1);
    assert_eq!(timeline.base_revision().get(), 1);
    assert_eq!(timeline.target_revision().get(), 2);
    assert_eq!(timeline.journal().len(), 1);
    assert_eq!(timeline.journal().records()[0].command(), &"erase");

    assert_eq!(before.base_revision().get(), 0);
    assert_eq!(before.target_revision().get(), 2);
    assert_eq!(before.journal().records().len(), 2);
    assert_eq!(before.journal().records()[0].command(), &"paint");
}

#[test]
fn failed_handoff_returns_the_exact_base_without_retiring_commands() {
    let mut timeline = GpuRecoveryTimeline::new(mirror(0, 64, 64, 16), 8, 1_024).unwrap();
    timeline.record(DocumentRevision::from_raw(1), 10, "paint").unwrap();
    let wrong_geometry = mirror(1, 65, 64, 16);
    let failure = match timeline.advance_base(wrong_geometry) {
        Ok(_) => panic!("mismatched recovery geometry unexpectedly advanced"),
        Err(failure) => failure,
    };
    assert!(matches!(
        failure.error,
        GpuRecoveryTimelineError::GeometryMismatch { .. }
    ));
    assert_eq!(failure.base.dimensions(), [65, 64]);
    assert_eq!(timeline.base_revision().get(), 0);
    assert_eq!(timeline.journal().len(), 1);

    let ahead = match timeline.advance_base(mirror(2, 64, 64, 16)) {
        Ok(_) => panic!("a recovery base ahead of the journal unexpectedly advanced"),
        Err(failure) => failure,
    };
    assert_eq!(
        ahead.error,
        GpuRecoveryTimelineError::Journal(GpuRecoveryJournalError::MirrorRevisionAhead {
            latest: DocumentRevision::from_raw(1),
            requested: DocumentRevision::from_raw(2),
        })
    );
    assert_eq!(ahead.base.revision().get(), 2);
    assert_eq!(timeline.base_revision().get(), 0);
    assert_eq!(timeline.journal().len(), 1);
}

#[test]
fn immutable_snapshot_keeps_shared_commands_after_full_retirement() {
    let mut timeline = GpuRecoveryTimeline::new(mirror(3, 64, 64, 16), 8, 1_024).unwrap();
    timeline
        .record(DocumentRevision::from_raw(4), 10, String::from("stroke"))
        .unwrap();
    let snapshot = timeline.snapshot();
    timeline.advance_base(mirror(4, 64, 64, 16)).unwrap();

    assert!(timeline.is_current());
    assert_eq!(timeline.base_revision().get(), 4);
    assert_eq!(snapshot.base_revision().get(), 3);
    assert_eq!(snapshot.target_revision().get(), 4);
    assert_eq!(snapshot.journal().records()[0].command(), "stroke");
}
