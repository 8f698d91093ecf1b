use radar_ppi::batch::{
    resolve_workers, worker_count, Batch, BatchAction, BatchEvent, FolderFailure, FolderStatus, Phase,
    ProgressUpdate,
};

fn done(ok: bool, name: &str, now_us: u64) -> BatchEvent {
    BatchEvent::FileDone { ok, name: name.to_string(), now_us }
}

#[test]
fn worker_count_resolution() {
    assert_eq!(resolve_workers(0, 10), 9);
    assert_eq!(resolve_workers(0, 1), 1);
    assert_eq!(resolve_workers(0, 0), 1);
    assert_eq!(resolve_workers(0, 20), 18);
    assert_eq!(resolve_workers(0, 11), 10);
    assert_eq!(resolve_workers(4, 10), 4);
    assert_eq!(worker_count(3), 3);
    assert!(worker_count(0) >= 1);
}

#[test]
fn runs_folders_in_order_to_all_complete() {
    let mut b = Batch::new(2);
    let (u, a) = b.step(BatchEvent::Advance { cancelled: false });
    assert_eq!(u, vec![ProgressUpdate::FolderStarted { folder_index: 0 }]);
    assert_eq!(a, BatchAction::ListFiles { folder_index: 0 });
    let (u, a) = b.step(BatchEvent::Listed { files: 2, now_us: 1_000 });
    assert!(u.is_empty());
    assert_eq!(a, BatchAction::PrepareOutput { folder_index: 0 });
    let (u, a) = b.step(BatchEvent::OutputReady { ok: true });
    assert!(u.is_empty());
    assert_eq!(a, BatchAction::Dispatch { folder_index: 0 });
    // Within the interval: no progress update.
    let (u, a) = b.step(done(true, "a.csv", 50_000));
    assert!(u.is_empty());
    assert_eq!(a, BatchAction::Await);
    // The last file always reports, then the folder's outcome.
    let (u, a) = b.step(done(true, "b.csv", 60_000));
    assert_eq!(
        u,
        vec![
            ProgressUpdate::FileProgress {
                folder_index: 0,
                files_done: 2,
                files_total: 2,
                current_file: "b.csv".to_string(),
                files_per_second_milli: 33_898,
            },
            ProgressUpdate::FolderCompleted { folder_index: 0 },
        ]
    );
    assert_eq!(a, BatchAction::Continue);
    let (u, _) = b.step(BatchEvent::Advance { cancelled: false });
    assert_eq!(u, vec![ProgressUpdate::FolderStarted { folder_index: 1 }]);
    let (u, a) = b.step(BatchEvent::Listed { files: 0, now_us: 70_000 });
    assert_eq!(
        u,
        vec![ProgressUpdate::FolderError { folder_index: 1, error: FolderFailure::NoInputFiles }]
    );
    assert_eq!(a, BatchAction::Continue);
    let (u, a) = b.step(BatchEvent::Advance { cancelled: false });
    assert_eq!(u, vec![ProgressUpdate::AllComplete]);
    assert_eq!(a, BatchAction::Stop);
    assert_eq!(b.phase, Phase::Finished);
    let (u, a) = b.step(BatchEvent::Advance { cancelled: true });
    assert!(u.is_empty());
    assert_eq!(a, BatchAction::Stop);
}

#[test]
fn progress_after_interval_and_failures_counted() {
    let mut b = Batch::new(1);
    b.step(BatchEvent::Advance { cancelled: false });
    b.step(BatchEvent::Listed { files: 3, now_us: 0 });
    b.step(BatchEvent::OutputReady { ok: true });
    let (u, _) = b.step(done(false, "x.csv", 100_000));
    assert_eq!(
        u,
        vec![ProgressUpdate::FileProgress {
            folder_index: 0,
            files_done: 1,
            files_total: 3,
            current_file: "x.csv".to_string(),
            files_per_second_milli: 10_000,
        }]
    );
    let (u, _) = b.step(done(true, "y.csv", 150_000));
    assert!(u.is_empty());
    let (u, _) = b.step(done(false, "z.csv", 160_000));
    assert_eq!(u.len(), 2);
    assert_eq!(
        u[1],
        ProgressUpdate::FolderError { folder_index: 0, error: FolderFailure::FilesFailed { count: 2 } }
    );
}

#[test]
fn cancellation_before_second_folder() {
    let mut b = Batch::new(2);
    b.step(BatchEvent::Advance { cancelled: false });
    b.step(BatchEvent::Listed { files: 2, now_us: 0 });
    let (_, a) = b.step(BatchEvent::OutputReady { ok: true });
    assert_eq!(a, BatchAction::Dispatch { folder_index: 0 });
    // Cancellation is signalled now; the files in flight still complete.
    let (u, _) = b.step(done(true, "one.csv", 10));
    assert!(u.is_empty());
    let (u, a) = b.step(done(true, "two.csv", 20));
    assert_eq!(u.len(), 2);
    assert!(matches!(u[0], ProgressUpdate::FileProgress { files_done: 2, files_total: 2, .. }));
    assert_eq!(u[1], ProgressUpdate::FolderCompleted { folder_index: 0 });
    assert_eq!(a, BatchAction::Continue);
    let (u, a) = b.step(BatchEvent::Advance { cancelled: true });
    assert_eq!(u, vec![ProgressUpdate::Cancelled]);
    assert_eq!(a, BatchAction::Stop);
    assert_eq!(b.current, 1);
    let (u, _) = b.step(BatchEvent::Advance { cancelled: false });
    assert!(u.is_empty());
}

#[test]
fn pool_failure_ends_the_run() {
    let mut b = Batch::new(3);
    let (u, a) = b.step(BatchEvent::PoolFailed);
    assert_eq!(
        u,
        vec![ProgressUpdate::FolderError { folder_index: 0, error: FolderFailure::WorkerPool }]
    );
    assert_eq!(a, BatchAction::Stop);
    assert_eq!(b.phase, Phase::Finished);
}

#[test]
fn output_directory_failure_skips_folder() {
    let mut b = Batch::new(1);
    b.step(BatchEvent::Advance { cancelled: false });
    b.step(BatchEvent::Listed { files: 1, now_us: 0 });
    let (u, a) = b.step(BatchEvent::OutputReady { ok: false });
    assert_eq!(
        u,
        vec![ProgressUpdate::FolderError { folder_index: 0, error: FolderFailure::OutputDirectory }]
    );
    assert_eq!(a, BatchAction::Continue);
    let (u, _) = b.step(BatchEvent::Advance { cancelled: false });
    assert_eq!(u, vec![ProgressUpdate::AllComplete]);
}

#[test]
fn events_out_of_phase_change_nothing() {
    let mut b = Batch::new(1);
    let before = b;
    let (u, a) = b.step(done(true, "a.csv", 5));
    assert!(u.is_empty());
    assert_eq!(a, BatchAction::Await);
    assert_eq!(b, before);
}

#[test]
fn folder_status_follows_updates() {
    let s = FolderStatus::Pending;
    let s = s.after(&ProgressUpdate::FolderStarted { folder_index: 1 }, 0);
    assert_eq!(s, FolderStatus::Pending);
    let s = s.after(&ProgressUpdate::FolderStarted { folder_index: 0 }, 0);
    assert_eq!(s, FolderStatus::Processing);
    let s = s.after(&ProgressUpdate::FolderCompleted { folder_index: 0 }, 0);
    assert_eq!(s, FolderStatus::Complete);
    let e = FolderStatus::Processing.after(
        &ProgressUpdate::FolderError { folder_index: 2, error: FolderFailure::NoInputFiles },
        2,
    );
    assert_eq!(e, FolderStatus::Error);
}
