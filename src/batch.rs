//! Decisions of a batch run over folders of recordings: the worker count,
//! the order of folders, cancellation, progress throttling and the outcome
//! of each folder. The caller performs the work each step asks for and
//! reports back what happened.
use vstd::prelude::*;

verus! {

/// Least time between two progress updates of one folder, in microseconds.
pub const PROGRESS_INTERVAL_US: u64 = 100_000;

/// Lifecycle of a folder in the queue.
#[derive(Clone, Copy, Debug, PartialEq, Eq, Structural)]
pub enum FolderStatus {
    Pending,
    Processing,
    Complete,
    Error,
}

/// The status of folder `folder_index` once `u` has been received.
pub open spec fn status_after(s: FolderStatus, u: ProgressUpdate, folder_index: usize) -> FolderStatus {
    match u {
        ProgressUpdate::FolderStarted { folder_index: i } => if i == folder_index {
            FolderStatus::Processing
        } else {
            s
        },
        ProgressUpdate::FolderCompleted { folder_index: i } => if i == folder_index {
            FolderStatus::Complete
        } else {
            s
        },
        ProgressUpdate::FolderError { folder_index: i, .. } => if i == folder_index {
            FolderStatus::Error
        } else {
            s
        },
        _ => s,
    }
}

impl FolderStatus {
    /// The status of folder `folder_index` once `u` has been received.
    pub fn after(self, u: &ProgressUpdate, folder_index: usize) -> (r: FolderStatus)
        ensures
            r == status_after(self, *u, folder_index),
    {
        match u {
            ProgressUpdate::FolderStarted { folder_index: i } => if *i == folder_index {
                FolderStatus::Processing
            } else {
                self
            },
            ProgressUpdate::FolderCompleted { folder_index: i } => if *i == folder_index {
                FolderStatus::Complete
            } else {
                self
            },
            ProgressUpdate::FolderError { folder_index: i, .. } => if *i == folder_index {
                FolderStatus::Error
            } else {
                self
            },
            _ => self,
        }
    }
}

/// Why a folder, or the whole run, failed.
#[derive(Clone, Copy, Debug, PartialEq, Eq, Structural)]
pub enum FolderFailure {
    /// The folder holds no input files.
    NoInputFiles,
    /// The output directory could not be created.
    OutputDirectory,
    /// This many files of the folder failed.
    FilesFailed { count: usize },
    /// The worker pool could not be built; the run stops.
    WorkerPool,
}

/// An event of a batch run.
#[derive(Clone, Debug, PartialEq, Eq)]
pub enum ProgressUpdate {
    FolderStarted { folder_index: usize },
    /// Files done so far, of how many, the file just finished, and the
    /// throughput since the folder started in thousandths of a file per second.
    FileProgress {
        folder_index: usize,
        files_done: usize,
        files_total: usize,
        current_file: String,
        files_per_second_milli: u64,
    },
    FolderCompleted { folder_index: usize },
    FolderError { folder_index: usize, error: FolderFailure },
    AllComplete,
    Cancelled,
}

/// Where a batch run stands.
#[derive(Clone, Copy, Debug, PartialEq, Eq, Structural)]
pub enum Phase {
    /// Between folders: the next step checks cancellation and starts the
    /// next folder, or ends the run.
    Ready,
    /// The current folder's files are being listed.
    Listing,
    /// The current folder's output directory is being created.
    Preparing,
    /// The current folder's files are in flight.
    Running,
    /// The terminal event has been emitted.
    Finished,
}

/// What the caller reports.
#[derive(Clone, Debug, PartialEq, Eq)]
pub enum BatchEvent {
    /// Ready for the next folder; `cancelled` is the cancellation flag now.
    Advance { cancelled: bool },
    /// The current folder holds `files` input files; `now_us` is the clock.
    Listed { files: usize, now_us: u64 },
    /// Whether the output directory of the current folder was created.
    OutputReady { ok: bool },
    /// A file of the current folder finished, successfully or not.
    FileDone { ok: bool, name: String, now_us: u64 },
    /// The worker pool could not be built.
    PoolFailed,
}

/// What the caller is to do next.
#[derive(Clone, Copy, Debug, PartialEq, Eq, Structural)]
pub enum BatchAction {
    /// List the input files of this folder, then report `Listed`.
    ListFiles { folder_index: usize },
    /// Create this folder's output directory, then report `OutputReady`.
    PrepareOutput { folder_index: usize },
    /// Process every file of this folder in parallel, reporting `FileDone` for each.
    Dispatch { folder_index: usize },
    /// Wait for the files in flight.
    Await,
    /// Report `Advance` with the cancellation flag.
    Continue,
    /// The run is over.
    Stop,
}

/// The state of a batch run over `n_folders` folders.
#[derive(Clone, Copy, Debug, PartialEq, Eq, Structural)]
pub struct Batch {
    pub n_folders: usize,
    /// The folder being processed, or the next one when `Ready`.
    pub current: usize,
    pub phase: Phase,
    pub files_total: usize,
    pub files_done: usize,
    pub failures: usize,
    pub start_us: u64,
    pub last_emit_us: u64,
}

impl Batch {
    /// Folders are taken in order; counters stay within the folder's total.
    pub open spec fn wf(&self) -> bool {
        &&& self.current <= self.n_folders
        &&& (self.phase == Phase::Listing || self.phase == Phase::Preparing || self.phase
            == Phase::Running) ==> self.current < self.n_folders
        &&& self.failures <= self.files_done
        &&& self.files_done <= self.files_total
        &&& (self.phase == Phase::Running || self.phase == Phase::Preparing) ==> self.files_done
            < self.files_total
    }
}

/// `ceil(0.9 * hardware)`, and never below 1.
pub open spec fn auto_workers(hardware: nat) -> nat {
    let w = (9 * hardware + 9) / 10;
    if w < 1 {
        1
    } else {
        w
    }
}

/// The worker count: `concurrency` when it is nonzero, else derived from the
/// hardware parallelism.
pub open spec fn workers_for(concurrency: nat, hardware: nat) -> nat {
    if concurrency > 0 {
        concurrency
    } else {
        auto_workers(hardware)
    }
}

/// Resolves the worker count from the setting and the hardware parallelism.
pub fn resolve_workers(concurrency: usize, hardware: usize) -> (r: usize)
    ensures
        r as nat == workers_for(concurrency as nat, hardware as nat),
        r >= 1,
{
    if concurrency > 0 {
        concurrency
    } else {
        let w = (9 * (hardware as u128) + 9) / 10;
        assert(w <= hardware + 1);
        if w < 1 {
            1
        } else {
            w as usize
        }
    }
}

/// Relies on num_cpus::get, which reports the logical processors available
/// to this process and is documented to return at least 1.
#[verifier::external_body]
fn hardware_parallelism() -> (r: usize)
    ensures
        r >= 1,
{
    num_cpus::get()
}

/// The worker count for this machine: `concurrency` when it is nonzero,
/// else from the processors available.
pub fn worker_count(concurrency: usize) -> (r: usize)
    ensures
        r >= 1,
        concurrency > 0 ==> r == concurrency,
        concurrency == 0 ==> exists|h: nat| h >= 1 && r as nat == auto_workers(h),
{
    let h = hardware_parallelism();
    resolve_workers(concurrency, h)
}

/// Files done per second, in thousandths, saturating.
pub open spec fn rate_milli(done: nat, elapsed_us: nat) -> u64 {
    if elapsed_us == 0 {
        0
    } else {
        let r = done * 1_000_000_000 / elapsed_us;
        if r > u64::MAX {
            u64::MAX
        } else {
            r as u64
        }
    }
}

/// Time from `a` to `b`, or 0 when the clock went back.
pub open spec fn since(a: u64, b: u64) -> nat {
    if b >= a {
        (b - a) as nat
    } else {
        0
    }
}

/// A progress update is due when the interval has passed since the last one,
/// or the folder's last file is done.
pub open spec fn progress_due(last_us: u64, now_us: u64, done: nat, total: nat) -> bool {
    since(last_us, now_us) >= PROGRESS_INTERVAL_US || done == total
}

/// The terminal event of a folder whose files are all done.
pub open spec fn folder_outcome(folder_index: usize, failures: usize) -> ProgressUpdate {
    if failures == 0 {
        ProgressUpdate::FolderCompleted { folder_index }
    } else {
        ProgressUpdate::FolderError {
            folder_index,
            error: FolderFailure::FilesFailed { count: failures },
        }
    }
}

/// The next folder, or `Ready` after the last one.
pub open spec fn next_folder(b: Batch) -> Batch {
    Batch { current: (b.current + 1) as usize, phase: Phase::Ready, ..b }
}

/// One step of a batch run: the new state, the updates to emit in order,
/// and what the caller does next. An event that does not fit the phase
/// changes nothing.
pub open spec fn step_spec(b: Batch, ev: BatchEvent) -> (Batch, Seq<ProgressUpdate>, BatchAction) {
    if b.phase == Phase::Finished {
        (b, Seq::empty(), BatchAction::Stop)
    } else {
        match ev {
            BatchEvent::PoolFailed => (
                Batch { phase: Phase::Finished, ..b },
                seq![
                    ProgressUpdate::FolderError {
                        folder_index: 0,
                        error: FolderFailure::WorkerPool,
                    },
                ],
                BatchAction::Stop,
            ),
            BatchEvent::Advance { cancelled } => if b.phase != Phase::Ready {
                (b, Seq::empty(), BatchAction::Await)
            } else if cancelled {
                (Batch { phase: Phase::Finished, ..b }, seq![ProgressUpdate::Cancelled], BatchAction::Stop)
            } else if b.current >= b.n_folders {
                (
                    Batch { phase: Phase::Finished, ..b },
                    seq![ProgressUpdate::AllComplete],
                    BatchAction::Stop,
                )
            } else {
                (
                    Batch { phase: Phase::Listing, ..b },
                    seq![ProgressUpdate::FolderStarted { folder_index: b.current }],
                    BatchAction::ListFiles { folder_index: b.current },
                )
            },
            BatchEvent::Listed { files, now_us } => if b.phase != Phase::Listing {
                (b, Seq::empty(), BatchAction::Await)
            } else if files == 0 {
                (
                    next_folder(b),
                    seq![
                        ProgressUpdate::FolderError {
                            folder_index: b.current,
                            error: FolderFailure::NoInputFiles,
                        },
                    ],
                    BatchAction::Continue,
                )
            } else {
                (
                    Batch {
                        phase: Phase::Preparing,
                        files_total: files,
                        files_done: 0,
                        failures: 0,
                        start_us: now_us,
                        last_emit_us: now_us,
                        ..b
                    },
                    Seq::empty(),
                    BatchAction::PrepareOutput { folder_index: b.current },
                )
            },
            BatchEvent::OutputReady { ok } => if b.phase != Phase::Preparing {
                (b, Seq::empty(), BatchAction::Await)
            } else if !ok {
                (
                    next_folder(b),
                    seq![
                        ProgressUpdate::FolderError {
                            folder_index: b.current,
                            error: FolderFailure::OutputDirectory,
                        },
                    ],
                    BatchAction::Continue,
                )
            } else {
                (
                    Batch { phase: Phase::Running, ..b },
                    Seq::empty(),
                    BatchAction::Dispatch { folder_index: b.current },
                )
            },
            BatchEvent::FileDone { ok, name, now_us } => if b.phase != Phase::Running {
                (b, Seq::empty(), BatchAction::Await)
            } else {
                let done = (b.files_done + 1) as usize;
                let failures = if ok {
                    b.failures
                } else {
                    (b.failures + 1) as usize
                };
                let due = progress_due(b.last_emit_us, now_us, done as nat, b.files_total as nat);
                let progress = if due {
                    seq![
                        ProgressUpdate::FileProgress {
                            folder_index: b.current,
                            files_done: done,
                            files_total: b.files_total,
                            current_file: name,
                            files_per_second_milli: rate_milli(
                                done as nat,
                                since(b.start_us, now_us),
                            ),
                        },
                    ]
                } else {
                    Seq::empty()
                };
                let b2 = Batch {
                    files_done: done,
                    failures,
                    last_emit_us: if due {
                        now_us
                    } else {
                        b.last_emit_us
                    },
                    ..b
                };
                if done == b.files_total {
                    (
                        next_folder(b2),
                        progress.push(folder_outcome(b.current, failures)),
                        BatchAction::Continue,
                    )
                } else {
                    (b2, progress, BatchAction::Await)
                }
            },
        }
    }
}

impl Batch {
    /// A run over `n_folders` folders, before the first.
    pub fn new(n_folders: usize) -> (r: Batch)
        ensures
            r.wf(),
            r.n_folders == n_folders,
            r.current == 0,
            r.phase == Phase::Ready,
    {
        Batch {
            n_folders,
            current: 0,
            phase: Phase::Ready,
            files_total: 0,
            files_done: 0,
            failures: 0,
            start_us: 0,
            last_emit_us: 0,
        }
    }

    /// Takes one event of the run and says what to emit and what to do next.
    pub fn step(&mut self, ev: BatchEvent) -> (r: (Vec<ProgressUpdate>, BatchAction))
        requires
            old(self).wf(),
        ensures
            final(self).wf(),
            (*final(self), r.0@, r.1) == step_spec(*old(self), ev),
    {
        let mut out: Vec<ProgressUpdate> = Vec::new();
        if self.phase == Phase::Finished {
            return (out, BatchAction::Stop);
        }
        match ev {
            BatchEvent::PoolFailed => {
                self.phase = Phase::Finished;
                out.push(
                    ProgressUpdate::FolderError { folder_index: 0, error: FolderFailure::WorkerPool },
                );
                assert(out@ =~= seq![
                    ProgressUpdate::FolderError {
                        folder_index: 0,
                        error: FolderFailure::WorkerPool,
                    },
                ]);
                (out, BatchAction::Stop)
            },
            BatchEvent::Advance { cancelled } => {
                if self.phase != Phase::Ready {
                    (out, BatchAction::Await)
                } else if cancelled {
                    self.phase = Phase::Finished;
                    out.push(ProgressUpdate::Cancelled);
                    assert(out@ =~= seq![ProgressUpdate::Cancelled]);
                    (out, BatchAction::Stop)
                } else if self.current >= self.n_folders {
                    self.phase = Phase::Finished;
                    out.push(ProgressUpdate::AllComplete);
                    assert(out@ =~= seq![ProgressUpdate::AllComplete]);
                    (out, BatchAction::Stop)
                } else {
                    self.phase = Phase::Listing;
                    out.push(ProgressUpdate::FolderStarted { folder_index: self.current });
                    assert(out@ =~= seq![ProgressUpdate::FolderStarted { folder_index: self.current }]);
                    (out, BatchAction::ListFiles { folder_index: self.current })
                }
            },
            BatchEvent::Listed { files, now_us } => {
                if self.phase != Phase::Listing {
                    (out, BatchAction::Await)
                } else if files == 0 {
                    out.push(
                        ProgressUpdate::FolderError {
                            folder_index: self.current,
                            error: FolderFailure::NoInputFiles,
                        },
                    );
                    assert(out@ =~= seq![
                        ProgressUpdate::FolderError {
                            folder_index: self.current,
                            error: FolderFailure::NoInputFiles,
                        },
                    ]);
                    self.current = self.current + 1;
                    self.phase = Phase::Ready;
                    (out, BatchAction::Continue)
                } else {
                    self.phase = Phase::Preparing;
                    self.files_total = files;
                    self.files_done = 0;
                    self.failures = 0;
                    self.start_us = now_us;
                    self.last_emit_us = now_us;
                    (out, BatchAction::PrepareOutput { folder_index: self.current })
                }
            },
            BatchEvent::OutputReady { ok } => {
                if self.phase != Phase::Preparing {
                    (out, BatchAction::Await)
                } else if !ok {
                    out.push(
                        ProgressUpdate::FolderError {
                            folder_index: self.current,
                            error: FolderFailure::OutputDirectory,
                        },
                    );
                    assert(out@ =~= seq![
                        ProgressUpdate::FolderError {
                            folder_index: self.current,
                            error: FolderFailure::OutputDirectory,
                        },
                    ]);
                    self.current = self.current + 1;
                    self.phase = Phase::Ready;
                    (out, BatchAction::Continue)
                } else {
                    self.phase = Phase::Running;
                    (out, BatchAction::Dispatch { folder_index: self.current })
                }
            },
            BatchEvent::FileDone { ok, name, now_us } => {
                if self.phase != Phase::Running {
                    return (out, BatchAction::Await);
                }
                let done = self.files_done + 1;
                let failures = if ok {
                    self.failures
                } else {
                    self.failures + 1
                };
                let elapsed_last: u64 = if now_us >= self.last_emit_us {
                    now_us - self.last_emit_us
                } else {
                    0
                };
                let due = elapsed_last >= PROGRESS_INTERVAL_US || done == self.files_total;
                assert(due == progress_due(
                    self.last_emit_us,
                    now_us,
                    done as nat,
                    self.files_total as nat,
                ));
                let ghost spec_out = step_spec(*old(self), ev).1;
                let ghost progress = if due {
                    seq![
                        ProgressUpdate::FileProgress {
                            folder_index: self.current,
                            files_done: done,
                            files_total: self.files_total,
                            current_file: name,
                            files_per_second_milli: rate_milli(
                                done as nat,
                                since(self.start_us, now_us),
                            ),
                        },
                    ]
                } else {
                    Seq::<ProgressUpdate>::empty()
                };
                if due {
                    let rate = rate_of(done, self.start_us, now_us);
                    out.push(
                        ProgressUpdate::FileProgress {
                            folder_index: self.current,
                            files_done: done,
                            files_total: self.files_total,
                            current_file: name,
                            files_per_second_milli: rate,
                        },
                    );
                    self.last_emit_us = now_us;
                }
                assert(out@ =~= progress);
                self.files_done = done;
                self.failures = failures;
                if done == self.files_total {
                    let outcome = if failures == 0 {
                        ProgressUpdate::FolderCompleted { folder_index: self.current }
                    } else {
                        ProgressUpdate::FolderError {
                            folder_index: self.current,
                            error: FolderFailure::FilesFailed { count: failures },
                        }
                    };
                    out.push(outcome);
                    assert(out@ =~= progress.push(folder_outcome(self.current, failures)));
                    self.current = self.current + 1;
                    self.phase = Phase::Ready;
                    (out, BatchAction::Continue)
                } else {
                    (out, BatchAction::Await)
                }
            },
        }
    }
}

/// Throughput in thousandths of a file per second.
fn rate_of(done: usize, start_us: u64, now_us: u64) -> (r: u64)
    ensures
        r == rate_milli(done as nat, since(start_us, now_us)),
{
    if now_us <= start_us {
        return 0;
    }
    let elapsed = (now_us - start_us) as u128;
    assert((done as int) * 1_000_000_000 <= (usize::MAX as int) * 1_000_000_000) by (nonlinear_arith)
        requires
            done <= usize::MAX,
    ;
    let r = (done as u128) * 1_000_000_000 / elapsed;
    if r > u64::MAX as u128 {
        u64::MAX
    } else {
        r as u64
    }
}

/// Once the terminal event is out, the run is over: no event changes the
/// state or emits anything more.
pub proof fn lemma_finished_is_final(b: Batch, ev: BatchEvent)
    requires
        b.phase == Phase::Finished,
    ensures
        step_spec(b, ev) == (b, Seq::<ProgressUpdate>::empty(), BatchAction::Stop),
{
}

/// Every step keeps the run well formed.
pub proof fn lemma_step_wf(b: Batch, ev: BatchEvent)
    requires
        b.wf(),
    ensures
        step_spec(b, ev).0.wf(),
{
}

/// Cancellation is checked between folders only. With the last file of a
/// folder in flight when cancellation is signalled, that file still
/// completes and is reported with the folder's outcome; the next step then
/// emits `Cancelled` alone, the next folder is never started, and nothing is
/// emitted after it.
pub proof fn lemma_cancel_between_folders(b: Batch, ok: bool, name: String, now_us: u64, later: BatchEvent)
    requires
        b.wf(),
        b.phase == Phase::Running,
        b.files_done + 1 == b.files_total,
    ensures
        ({
            let (b1, u1, a1) = step_spec(b, BatchEvent::FileDone { ok, name, now_us });
            let (b2, u2, a2) = step_spec(b1, BatchEvent::Advance { cancelled: true });
            &&& u1.len() == 2
            &&& u1[0] matches ProgressUpdate::FileProgress { folder_index, files_done, files_total, .. }
                && folder_index == b.current && files_done == b.files_total && files_total == b.files_total
            &&& u1[1] == folder_outcome(b.current, b1.failures)
            &&& a1 == BatchAction::Continue
            &&& u2 == seq![ProgressUpdate::Cancelled]
            &&& a2 == BatchAction::Stop
            &&& b2.phase == Phase::Finished
            &&& b2.current == b.current + 1
            &&& step_spec(b2, later).1.len() == 0
        }),
{
}

} // verus!
