//! Progress shared between the worker threads and the display: counters,
//! the current phase and path, and the throughput samples the display keeps.
use std::collections::VecDeque;
use std::sync::atomic::{AtomicBool, AtomicU64, AtomicU8, Ordering};
use std::sync::{Arc, Mutex};
use std::time::Instant;
use vstd::prelude::*;
use crate::phase::Phase;

verus! {

#[verifier::external_type_specification]
#[verifier::external_body]
pub struct ExInstant(Instant);

#[verifier::external_type_specification]
#[verifier::external_body]
#[verifier::reject_recursive_types(T)]
pub struct ExMutex<T: ?Sized>(Mutex<T>);

/// The shared counters of a run.
pub struct Inner {
    pub bytes_scanned: AtomicU64,
    pub bytes_total: AtomicU64,
    pub bytes_archived_uncompressed: AtomicU64,
    pub bytes_archived_compressed: Arc<AtomicU64>,
    pub files_done: AtomicU64,
    pub files_total: AtomicU64,
    pub projects_found: AtomicU64,
    pub large_queued: AtomicU64,
    pub errors_skipped: AtomicU64,
    pub phase: AtomicU8,
    pub aborted: AtomicBool,
    pub start: Instant,
    pub current_path: Mutex<String>,
}

/// The moment of the call (`Instant::now`); nothing is claimed of it.
#[verifier::external_body]
fn instant_now() -> Instant {
    Instant::now()
}

/// A lock holding `s` (`Mutex::new`).
#[verifier::external_body]
fn new_mutex(s: String) -> Mutex<String> {
    Mutex::new(s)
}

/// Replaces the string behind the lock when the lock can be taken
/// (`Mutex::lock`); a poisoned lock is left as it is.
#[verifier::external_body]
fn store_locked(m: &Mutex<String>, s: String) {
    if let Ok(mut g) = m.lock() {
        *g = s;
    }
}

/// A handle on the counters; clones share them.
#[derive(Clone)]
pub struct ProgressState(pub Arc<Inner>);

impl ProgressState {
    /// Every counter at zero, the phase `Preflight`, no current path, not
    /// aborted, started now. The values live in atomics, a clock reading and
    /// a lock, whose contents the contracts do not see.
    pub fn new() -> (r: Self) {
        let inner = Inner {
            bytes_scanned: AtomicU64::new(0),
            bytes_total: AtomicU64::new(0),
            bytes_archived_uncompressed: AtomicU64::new(0),
            bytes_archived_compressed: Arc::new(AtomicU64::new(0)),
            files_done: AtomicU64::new(0),
            files_total: AtomicU64::new(0),
            projects_found: AtomicU64::new(0),
            large_queued: AtomicU64::new(0),
            errors_skipped: AtomicU64::new(0),
            phase: AtomicU8::new(Phase::Preflight.code()),
            aborted: AtomicBool::new(false),
            start: instant_now(),
            current_path: new_mutex(String::new()),
        };
        ProgressState(Arc::new(inner))
    }

    /// Stores the phase as its number.
    pub fn set_phase(&self, p: Phase) {
        self.0.phase.store(p.code(), Ordering::Relaxed);
    }

    /// The phase last stored, read back from its number. The number lives
    /// in an atomic that another thread may have written, so no phase is
    /// claimed.
    pub fn phase(&self) -> (r: Phase) {
        let v = self.0.phase.load(Ordering::Relaxed);
        Phase::from_u8(v)
    }

    /// Records the path being archived.
    pub fn set_current_path(&self, p: String) {
        store_locked(&self.0.current_path, p);
    }

    /// Asks the run to stop.
    pub fn signal_abort(&self) {
        self.0.aborted.store(true, Ordering::Relaxed);
    }

    /// Whether the run was asked to stop: the flag as another thread may have
    /// set it, so no value is claimed.
    pub fn is_aborted(&self) -> bool {
        self.0.aborted.load(Ordering::Relaxed)
    }
}

impl std::ops::Deref for ProgressState {
    type Target = Inner;

    fn deref(&self) -> (r: &Inner)
        ensures
            *r == *self.0,
    {
        &self.0
    }
}

/// `a - b`, or zero when `b` is larger.
pub open spec fn sat_sub(a: u64, b: u64) -> u64 {
    if a >= b {
        (a - b) as u64
    } else {
        0
    }
}

/// The throughput samples after one more: the oldest goes first when the
/// window is full, then the new one is added.
pub open spec fn window_after(spark: Seq<u64>, capacity: usize, sample: u64) -> Seq<u64> {
    (if spark.len() == capacity && spark.len() > 0 {
        spark.drop_first()
    } else {
        spark
    }).push(sample)
}

/// The display's state: the counters and the last samples of compressed
/// throughput.
pub struct ViewModel {
    pub state: ProgressState,
    pub spark: VecDeque<u64>,
    pub spark_capacity: usize,
    pub last_compressed: u64,
}

impl ViewModel {
    /// No samples yet, room for 120.
    pub fn new(state: ProgressState) -> (r: Self)
        ensures
            r.spark@ == Seq::<u64>::empty(),
            r.spark_capacity == 120,
            r.last_compressed == 0,
            r.state.0 == state.0,
    {
        ViewModel { state, spark: VecDeque::with_capacity(120), spark_capacity: 120, last_compressed: 0 }
    }

    /// Adds the sample for a compressed byte count of `now`: the growth since
    /// the last count (zero if it shrank).
    pub fn record(&mut self, now: u64)
        ensures
            final(self).last_compressed == now,
            final(self).spark@ == window_after(
                old(self).spark@,
                old(self).spark_capacity,
                sat_sub(now, old(self).last_compressed),
            ),
            final(self).spark_capacity == old(self).spark_capacity,
            final(self).state.0 == old(self).state.0,
    {
        let delta = now.saturating_sub(self.last_compressed);
        self.last_compressed = now;
        if self.spark.len() == self.spark_capacity {
            let _ = self.spark.pop_front();
        }
        self.spark.push_back(delta);
    }

    /// Samples the compressed byte count once.
    pub fn tick(&mut self)
        ensures
            exists|now: u64|
                final(self).last_compressed == now && final(self).spark@ == window_after(
                    old(self).spark@,
                    old(self).spark_capacity,
                    sat_sub(now, old(self).last_compressed),
                ),
            final(self).spark_capacity == old(self).spark_capacity,
            final(self).state.0 == old(self).state.0,
    {
        let now = self.state.0.bytes_archived_compressed.load(Ordering::Relaxed);
        self.record(now);
    }
}

/// The sample window never grows past its capacity.
pub proof fn lemma_window_bounded(spark: Seq<u64>, capacity: usize, sample: u64)
    requires
        capacity >= 1,
        spark.len() <= capacity,
    ensures
        window_after(spark, capacity, sample).len() <= capacity,
        window_after(spark, capacity, sample).last() == sample,
{
}

} // verus!
