//! Settings of a backup or a restore run, their defaults, and the decisions
//! taken from them.
use vstd::prelude::*;
use crate::excludes::NormalizedExclude;
use crate::review::ReviewOutcome;
use vstd::std_specs::convert::FromSpecImpl;

verus! {

broadcast use vstd::seq::group_seq_axioms;

/// Files larger than this many bytes are queued for review (100 MiB).
pub const LARGE_FILE_THRESHOLD_DEFAULT: u64 = 104857600;

/// The zstd level used when none is given.
pub const ZSTD_LEVEL_DEFAULT: i32 = 3;

/// Capacity of the channel between the walker and the archiver.
pub const CHANNEL_CAPACITY: usize = 1024;

/// Buffer size of archive and file readers (1 MiB).
pub const READ_BUFFER_BYTES: usize = 1048576;

/// Buffer size of the archive writer (1 MiB).
pub const WRITE_BUFFER_BYTES: usize = 1048576;

/// Name of the manifest, the last entry of every archive.
pub const MANIFEST_NAME: &'static str = "MANIFEST.blake3";

/// Environment variable that may hold the passphrase.
pub const PASSPHRASE_ENV: &'static str = "MINBUP_PASSPHRASE";

/// Most zstd worker threads used by default.
pub const DEFAULT_MAX_ZSTD_WORKERS: u32 = 4;

/// What to do with files larger than the size threshold.
#[derive(Clone, Debug, Copy, PartialEq, Eq, Structural)]
pub enum LargeFilePolicy {
    Prompt,
    KeepAll,
    SkipAll,
}

/// The `--large-files` value as written on the command line.
#[derive(Clone, Copy, Debug, PartialEq, Eq, Structural)]
pub enum LargeFilePolicyArg {
    Prompt,
    Keep,
    Skip,
}

pub open spec fn policy_of_arg(v: LargeFilePolicyArg) -> LargeFilePolicy {
    match v {
        LargeFilePolicyArg::Prompt => LargeFilePolicy::Prompt,
        LargeFilePolicyArg::Keep => LargeFilePolicy::KeepAll,
        LargeFilePolicyArg::Skip => LargeFilePolicy::SkipAll,
    }
}

impl From<LargeFilePolicyArg> for LargeFilePolicy {
    fn from(v: LargeFilePolicyArg) -> (r: Self) {
        match v {
            LargeFilePolicyArg::Prompt => LargeFilePolicy::Prompt,
            LargeFilePolicyArg::Keep => LargeFilePolicy::KeepAll,
            LargeFilePolicyArg::Skip => LargeFilePolicy::SkipAll,
        }
    }
}

impl FromSpecImpl<LargeFilePolicyArg> for LargeFilePolicy {
    open spec fn obeys_from_spec() -> bool {
        true
    }

    open spec fn from_spec(v: LargeFilePolicyArg) -> LargeFilePolicy {
        policy_of_arg(v)
    }
}

/// Everything a backup run needs to know. Paths are UTF-8 strings.
#[derive(Clone, Debug)]
pub struct BackupSettings {
    pub target: String,
    pub output: String,
    pub encrypt: bool,
    pub large_threshold: u64,
    pub zstd_level: i32,
    pub zstd_workers: u32,
    pub large_files: LargeFilePolicy,
    pub no_default_excludes: bool,
    pub extra_excludes: Vec<String>,
}

/// Everything a restore run needs to know.
#[derive(Clone, Debug)]
pub struct RestoreSettings {
    pub archive: String,
    pub dest: String,
    pub no_git_rehydrate: bool,
    pub full_history: bool,
    pub skip_verify: bool,
}

/// The number of logical CPUs (`num_cpus::get`), at least one by the crate's
/// documentation; the machine decides the rest.
#[verifier::external_body]
fn cpu_count() -> (r: usize)
    ensures
        r >= 1,
{
    num_cpus::get()
}

pub open spec fn min_u32(a: u32, b: u32) -> u32 {
    if a <= b {
        a
    } else {
        b
    }
}

/// The zstd workers for a run on a machine with `cpus` CPUs: the number
/// given, else the CPU count (as a `u32`) but no more than four.
pub fn zstd_workers_for(requested: Option<u32>, cpus: usize) -> (r: u32)
    ensures
        r == match requested {
            Some(w) => w,
            None => min_u32(cpus as u32, DEFAULT_MAX_ZSTD_WORKERS),
        },
{
    match requested {
        Some(w) => w,
        None => {
            let c = cpus as u32;
            if c <= DEFAULT_MAX_ZSTD_WORKERS {
                c
            } else {
                DEFAULT_MAX_ZSTD_WORKERS
            }
        },
    }
}

/// The settings of a backup run from the parsed arguments and the
/// `--exclude` values already normalized: the output defaults to a name made
/// of the target's name and the current time; the workers to the CPU count,
/// at most four. Returns the settings and the canonical paths of the
/// excluded subtrees, in the order of the values.
pub fn build_backup_settings(
    target: String,
    output: Option<String>,
    encrypt: bool,
    no_default_excludes: bool,
    large_threshold: u64,
    zstd_level: i32,
    zstd_workers: Option<u32>,
    large_files: LargeFilePolicyArg,
    normalized: Vec<NormalizedExclude>,
) -> (r: (BackupSettings, Vec<String>))
    ensures
        r.0.target@ == target@,
        match output {
            Some(o) => r.0.output@ == o@,
            None => exists|y: int, mo: nat, d: nat, h: nat, mi: nat, sec: nat|
                1 <= mo <= 12 && 1 <= d <= 31 && h < 24 && mi < 60 && sec < 60
                && r.0.output@ == crate::paths::output_name_spec(
                    target@,
                    crate::stamp::stamp_spec(y, mo, d, h, mi, sec),
                    encrypt,
                ),
        },
        r.0.encrypt == encrypt,
        r.0.large_threshold == large_threshold,
        r.0.zstd_level == zstd_level,
        match zstd_workers {
            Some(w) => r.0.zstd_workers == w,
            None => exists|cpus: usize| cpus >= 1 && r.0.zstd_workers == #[trigger] min_u32(cpus as u32, DEFAULT_MAX_ZSTD_WORKERS),
        },
        r.0.large_files == policy_of_arg(large_files),
        r.0.no_default_excludes == no_default_excludes,
        r.0.extra_excludes@.len() == normalized@.len(),
        forall|i: int| 0 <= i < normalized@.len() ==> (#[trigger] r.0.extra_excludes@[i])@ == normalized@[i].pattern@,
        r.1@.map_values(|s: String| s@) == subtrees_of(normalized@),
{
    let out = match output {
        Some(o) => o,
        None => crate::paths::default_output_name(target.as_str(), encrypt),
    };
    let workers = match zstd_workers {
        Some(w) => w,
        None => zstd_workers_for(None, cpu_count()),
    };
    let mut extra: Vec<String> = Vec::new();
    let mut subtrees: Vec<String> = Vec::new();
    let mut i: usize = 0;
    while i < normalized.len()
        invariant
            i <= normalized@.len(),
            extra@.len() == i,
            forall|j: int| 0 <= j < i ==> (#[trigger] extra@[j])@ == normalized@[j].pattern@,
            subtrees@.map_values(|s: String| s@) == subtrees_of(normalized@.take(i as int)),
        decreases normalized.len() - i,
    {
        extra.push(normalized[i].pattern.clone());
        let ghost before = subtrees@;
        match &normalized[i].canonical_path {
            Some(c) => {
                subtrees.push(c.clone());
                assert(subtrees@.map_values(|s: String| s@) =~= before.map_values(|s: String| s@).push(c@));
            },
            None => {},
        }
        assert(normalized@.take(i + 1).drop_last() =~= normalized@.take(i as int));
        i = i + 1;
    }
    assert(normalized@.take(i as int) =~= normalized@);
    let settings = BackupSettings {
        target,
        output: out,
        encrypt,
        large_threshold,
        zstd_level,
        zstd_workers: workers,
        large_files: LargeFilePolicy::from(large_files),
        no_default_excludes,
        extra_excludes: extra,
    };
    (settings, subtrees)
}

/// The canonical paths carried by normalized excludes, in order.
pub open spec fn subtrees_of(s: Seq<NormalizedExclude>) -> Seq<Seq<char>>
    decreases s.len(),
{
    if s.len() == 0 {
        Seq::empty()
    } else {
        match s.last().canonical_path {
            Some(c) => subtrees_of(s.drop_last()).push(c@),
            None => subtrees_of(s.drop_last()),
        }
    }
}

/// A file goes to the large-file queue when it is larger than the threshold.
pub fn is_large(size: u64, threshold: u64) -> (r: bool)
    ensures
        r == (size > threshold),
{
    size > threshold
}

/// Whether the queued large files are put to the review provider.
#[derive(Debug, Clone, Copy, PartialEq, Eq, Structural)]
pub enum ReviewRequest {
    /// No review: the queue is empty or the policy keeps or skips them all.
    NotNeeded,
    /// Ask the review provider.
    AskProvider,
    /// The policy asks for a review but there is no one to ask: all are kept.
    NoProvider,
}

/// Whether `n` queued large files are reviewed: only a nonempty queue under
/// the `Prompt` policy is, by the review provider when there is one.
pub fn review_request(policy: LargeFilePolicy, has_provider: bool, n: usize) -> (r: ReviewRequest)
    ensures
        r == (if n == 0 || policy != LargeFilePolicy::Prompt {
            ReviewRequest::NotNeeded
        } else if has_provider {
            ReviewRequest::AskProvider
        } else {
            ReviewRequest::NoProvider
        }),
{
    if n == 0 {
        return ReviewRequest::NotNeeded;
    }
    match policy {
        LargeFilePolicy::Prompt => if has_provider {
            ReviewRequest::AskProvider
        } else {
            ReviewRequest::NoProvider
        },
        _ => ReviewRequest::NotNeeded,
    }
}

/// The indices `0..n`.
pub open spec fn all_indices(n: nat) -> Seq<usize> {
    Seq::new(n, |i: int| i as usize)
}

/// Which of `n` queued large files are archived: none for an empty queue;
/// none or all when the policy says so; under `Prompt`, what the review
/// decided, or all when there was no one to ask (`outcome` is `None`).
pub open spec fn kept_indices_spec(policy: LargeFilePolicy, outcome: Option<ReviewOutcome>, n: nat) -> Seq<usize> {
    if n == 0 {
        Seq::empty()
    } else {
        match policy {
            LargeFilePolicy::SkipAll => Seq::empty(),
            LargeFilePolicy::KeepAll => all_indices(n),
            LargeFilePolicy::Prompt => match outcome {
                None => all_indices(n),
                Some(ReviewOutcome::SkipAll) => Seq::empty(),
                Some(ReviewOutcome::KeepAll) => all_indices(n),
                Some(ReviewOutcome::KeepSelected(v)) => v@,
            },
        }
    }
}

fn index_range(n: usize) -> (r: Vec<usize>)
    ensures
        r@ == all_indices(n as nat),
{
    let mut v: Vec<usize> = Vec::new();
    let mut i: usize = 0;
    while i < n
        invariant
            i <= n,
            v@ == all_indices(i as nat),
        decreases n - i,
    {
        v.push(i);
        assert(v@ =~= all_indices((i + 1) as nat));
        i = i + 1;
    }
    v
}

/// The indices of the queued large files to archive; see `kept_indices_spec`.
pub fn kept_indices(policy: LargeFilePolicy, outcome: Option<ReviewOutcome>, n: usize) -> (r: Vec<usize>)
    ensures
        r@ == kept_indices_spec(policy, outcome, n as nat),
{
    if n == 0 {
        return Vec::new();
    }
    match policy {
        LargeFilePolicy::SkipAll => Vec::new(),
        LargeFilePolicy::KeepAll => index_range(n),
        LargeFilePolicy::Prompt => match outcome {
            None => index_range(n),
            Some(ReviewOutcome::SkipAll) => Vec::new(),
            Some(ReviewOutcome::KeepAll) => index_range(n),
            Some(ReviewOutcome::KeepSelected(v)) => v,
        },
    }
}

/// The log level for `-v` given `verbose` times.
pub fn log_level(verbose: u8) -> (r: &'static str)
    ensures
        r@ == (if verbose == 0 {
            "warn"@
        } else if verbose == 1 {
            "info"@
        } else if verbose == 2 {
            "debug"@
        } else {
            "trace"@
        }),
{
    match verbose {
        0 => "warn",
        1 => "info",
        2 => "debug",
        _ => "trace",
    }
}

/// A directory is a cargo build directory, left out of every walk, when it is
/// named `target` and a `Cargo.toml` file lies beside it.
pub fn is_rust_target(name: &str, is_dir: bool, sibling_cargo_toml: bool) -> (r: bool)
    ensures
        r == (name@ == "target"@ && is_dir && sibling_cargo_toml),
{
    let same = name.to_owned() == String::from_str("target");
    same && is_dir && sibling_cargo_toml
}

/// Every index the archiver is handed is a position of the large-file queue,
/// provided the review named only positions of the queue (as a confirmed
/// review does).
pub proof fn lemma_kept_indices_in_queue(policy: LargeFilePolicy, outcome: Option<ReviewOutcome>, n: nat)
    requires
        n <= usize::MAX,
        outcome matches Some(ReviewOutcome::KeepSelected(v)) ==> forall|i: int|
            0 <= i < v@.len() ==> #[trigger] v@[i] < n,
    ensures
        forall|i: int|
            0 <= i < kept_indices_spec(policy, outcome, n).len() ==> #[trigger] kept_indices_spec(
                policy,
                outcome,
                n,
            )[i] < n,
{
}

} // verus!
