//! Restore: what becomes of each archive entry, the check of the extracted
//! files against the manifest, and the outcome of a run.
use vstd::prelude::*;
use crate::config::MANIFEST_NAME;
use crate::error::Error;
use crate::manifest::{entry_model, is_path_sorting, lemma_sorting_member, ManifestEntry};
use crate::paths::{is_safe_relative, normalize_archive_path, replace_char, safe_relative, trim_end_char};
use crate::text::decimal_string;

verus! {

broadcast use vstd::seq::group_seq_axioms;

/// Counters of a restore run.
#[derive(Debug)]
pub struct RestoreSummary {
    pub files_extracted: u64,
    pub bytes_extracted: u64,
    pub manifest_entries: u64,
    pub verification_failures: u64,
    pub projects_rehydrated: u64,
    pub projects_failed: u64,
}

impl Default for RestoreSummary {
    fn default() -> (r: Self)
        ensures
            r.files_extracted == 0 && r.bytes_extracted == 0 && r.manifest_entries == 0
                && r.verification_failures == 0 && r.projects_rehydrated == 0 && r.projects_failed == 0,
    {
        RestoreSummary {
            files_extracted: 0,
            bytes_extracted: 0,
            manifest_entries: 0,
            verification_failures: 0,
            projects_rehydrated: 0,
            projects_failed: 0,
        }
    }
}

pub open spec fn sat_add(a: u64, b: u64) -> u64 {
    if a + b > u64::MAX {
        u64::MAX
    } else {
        (a + b) as u64
    }
}

impl RestoreSummary {
    /// Counts one extracted file of `copied` bytes (the byte count saturates).
    pub fn record_file(&mut self, copied: u64)
        requires
            old(self).files_extracted < u64::MAX,
        ensures
            final(self).files_extracted == old(self).files_extracted + 1,
            final(self).bytes_extracted == sat_add(old(self).bytes_extracted, copied),
            final(self).manifest_entries == old(self).manifest_entries,
            final(self).verification_failures == old(self).verification_failures,
            final(self).projects_rehydrated == old(self).projects_rehydrated,
            final(self).projects_failed == old(self).projects_failed,
    {
        self.files_extracted = self.files_extracted + 1;
        self.bytes_extracted = self.bytes_extracted.saturating_add(copied);
    }

    /// Counts one project rehydrated (`ok`) or one that failed.
    pub fn record_rehydrate(&mut self, ok: bool)
        requires
            ok ==> old(self).projects_rehydrated < u64::MAX,
            !ok ==> old(self).projects_failed < u64::MAX,
        ensures
            final(self).projects_rehydrated == old(self).projects_rehydrated + (if ok { 1int } else { 0 }),
            final(self).projects_failed == old(self).projects_failed + (if ok { 0int } else { 1 }),
            final(self).files_extracted == old(self).files_extracted,
            final(self).bytes_extracted == old(self).bytes_extracted,
            final(self).manifest_entries == old(self).manifest_entries,
            final(self).verification_failures == old(self).verification_failures,
    {
        if ok {
            self.projects_rehydrated = self.projects_rehydrated + 1;
        } else {
            self.projects_failed = self.projects_failed + 1;
        }
    }
}

/// What to do with one archive entry.
#[derive(Debug)]
pub enum EntryAction {
    /// The manifest: read it.
    ReadManifest,
    /// A path that would leave the destination: skip it.
    Reject(String),
    /// A directory to create at this relative path.
    MakeDir(String),
    /// A file to write at this relative path; it is checked against the
    /// manifest under the same name.
    WriteFile(String),
}

/// The normalized form of an entry name.
pub open spec fn normalized_name(p: Seq<char>) -> Seq<char> {
    replace_char(trim_end_char(p, '/'), '\\', '/')
}

/// What becomes of an entry named `path_in_archive`: the manifest is read;
/// any other name, once normalized, is rejected unless it is a safe relative
/// path, and otherwise made a directory or written as a file.
pub open spec fn entry_action_spec(path_in_archive: Seq<char>, is_dir: bool, a: EntryAction) -> bool {
    let n = normalized_name(path_in_archive);
    if n == MANIFEST_NAME@ {
        a is ReadManifest
    } else if !is_safe_relative(n) {
        a matches EntryAction::Reject(s) && s@ == n
    } else if is_dir {
        a matches EntryAction::MakeDir(s) && s@ == n
    } else {
        a matches EntryAction::WriteFile(s) && s@ == n
    }
}

pub fn classify_entry(path_in_archive: &str, is_dir: bool) -> (r: EntryAction)
    ensures
        entry_action_spec(path_in_archive@, is_dir, r),
{
    let normalized = normalize_archive_path(path_in_archive);
    if normalized.clone() == String::from_str(MANIFEST_NAME) {
        return EntryAction::ReadManifest;
    }
    match safe_relative(normalized.as_str()) {
        None => EntryAction::Reject(normalized),
        Some(rel) => {
            if is_dir {
                EntryAction::MakeDir(rel)
            } else {
                EntryAction::WriteFile(rel)
            }
        },
    }
}

/// A file as it was extracted: its name, the BLAKE3 digest (hex) and the
/// number of bytes written.
#[derive(Debug, Clone)]
pub struct ExtractedFile {
    pub path: String,
    pub blake3_hex: String,
    pub size: u64,
}

/// The digest and size last recorded for a path (a later entry of the same
/// name replaces an earlier one), if any.
pub open spec fn last_record(c: Seq<ExtractedFile>, path: Seq<char>) -> Option<(Seq<char>, u64)>
    decreases c.len(),
{
    if c.len() == 0 {
        None
    } else if c.last().path@ == path {
        Some((c.last().blake3_hex@, c.last().size))
    } else {
        last_record(c.drop_last(), path)
    }
}

/// A manifest entry is matched when a file of its name was extracted, with
/// its digest and its size.
pub open spec fn entry_verified(c: Seq<ExtractedFile>, e: ManifestEntry) -> bool {
    last_record(c, e.path@) == Some((e.blake3_hex@, e.size))
}

/// The number of manifest entries that are not matched.
pub open spec fn failures_count(c: Seq<ExtractedFile>, entries: Seq<ManifestEntry>) -> nat
    decreases entries.len(),
{
    if entries.len() == 0 {
        0
    } else {
        failures_count(c, entries.drop_last()) + if entry_verified(c, entries.last()) {
            0nat
        } else {
            1nat
        }
    }
}

proof fn lemma_failures_bound(c: Seq<ExtractedFile>, entries: Seq<ManifestEntry>)
    ensures
        failures_count(c, entries) <= entries.len(),
    decreases entries.len(),
{
    if entries.len() > 0 {
        lemma_failures_bound(c, entries.drop_last());
    }
}

/// The last record of `path` in the extracted files.
fn lookup_last(computed: &Vec<ExtractedFile>, path: &String) -> (r: Option<(String, u64)>)
    ensures
        match r {
            Some(p) => last_record(computed@, path@) == Some((p.0@, p.1)),
            None => last_record(computed@, path@) is None,
        },
{
    let mut i: usize = computed.len();
    assert(computed@.take(i as int) =~= computed@);
    while i > 0
        invariant
            i <= computed@.len(),
            last_record(computed@, path@) == last_record(computed@.take(i as int), path@),
        decreases i,
    {
        let ghost t = computed@.take(i as int);
        assert(t.drop_last() =~= computed@.take(i - 1));
        if computed[i - 1].path == *path {
            return Some((computed[i - 1].blake3_hex.clone(), computed[i - 1].size));
        }
        i = i - 1;
    }
    None
}

/// Counts the manifest entries whose file was not extracted with the
/// digest and size the manifest lists.
pub fn count_verification_failures(computed: &Vec<ExtractedFile>, entries: &Vec<ManifestEntry>) -> (r: u64)
    ensures
        r == failures_count(computed@, entries@),
{
    let mut n: u64 = 0;
    let mut i: usize = 0;
    while i < entries.len()
        invariant
            i <= entries@.len(),
            n == failures_count(computed@, entries@.take(i as int)),
        decreases entries.len() - i,
    {
        let e = &entries[i];
        assert(entries@.take(i + 1).drop_last() =~= entries@.take(i as int));
        proof {
            lemma_failures_bound(computed@, entries@.take(i as int));
        }
        let ok = match lookup_last(computed, &e.path) {
            Some((hex, size)) => hex == e.blake3_hex && size == e.size,
            None => false,
        };
        if !ok {
            n = n + 1;
        }
        i = i + 1;
    }
    assert(entries@.take(i as int) =~= entries@);
    n
}

/// The message of a failed verification.
pub open spec fn verification_message(n: nat) -> Seq<char> {
    crate::text::dec_chars(n) + " verification failure(s)"@
}

/// The end of an extraction: unless verification is skipped or the archive
/// had no manifest, the unmatched entries are added to the failure count, and
/// the run fails when that count is not zero.
pub fn finish_extract(
    summary: &mut RestoreSummary,
    computed: &Vec<ExtractedFile>,
    manifest: Option<Vec<ManifestEntry>>,
    skip_verify: bool,
) -> (r: Result<(), Error>)
    requires
        manifest matches Some(m) ==> old(summary).verification_failures + m@.len() <= u64::MAX,
    ensures
        final(summary).files_extracted == old(summary).files_extracted,
        final(summary).bytes_extracted == old(summary).bytes_extracted,
        final(summary).manifest_entries == old(summary).manifest_entries,
        final(summary).projects_rehydrated == old(summary).projects_rehydrated,
        final(summary).projects_failed == old(summary).projects_failed,
        match manifest {
            Some(m) if !skip_verify => {
                &&& final(summary).verification_failures == old(summary).verification_failures
                    + failures_count(computed@, m@)
                &&& (r is Ok <==> final(summary).verification_failures == 0)
                &&& (r matches Err(e) ==> e matches Error::Manifest(msg)
                    && msg@ == verification_message(final(summary).verification_failures as nat))
            },
            _ => r is Ok && final(summary).verification_failures == old(summary).verification_failures,
        },
{
    if skip_verify {
        return Ok(());
    }
    match manifest {
        None => Ok(()),
        Some(entries) => {
            proof {
                lemma_failures_bound(computed@, entries@);
            }
            let n = count_verification_failures(computed, &entries);
            summary.verification_failures = summary.verification_failures + n;
            if summary.verification_failures > 0 {
                let mut msg = decimal_string(summary.verification_failures);
                msg.append(" verification failure(s)");
                Err(Error::Manifest(msg))
            } else {
                Ok(())
            }
        },
    }
}

/// The message when projects could not be rehydrated.
pub open spec fn rehydrate_failure_message(n: nat) -> Seq<char> {
    crate::text::dec_chars(n) + " project(s) failed to rehydrate"@
}

/// A restore fails when any project failed to rehydrate.
pub fn restore_outcome(summary: &RestoreSummary) -> (r: Result<(), Error>)
    ensures
        r is Ok <==> summary.projects_failed == 0,
        r matches Err(e) ==> e matches Error::Restore(msg) && msg@ == rehydrate_failure_message(
            summary.projects_failed as nat,
        ),
{
    if summary.projects_failed > 0 {
        let mut msg = decimal_string(summary.projects_failed);
        msg.append(" project(s) failed to rehydrate");
        Err(Error::Restore(msg))
    } else {
        Ok(())
    }
}

/// The records of files extracted exactly as listed.
pub open spec fn records_of(es: Seq<ManifestEntry>) -> Seq<ExtractedFile> {
    es.map_values(|e: ManifestEntry| ExtractedFile { path: e.path, blake3_hex: e.blake3_hex, size: e.size })
}

/// No two entries share a path.
pub open spec fn distinct_paths(es: Seq<ManifestEntry>) -> bool {
    forall|i: int, j: int| 0 <= i < j < es.len() ==> (#[trigger] es[i]).path@ != (#[trigger] es[j]).path@
}

proof fn lemma_last_record_of_entry(es: Seq<ManifestEntry>, k: int)
    requires
        distinct_paths(es),
        0 <= k < es.len(),
    ensures
        last_record(records_of(es), es[k].path@) == Some((es[k].blake3_hex@, es[k].size)),
    decreases es.len(),
{
    let r = records_of(es);
    if k == es.len() - 1 {
    } else {
        assert(es[es.len() - 1].path@ != es[k].path@);
        assert(records_of(es.drop_last()) =~= r.drop_last());
        lemma_last_record_of_entry(es.drop_last(), k);
    }
}

/// Verification counts exactly the entries that are not matched: it passes
/// if and only if every manifest entry was extracted with its digest and size.
pub proof fn lemma_verification_passes_iff_all_match(c: Seq<ExtractedFile>, entries: Seq<ManifestEntry>)
    ensures
        failures_count(c, entries) == 0 <==> forall|i: int| 0 <= i < entries.len() ==> entry_verified(c, #[trigger] entries[i]),
    decreases entries.len(),
{
    if entries.len() > 0 {
        lemma_verification_passes_iff_all_match(c, entries.drop_last());
        if failures_count(c, entries) == 0 {
            assert forall|i: int| 0 <= i < entries.len() implies entry_verified(c, #[trigger] entries[i]) by {
                if i < entries.len() - 1 {
                    assert(entries[i] == entries.drop_last()[i]);
                }
            }
        } else if forall|i: int| 0 <= i < entries.len() ==> entry_verified(c, #[trigger] entries[i]) {
            assert(entry_verified(c, entries[entries.len() - 1]));
            assert forall|i: int| 0 <= i < entries.len() - 1 implies entry_verified(c, #[trigger] entries.drop_last()[i]) by {
                assert(entries.drop_last()[i] == entries[i]);
            }
        }
    }
}

/// A restore of an intact archive verifies: when every file listed in the
/// manifest was extracted with the digest and size recorded at backup time
/// (the files in any order, under distinct names), no entry fails.
pub proof fn lemma_intact_archive_verifies(extracted: Seq<ManifestEntry>, manifest: Seq<ManifestEntry>)
    requires
        distinct_paths(extracted),
        forall|j: int| 0 <= j < manifest.len() ==> extracted.contains(#[trigger] manifest[j]),
    ensures
        failures_count(records_of(extracted), manifest) == 0,
{
    let c = records_of(extracted);
    assert forall|j: int| 0 <= j < manifest.len() implies entry_verified(c, #[trigger] manifest[j]) by {
        let k = choose|k: int| 0 <= k < extracted.len() && extracted[k] == manifest[j];
        lemma_last_record_of_entry(extracted, k);
    }
    lemma_verification_passes_iff_all_match(c, manifest);
}

/// A file whose last extracted digest or size differs from its manifest
/// entry makes verification fail.
pub proof fn lemma_tampered_file_fails(c: Seq<ExtractedFile>, entries: Seq<ManifestEntry>, i: int)
    requires
        0 <= i < entries.len(),
        !entry_verified(c, entries[i]),
    ensures
        failures_count(c, entries) > 0,
{
    lemma_verification_passes_iff_all_match(c, entries);
}

/// Backup and restore agree: take the entries recorded while writing an
/// archive (distinct names), the manifest written for them (the entries in
/// path order), and what reading that manifest back gives (entry for entry,
/// as `parse` returns it). A restore that extracts every file with the bytes
/// that were archived passes verification.
pub proof fn lemma_backup_restore_verifies(
    entries: Seq<ManifestEntry>,
    out: Seq<ManifestEntry>,
    parsed: Seq<ManifestEntry>,
)
    requires
        distinct_paths(entries),
        is_path_sorting(entries, out),
        parsed.len() == out.len(),
        forall|i: int| 0 <= i < out.len() ==> #[trigger] entry_model(parsed[i]) == entry_model(out[i]),
    ensures
        failures_count(records_of(entries), parsed) == 0,
{
    let c = records_of(entries);
    assert forall|j: int| 0 <= j < parsed.len() implies entry_verified(c, #[trigger] parsed[j]) by {
        assert(entry_model(parsed[j]) == entry_model(out[j]));
        crate::text::lemma_utf8_injective(parsed[j].blake3_hex@, out[j].blake3_hex@);
        crate::text::lemma_utf8_injective(parsed[j].path@, out[j].path@);
        lemma_sorting_member(entries, out, j);
        let k = choose|k: int| 0 <= k < entries.len() && entries[k] == out[j];
        lemma_last_record_of_entry(entries, k);
    }
    lemma_verification_passes_iff_all_match(c, parsed);
}

/// An archive name in the form backup writes it (a safe relative path with
/// no trailing slash and no backslash, other than the manifest's name) is
/// extracted as a file under that very name, which is also the name it is
/// checked against the manifest under.
pub proof fn lemma_archived_name_restored_in_place(n: Seq<char>, a: EntryAction)
    requires
        is_safe_relative(n),
        n.last() != '/',
        !n.contains('\\'),
        n != MANIFEST_NAME@,
    ensures
        entry_action_spec(n, false, a) <==> (a matches EntryAction::WriteFile(s) && s@ == n),
{
    assert(trim_end_char(n, '/') == n);
    assert forall|i: int| 0 <= i < n.len() implies n[i] != '\\' by {
        if n[i] == '\\' {
            assert(n.contains('\\'));
        }
    }
    assert(replace_char(n, '\\', '/') =~= n);
}

} // verus!
