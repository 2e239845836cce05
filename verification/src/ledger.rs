//! The bookkeeping of an archive being written: the manifest entries, the
//! counters, and the BLAKE3 digests of in-memory blobs.
use vstd::prelude::*;
use crate::error::Error;
use crate::manifest::{bad_path, is_path_sorting, render_manifest, ManifestBuilder, ManifestEntry};
use crate::text::{push_char, utf8};
use std::time::{Duration, SystemTime, SystemTimeError, UNIX_EPOCH};

verus! {

broadcast use vstd::seq::group_seq_axioms;

/// The BLAKE3 digest (32 bytes) of some bytes.
pub uninterp spec fn blake3_digest(data: Seq<u8>) -> Seq<u8>;

/// `blake3::hash`: the digest of `data`, as its 32 bytes.
#[verifier::external_body]
fn blake3_hash(data: &[u8]) -> (r: Vec<u8>)
    ensures
        r@ == blake3_digest(data@),
        r@.len() == 32,
{
    blake3::hash(data).as_bytes().to_vec()
}

/// The lowercase hex digit of a number below 16.
pub open spec fn hex_digit(d: u8) -> char {
    if d < 10 {
        ((48 + d) as u8) as char
    } else {
        ((87 + d) as u8) as char
    }
}

/// Bytes in lowercase hex, two digits a byte, high half first.
pub open spec fn hex_lower(b: Seq<u8>) -> Seq<char>
    decreases b.len(),
{
    if b.len() == 0 {
        Seq::empty()
    } else {
        hex_lower(b.drop_last()) + seq![hex_digit(b.last() / 16), hex_digit(b.last() % 16)]
    }
}

/// Bytes in lowercase hex (what `blake3::Hash::to_hex` writes for a digest).
pub fn hex_string(b: &[u8]) -> (r: String)
    ensures
        r@ == hex_lower(b@),
{
    let mut out = String::new();
    let mut i: usize = 0;
    while i < b.len()
        invariant
            i <= b@.len(),
            out@ == hex_lower(b@.take(i as int)),
        decreases b.len() - i,
    {
        let x = b[i];
        let hi = x / 16;
        let lo = x % 16;
        let ch = if hi < 10 { (48 + hi) as char } else { (87 + hi) as char };
        let cl = if lo < 10 { (48 + lo) as char } else { (87 + lo) as char };
        push_char(&mut out, ch);
        push_char(&mut out, cl);
        assert(b@.take(i + 1).drop_last() =~= b@.take(i as int));
        assert(out@ =~= hex_lower(b@.take(i + 1)));
        i = i + 1;
    }
    assert(b@.take(i as int) =~= b@);
    out
}

/// The archive name of an entry, given as the bytes of its path: the text,
/// when the bytes are UTF-8, with the platform separator written as `/`
/// (on Unix the separator is already `/`).
pub fn path_to_archive_str(p: &[u8]) -> (r: Result<String, Error>)
    ensures
        r is Ok <==> vstd::utf8::valid_utf8(p@),
        r matches Ok(s) ==> utf8(s@) == p@,
        r matches Err(e) ==> e matches Error::Archive(m) && m@ == "non-utf8 archive entry name"@,
{
    match crate::manifest::utf8_str(p) {
        Ok(s) => Ok(s.to_owned()),
        Err(_) => Err(Error::Archive(String::from_str("non-utf8 archive entry name"))),
    }
}

#[verifier::external_type_specification]
#[verifier::external_body]
pub struct ExSystemTime(SystemTime);

#[verifier::external_type_specification]
#[verifier::external_body]
pub struct ExSystemTimeError(SystemTimeError);

/// The current time of the system clock (`SystemTime::now`).
#[verifier::external_body]
fn system_now() -> SystemTime {
    SystemTime::now()
}

/// The time elapsed from the Unix epoch to `t`, or an error when `t` is
/// earlier (`SystemTime::duration_since`).
#[verifier::external_body]
fn since_epoch(t: &SystemTime) -> Result<Duration, SystemTimeError> {
    t.duration_since(UNIX_EPOCH)
}

/// The modification time written into headers of generated entries: whole
/// seconds since the Unix epoch, or 0 when the clock reads earlier. The
/// reading is the clock's, so no value is claimed.
pub fn now_secs() -> u64 {
    match since_epoch(&system_now()) {
        Ok(d) => crate::timefmt::whole_secs(&d),
        Err(_) => 0,
    }
}

/// Counters of an archive run.
#[derive(Debug, Clone, Copy)]
pub struct ArchiveStats {
    pub files: u64,
    pub uncompressed_bytes: u64,
    pub manifest_entries: u64,
}

impl Default for ArchiveStats {
    fn default() -> (r: Self)
        ensures
            r.files == 0 && r.uncompressed_bytes == 0 && r.manifest_entries == 0,
    {
        ArchiveStats { files: 0, uncompressed_bytes: 0, manifest_entries: 0 }
    }
}

pub open spec fn sat_add(a: u64, b: u64) -> u64 {
    if a + b > u64::MAX {
        u64::MAX
    } else {
        (a + b) as u64
    }
}

/// What an archive being written has recorded: one manifest entry per
/// archived file, and the counters.
pub struct ArchiveLedger {
    manifest: ManifestBuilder,
    stats: ArchiveStats,
}

/// The entry recorded for a file: digest in hex, size, archive name.
pub open spec fn entry_for(name: Seq<char>, size: u64, digest: Seq<u8>, e: ManifestEntry) -> bool {
    e.blake3_hex@ == hex_lower(digest) && e.size == size && e.path@ == name
}

impl ArchiveLedger {
    pub closed spec fn entries(&self) -> Seq<ManifestEntry> {
        self.manifest@
    }

    pub closed spec fn stats(&self) -> ArchiveStats {
        self.stats
    }

    /// Every archived file has its manifest entry: the file counter is the
    /// number of entries.
    pub closed spec fn wf(&self) -> bool {
        self.stats.files == self.manifest@.len()
    }

    pub fn new() -> (r: Self)
        ensures
            r.entries() == Seq::<ManifestEntry>::empty(),
            r.stats().files == 0 && r.stats().uncompressed_bytes == 0 && r.stats().manifest_entries == 0,
            r.wf(),
    {
        ArchiveLedger { manifest: ManifestBuilder::new(), stats: ArchiveStats::default() }
    }

    /// The counters so far.
    pub fn current_stats(&self) -> (r: ArchiveStats)
        ensures
            r == self.stats(),
    {
        self.stats
    }

    /// Records a file appended under the name with bytes `name`, of `size`
    /// bytes and with the given digest. Fails, recording nothing, when the
    /// name is not UTF-8.
    pub fn record_file(&mut self, name: &[u8], size: u64, digest: &[u8]) -> (r: Result<(), Error>)
        requires
            old(self).stats().files < u64::MAX,
        ensures
            r is Ok <==> vstd::utf8::valid_utf8(name@),
            r matches Err(e) ==> e matches Error::Archive(m) && m@ == "non-utf8 archive entry name"@,
            r is Err ==> final(self).entries() == old(self).entries() && final(self).stats() == old(self).stats(),
            old(self).wf() ==> final(self).wf(),
            r is Ok ==> {
                &&& final(self).entries().len() == old(self).entries().len() + 1
                &&& final(self).entries().drop_last() == old(self).entries()
                &&& utf8(final(self).entries().last().path@) == name@
                &&& entry_for(final(self).entries().last().path@, size, digest@, final(self).entries().last())
                &&& final(self).stats().files == old(self).stats().files + 1
                &&& final(self).stats().uncompressed_bytes == sat_add(old(self).stats().uncompressed_bytes, size)
                &&& final(self).stats().manifest_entries == old(self).stats().manifest_entries
            },
    {
        let path = match path_to_archive_str(name) {
            Ok(p) => p,
            Err(e) => {
                return Err(e);
            },
        };
        let hex = hex_string(digest);
        self.manifest.push(ManifestEntry { blake3_hex: hex, size, path });
        self.stats.files = self.stats.files + 1;
        self.stats.uncompressed_bytes = self.stats.uncompressed_bytes.saturating_add(size);
        proof {
            assert(self.manifest@.drop_last() =~= old(self).manifest@);
        }
        Ok(())
    }

    /// Records an in-memory blob appended under the name with bytes `name`:
    /// its BLAKE3 digest is computed here.
    pub fn record_blob(&mut self, name: &[u8], data: &[u8]) -> (r: Result<(), Error>)
        requires
            old(self).stats().files < u64::MAX,
        ensures
            r is Ok <==> vstd::utf8::valid_utf8(name@),
            r matches Err(e) ==> e matches Error::Archive(m) && m@ == "non-utf8 archive entry name"@,
            r is Err ==> final(self).entries() == old(self).entries() && final(self).stats() == old(self).stats(),
            old(self).wf() ==> final(self).wf(),
            r is Ok ==> {
                &&& final(self).entries().len() == old(self).entries().len() + 1
                &&& final(self).entries().drop_last() == old(self).entries()
                &&& utf8(final(self).entries().last().path@) == name@
                &&& entry_for(final(self).entries().last().path@, data@.len() as u64, blake3_digest(data@), final(self).entries().last())
                &&& final(self).stats().files == old(self).stats().files + 1
                &&& final(self).stats().uncompressed_bytes == sat_add(old(self).stats().uncompressed_bytes, data@.len() as u64)
                &&& final(self).stats().manifest_entries == old(self).stats().manifest_entries
            },
    {
        let digest = blake3_hash(data);
        let size = data.len() as u64;
        self.record_file(name, size, digest.as_slice())
    }

    /// The manifest bytes to append as the last entry, and the final
    /// counters, with the number of manifest entries filled in.
    pub fn finish(self) -> (r: Result<(Vec<u8>, ArchiveStats), Error>)
        ensures
            r is Ok <==> (forall|i: int| 0 <= i < self.entries().len() ==> !bad_path(#[trigger] self.entries()[i])),
            exists|out: Seq<ManifestEntry>|
                #![trigger is_path_sorting(self.entries(), out)]
                is_path_sorting(self.entries(), out) && match r {
                    Ok((b, st)) => b@ == render_manifest(out) && st.files == self.stats().files
                        && (self.wf() ==> st.manifest_entries == st.files)
                        && st.uncompressed_bytes == self.stats().uncompressed_bytes
                        && st.manifest_entries == self.entries().len(),
                    Err(e) => exists|i: int|
                        #![trigger out[i]]
                        0 <= i < out.len() && bad_path(out[i]) && (forall|j: int|
                            0 <= j < i ==> !bad_path(#[trigger] out[j])) && (e matches Error::Manifest(m)
                            && m@ == "path contains tab or newline: "@ + out[i].path@),
                },
    {
        let entries = self.manifest.len() as u64;
        let mut stats = self.stats;
        let ghost es = self.manifest@;
        let bytes = self.manifest.into_bytes();
        let ghost out = choose|out: Seq<ManifestEntry>|
            #![trigger is_path_sorting(es, out)]
            is_path_sorting(es, out) && match bytes {
                Ok(b) => b@ == render_manifest(out),
                Err(e) => exists|i: int|
                    #![trigger out[i]]
                    0 <= i < out.len() && bad_path(out[i]) && (forall|j: int|
                        0 <= j < i ==> !bad_path(#[trigger] out[j])) && (e matches Error::Manifest(m)
                        && m@ == "path contains tab or newline: "@ + out[i].path@),
            };
        match bytes {
            Ok(b) => {
                stats.manifest_entries = entries;
                let r = Ok((b, stats));
                assert(is_path_sorting(self.entries(), out));
                r
            },
            Err(e) => {
                assert(is_path_sorting(self.entries(), out));
                Err(e)
            },
        }
    }
}

} // verus!
