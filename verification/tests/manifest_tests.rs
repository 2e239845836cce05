use minbup::ledger::{hex_string, path_to_archive_str, ArchiveLedger};
use minbup::manifest::{parse, ManifestBuilder, ManifestEntry, MANIFEST_HEADER};
use minbup::Error;

fn entry(hex: &str, size: u64, path: &str) -> ManifestEntry {
    ManifestEntry { blake3_hex: hex.to_string(), size, path: path.to_string() }
}

fn manifest_message(r: Result<Vec<ManifestEntry>, Error>) -> String {
    match r {
        Err(Error::Manifest(m)) => m,
        other => panic!("expected a manifest error, got {:?}", other.map(|v| v.len())),
    }
}

#[test]
fn builder_sorts_by_path_and_writes_header() {
    let mut b = ManifestBuilder::new();
    b.push(entry("bb", 2, "z/file"));
    b.push(entry("aa", 10, "a.txt"));
    b.push(entry("cc", 0, "m/n"));
    assert_eq!(b.len(), 3);
    let bytes = b.into_bytes().unwrap();
    let text = String::from_utf8(bytes).unwrap();
    let expected = format!("{}aa\t10\ta.txt\ncc\t0\tm/n\nbb\t2\tz/file\n", MANIFEST_HEADER);
    assert_eq!(text, expected);
}

#[test]
fn empty_builder_writes_only_header() {
    let b = ManifestBuilder::new();
    assert_eq!(b.len(), 0);
    let bytes = b.into_bytes().unwrap();
    assert_eq!(bytes, MANIFEST_HEADER.as_bytes().to_vec());
}

#[test]
fn builder_rejects_tab_or_newline_in_path() {
    let mut b = ManifestBuilder::new();
    b.push(entry("aa", 1, "ok"));
    b.push(entry("bb", 1, "bad\tname"));
    match b.into_bytes() {
        Err(Error::Manifest(m)) => assert_eq!(m, "path contains tab or newline: bad\tname"),
        _ => panic!("expected a manifest error"),
    }
    let mut c = ManifestBuilder::new();
    c.push(entry("aa", 1, "z\nnewline"));
    c.push(entry("bb", 1, "b\tfirst"));
    match c.into_bytes() {
        Err(Error::Manifest(m)) => assert_eq!(m, "path contains tab or newline: b\tfirst"),
        _ => panic!("expected a manifest error"),
    }
}

#[test]
fn manifest_round_trip() {
    let mut b = ManifestBuilder::new();
    b.push(entry("ff00", 123, "src/main.rs"));
    b.push(entry("0a0b", 0, ".gitmeta"));
    b.push(entry("beef", 18446744073709551615, "dir with space/x\ty"));
    let bytes = b.into_bytes();
    assert!(bytes.is_err());

    let mut b = ManifestBuilder::new();
    b.push(entry("ff00", 123, "src/main.rs"));
    b.push(entry("0a0b", 0, ".gitmeta"));
    b.push(entry("beef", 18446744073709551615, "dir with space/x"));
    let bytes = b.into_bytes().unwrap();
    let back = parse(&bytes).unwrap();
    assert_eq!(back.len(), 3);
    assert_eq!(back[0].path, ".gitmeta");
    assert_eq!(back[0].blake3_hex, "0a0b");
    assert_eq!(back[0].size, 0);
    assert_eq!(back[1].path, "dir with space/x");
    assert_eq!(back[1].size, 18446744073709551615);
    assert_eq!(back[2].path, "src/main.rs");
    assert_eq!(back[2].blake3_hex, "ff00");
    assert_eq!(back[2].size, 123);
}

#[test]
fn parse_skips_comments_and_blank_lines() {
    let text = "# comment\n\nabc\t5\tpath/one\r\n#x\tno\ndef\t+7\tpath\twith\ttabs";
    let v = parse(text.as_bytes()).unwrap();
    assert_eq!(v.len(), 2);
    assert_eq!(v[0].blake3_hex, "abc");
    assert_eq!(v[0].size, 5);
    assert_eq!(v[0].path, "path/one");
    assert_eq!(v[1].size, 7);
    assert_eq!(v[1].path, "path\twith\ttabs");
}

#[test]
fn parse_reports_missing_fields() {
    assert_eq!(manifest_message(parse(b"# h\nabc\n")), "line 2: missing size");
    assert_eq!(manifest_message(parse(b"abc\t12\n")), "line 1: missing path");
}

#[test]
fn parse_reports_bad_sizes() {
    assert_eq!(
        manifest_message(parse(b"abc\t\tp\n")),
        "line 1: bad size: cannot parse integer from empty string"
    );
    assert_eq!(
        manifest_message(parse(b"\n\nabc\t1x\tp\n")),
        "line 3: bad size: invalid digit found in string"
    );
    assert_eq!(
        manifest_message(parse(b"abc\t-1\tp\n")),
        "line 1: bad size: invalid digit found in string"
    );
    assert_eq!(
        manifest_message(parse(b"abc\t18446744073709551616\tp\n")),
        "line 1: bad size: number too large to fit in target type"
    );
}

#[test]
fn parse_rejects_non_utf8() {
    let m = manifest_message(parse(&[0x61, 0xff, 0x0a]));
    assert!(m.starts_with("non-utf8 manifest: "));
}

#[test]
fn parse_empty_text_gives_no_entries() {
    assert_eq!(parse(b"").unwrap().len(), 0);
}

#[test]
fn hex_is_lowercase_two_digits_per_byte() {
    assert_eq!(hex_string(&[0x00, 0x0f, 0xa0, 0xff]), "000fa0ff");
    assert_eq!(hex_string(&[]), "");
}

#[test]
fn path_to_archive_str_needs_utf8() {
    assert_eq!(path_to_archive_str(b"a/b.txt").unwrap(), "a/b.txt");
    match path_to_archive_str(&[0x66, 0xfe]) {
        Err(Error::Archive(m)) => assert_eq!(m, "non-utf8 archive entry name"),
        _ => panic!("expected an archive error"),
    }
}

#[test]
fn ledger_records_blob_digest_and_counts() {
    let mut l = ArchiveLedger::new();
    l.record_blob(b"proj/.gitmeta", b"").unwrap();
    l.record_file(b"proj/a.txt", 5, &[0xab; 32]).unwrap();
    let st = l.current_stats();
    assert_eq!(st.files, 2);
    assert_eq!(st.uncompressed_bytes, 5);
    assert!(l.record_file(&[0xff], 1, &[0u8; 32]).is_err());
    assert_eq!(l.current_stats().files, 2);
    let (bytes, stats) = l.finish().unwrap();
    assert_eq!(stats.manifest_entries, 2);
    assert_eq!(stats.files, 2);
    let back = parse(&bytes).unwrap();
    assert_eq!(back.len(), 2);
    assert_eq!(back[0].path, "proj/.gitmeta");
    assert_eq!(
        back[0].blake3_hex,
        "af1349b9f5f9a1a6a0404dea36dcc9499bcb25c9adc112b7cc9a93cae41f3262"
    );
    assert_eq!(back[0].size, 0);
    assert_eq!(back[1].blake3_hex, "ab".repeat(32));
    assert_eq!(back[1].size, 5);
}

#[test]
fn ledger_counts_saturate_bytes() {
    let mut l = ArchiveLedger::new();
    l.record_file(b"a", u64::MAX, &[1]).unwrap();
    l.record_file(b"b", 10, &[2]).unwrap();
    assert_eq!(l.current_stats().uncompressed_bytes, u64::MAX);
    assert_eq!(l.current_stats().files, 2);
}
