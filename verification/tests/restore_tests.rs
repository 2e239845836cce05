use minbup::gitmeta::{
    git_head, gitmeta_entry_name, head_branch, packed_ref_commit, parse_remotes, project_path_for,
    GitConfig, GitHead, GitMeta, GitRemote, SCHEMA_VERSION,
};
use minbup::ledger::ArchiveLedger;
use minbup::manifest::ManifestEntry;
use minbup::project::{
    check_git_dir, gather_project, is_tracked, resolve_commit, tracked_paths, Project,
};
use minbup::rehydrate::{exclude_update, project_dir, rehydrate_plan, GitStep};
use minbup::restore::{
    classify_entry, count_verification_failures, finish_extract, restore_outcome, EntryAction,
    ExtractedFile, RestoreSummary,
};
use minbup::Error;

fn me(hex: &str, size: u64, path: &str) -> ManifestEntry {
    ManifestEntry { blake3_hex: hex.to_string(), size, path: path.to_string() }
}

fn xf(path: &str, hex: &str, size: u64) -> ExtractedFile {
    ExtractedFile { path: path.to_string(), blake3_hex: hex.to_string(), size }
}

#[test]
fn entries_are_classified() {
    assert!(matches!(classify_entry("MANIFEST.blake3", false), EntryAction::ReadManifest));
    assert!(matches!(classify_entry("MANIFEST.blake3/", true), EntryAction::ReadManifest));
    match classify_entry("dir/sub/", true) {
        EntryAction::MakeDir(p) => assert_eq!(p, "dir/sub"),
        _ => panic!("expected a directory"),
    }
    match classify_entry("a\\b.txt", false) {
        EntryAction::WriteFile(p) => assert_eq!(p, "a/b.txt"),
        _ => panic!("expected a file"),
    }
    match classify_entry("../../etc/passwd", false) {
        EntryAction::Reject(p) => assert_eq!(p, "../../etc/passwd"),
        _ => panic!("expected a rejection"),
    }
    assert!(matches!(classify_entry("/abs", false), EntryAction::Reject(_)));
    assert!(matches!(classify_entry("", false), EntryAction::Reject(_)));
}

#[test]
fn summary_counts() {
    let mut s = RestoreSummary::default();
    assert_eq!(s.files_extracted, 0);
    s.record_file(10);
    s.record_file(u64::MAX);
    assert_eq!(s.files_extracted, 2);
    assert_eq!(s.bytes_extracted, u64::MAX);
    s.record_rehydrate(true);
    s.record_rehydrate(false);
    s.record_rehydrate(false);
    assert_eq!(s.projects_rehydrated, 1);
    assert_eq!(s.projects_failed, 2);
    match restore_outcome(&s) {
        Err(Error::Restore(m)) => assert_eq!(m, "2 project(s) failed to rehydrate"),
        _ => panic!("expected a restore error"),
    }
    assert!(restore_outcome(&RestoreSummary::default()).is_ok());
}

#[test]
fn verification_counts_mismatches() {
    let computed = vec![xf("a", "11", 1), xf("b", "22", 2), xf("a", "33", 3)];
    let entries = vec![me("33", 3, "a"), me("22", 2, "b")];
    assert_eq!(count_verification_failures(&computed, &entries), 0);
    let stale = vec![me("11", 1, "a"), me("22", 9, "b"), me("44", 4, "missing")];
    assert_eq!(count_verification_failures(&computed, &stale), 3);
    assert_eq!(count_verification_failures(&Vec::new(), &Vec::new()), 0);
}

#[test]
fn finish_extract_fails_on_mismatch() {
    let computed = vec![xf("a", "11", 1)];
    let mut s = RestoreSummary::default();
    assert!(finish_extract(&mut s, &computed, Some(vec![me("11", 1, "a")]), false).is_ok());
    assert_eq!(s.verification_failures, 0);
    let mut t = RestoreSummary::default();
    match finish_extract(&mut t, &computed, Some(vec![me("12", 1, "a"), me("1", 1, "b")]), false) {
        Err(Error::Manifest(m)) => assert_eq!(m, "2 verification failure(s)"),
        _ => panic!("expected a verification failure"),
    }
    assert_eq!(t.verification_failures, 2);
    let mut u = RestoreSummary::default();
    assert!(finish_extract(&mut u, &computed, Some(vec![me("12", 1, "a")]), true).is_ok());
    assert_eq!(u.verification_failures, 0);
    assert!(finish_extract(&mut u, &computed, None, false).is_ok());
}

fn meta(branch: Option<&str>, commit: &str, remotes: Vec<GitRemote>) -> GitMeta {
    GitMeta {
        schema_version: SCHEMA_VERSION,
        captured_at: "2026-04-27T18:08:49Z".to_string(),
        project_path: "proj-a".to_string(),
        head: GitHead { branch: branch.map(|b| b.to_string()), detached: branch.is_none(), commit: commit.to_string() },
        remotes,
        config: GitConfig { raw: String::new() },
    }
}

fn args(s: &GitStep) -> Vec<&str> {
    s.args.iter().map(|a| a.as_str()).collect()
}

#[test]
fn plan_for_branch_with_remotes() {
    let remotes = vec![
        GitRemote { name: "origin".into(), fetch: "git@h:r.git".into(), push: "git@h:r.git".into() },
        GitRemote { name: "up".into(), fetch: "https://u/r".into(), push: "ssh://u/r".into() },
    ];
    let m = meta(Some("main"), "abc", remotes);
    let plan = rehydrate_plan(&m, "/d/proj-a", true, false, false).unwrap();
    let got: Vec<(Vec<&str>, bool)> = plan.iter().map(|s| (args(s), s.may_fail)).collect();
    let want: Vec<(Vec<&str>, bool)> = vec![
        (vec!["init", "-q", "-b", "main"], false),
        (vec!["remote", "remove", "origin"], true),
        (vec!["remote", "add", "origin", "git@h:r.git"], false),
        (vec!["remote", "remove", "up"], true),
        (vec!["remote", "add", "up", "https://u/r"], false),
        (vec!["remote", "set-url", "--push", "up", "ssh://u/r"], false),
        (vec!["fetch", "--depth=1", "origin", "main"], false),
        (vec!["update-ref", "refs/heads/main", "FETCH_HEAD"], false),
        (vec!["symbolic-ref", "HEAD", "refs/heads/main"], false),
        (vec!["reset", "--quiet"], false),
    ];
    assert_eq!(got, want);
}

#[test]
fn plan_for_detached_head_and_existing_repo() {
    let m = meta(None, "deadbeef", Vec::new());
    let plan = rehydrate_plan(&m, "/d/p", true, true, true).unwrap();
    let got: Vec<Vec<&str>> = plan.iter().map(args).collect();
    assert_eq!(
        got,
        vec![
            vec!["fetch", "origin", "deadbeef"],
            vec!["update-ref", "HEAD", "FETCH_HEAD"],
            vec!["reset", "--quiet"],
        ]
    );
    let empty = meta(None, "", Vec::new());
    let plan = rehydrate_plan(&empty, "/d/p", true, false, true).unwrap();
    let got: Vec<Vec<&str>> = plan.iter().map(args).collect();
    assert_eq!(got, vec![vec!["init", "-q"]]);
    let full = meta(Some("dev"), "", Vec::new());
    let plan = rehydrate_plan(&full, "/d/p", true, true, true).unwrap();
    assert_eq!(args(&plan[0]), vec!["fetch", "origin", "dev"]);
}

#[test]
fn plan_needs_the_project_dir() {
    let m = meta(Some("main"), "abc", Vec::new());
    match rehydrate_plan(&m, "/d/proj-a", false, false, false) {
        Err(Error::Restore(msg)) => assert_eq!(msg, "project dir missing: /d/proj-a"),
        _ => panic!("expected a restore error"),
    }
}

#[test]
fn project_dirs() {
    assert_eq!(project_dir("/d", "."), "/d");
    assert_eq!(project_dir("/d", ""), "/d");
    assert_eq!(project_dir("/d", "a/b"), "/d/a/b");
}

#[test]
fn exclude_file_updates() {
    assert_eq!(exclude_update("", ".gitmeta"), Some(".gitmeta\n".to_string()));
    assert_eq!(exclude_update("*.o", ".gitmeta"), Some("*.o\n.gitmeta\n".to_string()));
    assert_eq!(exclude_update("*.o\n", ".gitmeta"), Some("*.o\n.gitmeta\n".to_string()));
    assert_eq!(exclude_update("# x\n  .gitmeta  \r\n", ".gitmeta"), None);
    let once = exclude_update("a\nb", ".gitmeta").unwrap();
    assert_eq!(exclude_update(&once, ".gitmeta"), None);
}

#[test]
fn heads_are_read() {
    assert_eq!(head_branch("ref: refs/heads/main\n"), Some("main".to_string()));
    assert_eq!(head_branch("ref: refs/heads/feature/x"), Some("feature/x".to_string()));
    assert_eq!(head_branch("0123abcd\n"), None);
    let h = git_head("ref: refs/heads/main\n", Some("c0ffee".to_string()));
    assert_eq!(h.branch, Some("main".to_string()));
    assert!(!h.detached);
    assert_eq!(h.commit, "c0ffee");
    let u = git_head("ref: refs/heads/main\n", None);
    assert_eq!(u.commit, "");
    let d = git_head("  0123abcd \n", None);
    assert_eq!(d.branch, None);
    assert!(d.detached);
    assert_eq!(d.commit, "0123abcd");
}

#[test]
fn packed_refs_lookup() {
    let body = "# pack-refs with: peeled\n1111 refs/heads/dev\n^2222\n3333 refs/heads/main\n";
    assert_eq!(packed_ref_commit(body, "main"), Some("3333".to_string()));
    assert_eq!(packed_ref_commit(body, "dev"), Some("1111".to_string()));
    assert_eq!(packed_ref_commit(body, "nope"), None);
    assert_eq!(resolve_commit(Some(" aaaa\n".to_string()), Some(body.to_string()), "main"), Some("aaaa".to_string()));
    assert_eq!(resolve_commit(None, Some(body.to_string()), "main"), Some("3333".to_string()));
    assert_eq!(resolve_commit(None, None, "main"), None);
}

#[test]
fn remotes_are_parsed() {
    let text = "upstream\thttps://u/r (fetch)\nupstream\tssh://u/r (push)\norigin\tgit@h:r.git (fetch)\norigin\tgit@h:r.git (push)\nlonely\tfile:///x\n\n";
    let r = parse_remotes(text);
    assert_eq!(r.len(), 3);
    assert_eq!(r[0].name, "lonely");
    assert_eq!(r[0].fetch, "file:///x");
    assert_eq!(r[0].push, "file:///x");
    assert_eq!(r[1].name, "origin");
    assert_eq!(r[1].push, "git@h:r.git");
    assert_eq!(r[2].name, "upstream");
    assert_eq!(r[2].fetch, "https://u/r");
    assert_eq!(r[2].push, "ssh://u/r");
    let only_push = parse_remotes("x\turl (push)\n");
    assert_eq!(only_push[0].fetch, "");
    assert_eq!(only_push[0].push, "url");
    assert!(parse_remotes("").is_empty());
}

#[test]
fn sidecar_names() {
    assert_eq!(project_path_for(""), ".");
    assert_eq!(project_path_for("a/b"), "a/b");
    assert_eq!(gitmeta_entry_name(""), ".gitmeta");
    assert_eq!(gitmeta_entry_name("proj"), "proj/.gitmeta");
}

#[test]
fn tracked_listing() {
    let out = b"a.txt\0dir/b\0\0a.txt\0bad\xff\0last";
    let t = tracked_paths(out);
    assert_eq!(t, vec!["a.txt", "dir/b", "last"]);
    assert!(tracked_paths(b"").is_empty());
}

#[test]
fn tracked_lookup() {
    let m = meta(Some("main"), "c", Vec::new());
    let p = gather_project(
        "/t/proj",
        "/t",
        m.head.clone(),
        Vec::new(),
        "[core]".to_string(),
        vec!["src/a.rs".to_string(), "big.bin".to_string()],
        "now".to_string(),
    );
    assert_eq!(p.root_rel, "proj");
    assert_eq!(p.gitmeta.project_path, "proj");
    assert_eq!(p.gitmeta.schema_version, 1);
    assert_eq!(p.gitmeta.config.raw, "[core]");
    let projects: Vec<Project> = vec![p];
    assert!(is_tracked(&projects, "/t/proj/big.bin"));
    assert!(is_tracked(&projects, "/t/proj/src//a.rs"));
    assert!(!is_tracked(&projects, "/t/proj/other"));
    assert!(!is_tracked(&projects, "/t/elsewhere/big.bin"));
    let root = gather_project("/t", "/t", m.head, Vec::new(), String::new(), Vec::new(), String::new());
    assert_eq!(root.gitmeta.project_path, ".");
}

#[test]
fn git_dir_check() {
    assert!(check_git_dir("/t/p", true).is_ok());
    match check_git_dir("/t/p", false) {
        Err(Error::GitMeta { path, message }) => {
            assert_eq!(path, "/t/p/.git");
            assert_eq!(message, "not a directory");
        }
        _ => panic!("expected a git metadata error"),
    }
}

#[test]
fn backup_then_restore_verifies() {
    let mut l = ArchiveLedger::new();
    l.record_file(b"b/two", 2, &[2u8; 32]).unwrap();
    l.record_file(b"a/one", 1, &[1u8; 32]).unwrap();
    l.record_blob(b".gitmeta", b"schema_version = 1\n").unwrap();
    let (bytes, stats) = l.finish().unwrap();
    assert_eq!(stats.manifest_entries, stats.files);
    let parsed = minbup::manifest::parse(&bytes).unwrap();
    let mut computed: Vec<ExtractedFile> = parsed
        .iter()
        .rev()
        .map(|e| xf(&e.path, &e.blake3_hex, e.size))
        .collect();
    assert_eq!(count_verification_failures(&computed, &parsed), 0);
    computed.push(xf("a/one", &"00".repeat(32), 1));
    assert_eq!(count_verification_failures(&computed, &parsed), 1);
}
