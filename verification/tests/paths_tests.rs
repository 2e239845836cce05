use minbup::config::{
    build_backup_settings, is_large, is_rust_target, kept_indices, log_level, zstd_workers_for,
    LargeFilePolicy, LargeFilePolicyArg, LARGE_FILE_THRESHOLD_DEFAULT, MANIFEST_NAME,
};
use minbup::excludes::{
    exclude_body, is_pathlike, normalize_exclude, override_patterns, ExcludeResolution,
    NormalizedExclude, DEFAULT_EXCLUDES,
};
use minbup::paths::{
    append_partial_suffix, check_output_location, default_output_name, file_name, is_age,
    lookup_dir, normalize_archive_path, output_name_with_stamp, parent, path_components, path_join,
    relativize, safe_relative, starts_with, strip_prefix_exec,
};
use minbup::review::ReviewOutcome;
use minbup::stamp::stamp_text;
use minbup::Error;

#[test]
fn components_follow_std_path() {
    assert_eq!(path_components("/a//b/./c/"), vec!["/", "a", "b", "c"]);
    assert_eq!(path_components("./x/../y"), vec![".", "x", "..", "y"]);
    assert_eq!(path_components(""), Vec::<String>::new());
}

#[test]
fn starts_with_compares_components() {
    assert!(starts_with("/home/u/proj/file", "/home/u/proj"));
    assert!(starts_with("/home/u/proj", "/home/u/proj/"));
    assert!(!starts_with("/home/u/project", "/home/u/proj"));
    assert!(starts_with("/a/b", "/"));
}

#[test]
fn strip_and_relativize() {
    assert_eq!(strip_prefix_exec("/t/a/b.txt", "/t"), Some("a/b.txt".to_string()));
    assert_eq!(strip_prefix_exec("/t", "/t"), Some(String::new()));
    assert_eq!(strip_prefix_exec("/u/a", "/t"), None);
    assert_eq!(relativize("/t/p", "/t"), "p");
    assert_eq!(relativize("/other/p", "/t"), "/other/p");
    assert_eq!(relativize("/t", "/t"), "");
}

#[test]
fn safe_relative_rejects_escapes() {
    assert_eq!(safe_relative("a/b"), Some("a/b".to_string()));
    assert_eq!(safe_relative(""), None);
    assert_eq!(safe_relative("/etc/passwd"), None);
    assert_eq!(safe_relative("a/../../x"), None);
    assert_eq!(safe_relative(".."), None);
    assert_eq!(safe_relative("./a"), Some("./a".to_string()));
}

#[test]
fn normalize_archive_names() {
    assert_eq!(normalize_archive_path("dir/sub///"), "dir/sub");
    assert_eq!(normalize_archive_path("a\\b\\c"), "a/b/c");
    assert_eq!(normalize_archive_path("plain"), "plain");
    assert_eq!(normalize_archive_path("/"), "");
}

#[test]
fn file_name_and_parent() {
    assert_eq!(file_name("/a/b/c.txt"), Some("c.txt".to_string()));
    assert_eq!(file_name("/a/b/"), Some("b".to_string()));
    assert_eq!(file_name("/"), None);
    assert_eq!(file_name("a/.."), None);
    assert_eq!(parent("/a/b"), Some("/a".to_string()));
    assert_eq!(parent("b"), Some(String::new()));
    assert_eq!(parent("/"), None);
    assert_eq!(lookup_dir("out.tar.zst"), ".");
    assert_eq!(lookup_dir("/x/out.tar.zst"), "/x");
}

#[test]
fn joining_paths() {
    assert_eq!(path_join("/dest", "proj"), "/dest/proj");
    assert_eq!(path_join("/dest/", "proj"), "/dest/proj");
    assert_eq!(path_join("/dest", "/abs"), "/abs");
    assert_eq!(path_join("", "rel"), "rel");
}

#[test]
fn output_location_check() {
    let none: Vec<String> = Vec::new();
    assert!(check_output_location("/backup/out.tar.zst", "/home/u", &none).is_ok());
    match check_output_location("/home/u/out.tar.zst", "/home/u", &none) {
        Err(Error::OutputInsideTarget { output, target }) => {
            assert_eq!(output, "/home/u/out.tar.zst");
            assert_eq!(target, "/home/u");
        }
        _ => panic!("expected output-inside-target"),
    }
    let ex = vec!["/home/u/tmp".to_string()];
    assert!(check_output_location("/home/u/tmp/out.tar.zst", "/home/u", &ex).is_ok());
}

#[test]
fn archive_names() {
    assert!(is_age("x.tar.zst.age"));
    assert!(!is_age("x.tar.zst"));
    assert_eq!(append_partial_suffix("out.tar.zst"), "out.tar.zst.partial");
    assert_eq!(output_name_with_stamp("/home/u/proj", "20260427-180849", false), "proj-20260427-180849.tar.zst");
    assert_eq!(output_name_with_stamp("/", "S", true), "backup-S.tar.zst.age");
    let n = default_output_name("/home/u/proj", true);
    assert!(n.starts_with("proj-"));
    assert!(n.ends_with(".tar.zst.age"));
    assert_eq!(n.len(), "proj-".len() + 15 + ".tar.zst.age".len());
}

#[test]
fn stamps_are_zero_padded() {
    assert_eq!(stamp_text(2026, 4, 7, 8, 5, 9), "20260407-080509");
    assert_eq!(stamp_text(987, 12, 31, 23, 59, 59), "09871231-235959");
    assert_eq!(stamp_text(-44, 3, 15, 0, 0, 0), "-00440315-000000");
}

#[test]
fn exclude_values() {
    assert_eq!(exclude_body("!*.bak"), "*.bak");
    assert_eq!(exclude_body("*.bak"), "*.bak");
    assert!(is_pathlike("./vendor", false));
    assert!(is_pathlike("../x", false));
    assert!(is_pathlike("/abs", false));
    assert!(is_pathlike("a/b", true));
    assert!(!is_pathlike("a/b", false));
    assert!(!is_pathlike("*.bak", true));
}

#[test]
fn normalize_exclude_cases() {
    match normalize_exclude("/t", "*.bak", false, None, false) {
        ExcludeResolution::Glob(n) => {
            assert_eq!(n.pattern, "*.bak");
            assert!(n.canonical_path.is_none());
        }
        _ => panic!("expected a glob"),
    }
    match normalize_exclude("/t", "./gone", false, None, false) {
        ExcludeResolution::Unresolved(n) => assert_eq!(n.pattern, "./gone"),
        _ => panic!("expected unresolved"),
    }
    assert!(matches!(
        normalize_exclude("/t", "../x", true, Some("/x".to_string()), true),
        ExcludeResolution::Outside
    ));
    assert!(matches!(
        normalize_exclude("/t", "./", true, Some("/t".to_string()), true),
        ExcludeResolution::TargetRoot
    ));
    match normalize_exclude("/t", "!./vendor", true, Some("/t/vendor".to_string()), true) {
        ExcludeResolution::Subtree(n) => {
            assert_eq!(n.pattern, "/vendor/");
            assert_eq!(n.canonical_path, Some("/t/vendor".to_string()));
        }
        _ => panic!("expected a subtree"),
    }
    match normalize_exclude("/t", "a/f.txt", true, Some("/t/a/f.txt".to_string()), false) {
        ExcludeResolution::Subtree(n) => assert_eq!(n.pattern, "/a/f.txt"),
        _ => panic!("expected a subtree"),
    }
}

#[test]
fn override_list_order() {
    let extra = vec!["*.bak".to_string(), "!keep".to_string()];
    let v = override_patterns(false, &extra);
    assert_eq!(v.len(), 2 + DEFAULT_EXCLUDES.len() + 2);
    assert_eq!(v[0], "!.git/");
    assert_eq!(v[1], "!**/.git/");
    assert_eq!(v[2], "!**/__pycache__/");
    assert_eq!(v[13], "!**/Thumbs.db");
    assert_eq!(v[14], "!*.bak");
    assert_eq!(v[15], "!keep");
    let w = override_patterns(true, &Vec::new());
    assert_eq!(w, vec!["!.git/", "!**/.git/"]);
}

#[test]
fn large_file_decisions() {
    assert!(!is_large(LARGE_FILE_THRESHOLD_DEFAULT, LARGE_FILE_THRESHOLD_DEFAULT));
    assert!(is_large(LARGE_FILE_THRESHOLD_DEFAULT + 1, LARGE_FILE_THRESHOLD_DEFAULT));
    assert!(!is_large(LARGE_FILE_THRESHOLD_DEFAULT - 1, LARGE_FILE_THRESHOLD_DEFAULT));
    assert_eq!(LARGE_FILE_THRESHOLD_DEFAULT, 100 * 1024 * 1024);
    assert_eq!(kept_indices(LargeFilePolicy::KeepAll, None, 0), Vec::<usize>::new());
    assert_eq!(kept_indices(LargeFilePolicy::SkipAll, None, 3), Vec::<usize>::new());
    assert_eq!(kept_indices(LargeFilePolicy::KeepAll, None, 3), vec![0, 1, 2]);
    assert_eq!(kept_indices(LargeFilePolicy::Prompt, None, 2), vec![0, 1]);
    assert_eq!(
        kept_indices(LargeFilePolicy::Prompt, Some(ReviewOutcome::SkipAll), 2),
        Vec::<usize>::new()
    );
    assert_eq!(kept_indices(LargeFilePolicy::Prompt, Some(ReviewOutcome::KeepAll), 2), vec![0, 1]);
    assert_eq!(
        kept_indices(LargeFilePolicy::Prompt, Some(ReviewOutcome::KeepSelected(vec![1, 3])), 4),
        vec![1, 3]
    );
}

#[test]
fn policy_from_argument() {
    assert_eq!(LargeFilePolicy::from(LargeFilePolicyArg::Prompt), LargeFilePolicy::Prompt);
    assert_eq!(LargeFilePolicy::from(LargeFilePolicyArg::Keep), LargeFilePolicy::KeepAll);
    assert_eq!(LargeFilePolicy::from(LargeFilePolicyArg::Skip), LargeFilePolicy::SkipAll);
}

#[test]
fn workers_and_levels() {
    assert_eq!(zstd_workers_for(Some(0), 16), 0);
    assert_eq!(zstd_workers_for(None, 16), 4);
    assert_eq!(zstd_workers_for(None, 2), 2);
    assert_eq!(log_level(0), "warn");
    assert_eq!(log_level(1), "info");
    assert_eq!(log_level(2), "debug");
    assert_eq!(log_level(9), "trace");
    assert_eq!(MANIFEST_NAME, "MANIFEST.blake3");
}

#[test]
fn rust_target_dirs() {
    assert!(is_rust_target("target", true, true));
    assert!(!is_rust_target("target", true, false));
    assert!(!is_rust_target("target", false, true));
    assert!(!is_rust_target("targets", true, true));
}

#[test]
fn backup_settings_from_arguments() {
    let normalized = vec![
        NormalizedExclude { pattern: "*.bak".to_string(), canonical_path: None },
        NormalizedExclude { pattern: "/vendor/".to_string(), canonical_path: Some("/t/vendor".to_string()) },
    ];
    let (s, subtrees) = build_backup_settings(
        "/t".to_string(),
        Some("/out/x.tar.zst".to_string()),
        false,
        true,
        10,
        5,
        Some(2),
        LargeFilePolicyArg::Skip,
        normalized,
    );
    assert_eq!(s.target, "/t");
    assert_eq!(s.output, "/out/x.tar.zst");
    assert!(!s.encrypt);
    assert!(s.no_default_excludes);
    assert_eq!(s.large_threshold, 10);
    assert_eq!(s.zstd_level, 5);
    assert_eq!(s.zstd_workers, 2);
    assert_eq!(s.large_files, LargeFilePolicy::SkipAll);
    assert_eq!(s.extra_excludes, vec!["*.bak", "/vendor/"]);
    assert_eq!(subtrees, vec!["/t/vendor"]);

    let (d, _) = build_backup_settings(
        "/home/u/proj".to_string(),
        None,
        true,
        false,
        1,
        3,
        None,
        LargeFilePolicyArg::Prompt,
        Vec::new(),
    );
    assert!(d.output.starts_with("proj-"));
    assert!(d.output.ends_with(".tar.zst.age"));
    assert!(d.zstd_workers >= 1 && d.zstd_workers <= 4);
}
