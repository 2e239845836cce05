use minbup::phase::Phase;
use minbup::progress::{ProgressState, ViewModel};
use minbup::review::{move_sel, review_empty_queue, ReviewKey, ReviewOutcome, ReviewState, ReviewStep};
use minbup::timefmt::{format_duration, format_secs, human_duration};
use std::time::Duration;

#[test]
fn phases_round_trip_and_labels() {
    let all = [
        Phase::Preflight,
        Phase::Discover,
        Phase::Stream,
        Phase::Review,
        Phase::StreamLarge,
        Phase::Manifest,
        Phase::Done,
    ];
    let labels = ["preflight", "discover", "stream", "review", "stream-large", "manifest", "done"];
    for (i, p) in all.iter().enumerate() {
        assert_eq!(Phase::from_u8(p.code()), *p);
        assert_eq!(p.code() as usize, i);
        assert_eq!(p.label(), labels[i]);
    }
    assert_eq!(Phase::from_u8(200), Phase::Done);
}

#[test]
fn progress_state_phase_and_abort() {
    let s = ProgressState::new();
    assert_eq!(s.phase(), Phase::Preflight);
    s.set_phase(Phase::StreamLarge);
    let t = s.clone();
    assert_eq!(t.phase(), Phase::StreamLarge);
    assert!(!t.is_aborted());
    s.signal_abort();
    assert!(t.is_aborted());
    s.set_current_path("x/y".to_string());
    assert_eq!(*t.current_path.lock().unwrap(), "x/y");
}

#[test]
fn throughput_window() {
    let mut vm = ViewModel::new(ProgressState::new());
    vm.spark_capacity = 3;
    vm.record(10);
    vm.record(25);
    vm.record(20);
    vm.record(40);
    let v: Vec<u64> = vm.spark.iter().copied().collect();
    assert_eq!(v, vec![15, 0, 20]);
    assert_eq!(vm.last_compressed, 40);
    vm.tick();
    assert_eq!(vm.spark.len(), 3);
    assert_eq!(*vm.spark.back().unwrap(), 0);
}

#[test]
fn eta_and_elapsed_texts() {
    assert_eq!(format_secs(0), "0s");
    assert_eq!(format_secs(59), "59s");
    assert_eq!(format_secs(60), "1m00s");
    assert_eq!(format_secs(3599), "59m59s");
    assert_eq!(format_secs(3600), "1h00m");
    assert_eq!(format_secs(7384), "2h03m");
    assert_eq!(format_duration(4, 250), "4.2s");
    assert_eq!(format_duration(0, 999), "0.9s");
    assert_eq!(format_duration(187, 5), "3m07s");
    assert_eq!(format_duration(7509, 0), "2h05m09s");
    assert_eq!(human_duration(Duration::from_millis(61_500)), "1m01s");
    assert_eq!(human_duration(Duration::from_millis(1_234)), "1.2s");
}

#[test]
fn review_keys() {
    assert!(matches!(review_empty_queue(), ReviewOutcome::SkipAll));
    let mut r = ReviewState::new(4);
    assert_eq!(r.selection(), Some(0));
    assert!(matches!(r.step(ReviewKey::Char(' ')), ReviewStep::Continue));
    assert_eq!(r.kept_flags(), &vec![false, true, true, true]);
    r.step(ReviewKey::Down);
    r.step(ReviewKey::Char('j'));
    assert_eq!(r.selection(), Some(2));
    r.step(ReviewKey::PageDown);
    assert_eq!(r.selection(), Some(3));
    r.step(ReviewKey::Enter);
    r.step(ReviewKey::Home);
    assert_eq!(r.selection(), Some(0));
    r.step(ReviewKey::Up);
    assert_eq!(r.selection(), Some(0));
    match r.step(ReviewKey::Char('q')) {
        ReviewStep::Finish(ReviewOutcome::KeepSelected(v)) => assert_eq!(v, vec![1, 2]),
        _ => panic!("expected the selected files"),
    }
    let mut all = ReviewState::new(2);
    assert!(matches!(all.step(ReviewKey::Char('Q')), ReviewStep::Finish(ReviewOutcome::KeepAll)));
    let mut none = ReviewState::new(1);
    none.step(ReviewKey::Char(' '));
    assert!(matches!(none.step(ReviewKey::Char('q')), ReviewStep::Finish(ReviewOutcome::SkipAll)));
    let mut k = ReviewState::new(3);
    assert!(matches!(k.step(ReviewKey::Char('a')), ReviewStep::Finish(ReviewOutcome::KeepAll)));
    assert!(matches!(k.step(ReviewKey::Char('s')), ReviewStep::Finish(ReviewOutcome::SkipAll)));
    assert!(matches!(k.step(ReviewKey::Esc), ReviewStep::Finish(ReviewOutcome::SkipAll)));
    k.step(ReviewKey::End);
    assert_eq!(k.selection(), Some(2));
    k.step(ReviewKey::PageUp);
    assert_eq!(k.selection(), Some(0));
    assert!(matches!(k.step(ReviewKey::Other), ReviewStep::Continue));
}

#[test]
fn selection_moves_are_clamped() {
    let mut s = Some(3usize);
    move_sel(&mut s, 5, 10);
    assert_eq!(s, Some(4));
    move_sel(&mut s, 5, -10);
    assert_eq!(s, Some(0));
    let mut n: Option<usize> = None;
    move_sel(&mut n, 0, 1);
    assert_eq!(n, None);
    move_sel(&mut n, 3, 1);
    assert_eq!(n, Some(1));
}


#[test]
fn toggling_twice_restores_flags() {
    let mut r = ReviewState::new(3);
    r.step(ReviewKey::Down);
    r.step(ReviewKey::Enter);
    assert_eq!(r.kept_flags(), &vec![true, false, true]);
    r.step(ReviewKey::Char(' '));
    assert_eq!(r.kept_flags(), &vec![true, true, true]);
}

#[test]
fn clock_seconds_are_past_2020() {
    assert!(minbup::ledger::now_secs() > 1_577_836_800);
}

#[test]
fn byte_counts_in_binary_units() {
    assert_eq!(minbup::timefmt::human_bytes(0), "0 B");
    assert_eq!(minbup::timefmt::human_bytes(1048576), "1 MiB");
}

#[test]
fn long_paths_keep_their_end() {
    assert_eq!(minbup::timefmt::shorten_path("short", 10), "short");
    assert_eq!(minbup::timefmt::shorten_path("abcdefghij", 5), "…ghij");
    assert_eq!(minbup::timefmt::shorten_path("abcdef", 1), "abcdef");
    assert_eq!(minbup::timefmt::shorten_path("aé", 2), "…");
    assert_eq!(minbup::timefmt::shorten_path("xaé", 3), "…é");
}

#[test]
fn review_requests() {
    request_is(minbup::config::LargeFilePolicy::Prompt, true, 2, minbup::config::ReviewRequest::AskProvider);
    request_is(minbup::config::LargeFilePolicy::Prompt, false, 2, minbup::config::ReviewRequest::NoProvider);
    request_is(minbup::config::LargeFilePolicy::Prompt, true, 0, minbup::config::ReviewRequest::NotNeeded);
    request_is(minbup::config::LargeFilePolicy::KeepAll, true, 3, minbup::config::ReviewRequest::NotNeeded);
    request_is(minbup::config::LargeFilePolicy::SkipAll, true, 3, minbup::config::ReviewRequest::NotNeeded);
}

fn request_is(p: minbup::config::LargeFilePolicy, has: bool, n: usize, want: minbup::config::ReviewRequest) {
    assert_eq!(minbup::config::review_request(p, has, n), want);
}

#[test]
fn elapsed_text_uses_milliseconds() {
    assert_eq!(human_duration(Duration::from_millis(59_999)), "59.9s");
    assert_eq!(human_duration(Duration::from_secs(3600)), "1h00m00s");
}
