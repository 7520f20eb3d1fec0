//! The auto-reconnect ladder, candidate selection and tracker. Times are in
//! milliseconds; `START` stands for the instant a test begins.

use blue2th_server::reconnect::{
    dialable, next_delay, reconnect_candidates, should_auto_reconnect, DialOutcome, ReconnectTracker,
    ATTEMPTS_AT_CAP, BACKOFF_CAP, BACKOFF_RAMP, RECONNECT_TICK,
};

const A: &str = "AA:BB:CC:DD:EE:FF";
const B: &str = "11:22:33:44:55:66";
const C: &str = "99:88:77:66:55:44";

/// An arbitrary starting time, in milliseconds.
const START: u64 = 1_000_000;

fn secs(s: u64) -> u64 {
    s * 1000
}

fn addrs(list: &[&str]) -> Vec<String> {
    list.iter().map(|s| s.to_string()).collect()
}

fn fail_repeatedly(tracker: &mut ReconnectTracker, addr: &str, times: usize, start: u64) -> u64 {
    let mut now = start;
    for step in 0..times {
        tracker.record_failure(addr, now);
        now += next_delay(step).unwrap_or(BACKOFF_CAP);
    }
    now
}

#[test]
fn test_next_delay_walks_the_backoff_ramp() {
    assert_eq!(next_delay(0), Some(secs(15)));
    assert_eq!(next_delay(1), Some(secs(30)));
    assert_eq!(next_delay(2), Some(secs(60)));
    assert_eq!(next_delay(3), Some(secs(120)));
}

#[test]
fn test_next_delay_caps_at_five_minutes_for_three_attempts() {
    assert_eq!(next_delay(4), Some(secs(300)));
    assert_eq!(next_delay(5), Some(secs(300)));
    assert_eq!(next_delay(6), Some(secs(300)));
    assert_eq!(BACKOFF_CAP, secs(300));
    assert_eq!(ATTEMPTS_AT_CAP, 3);
}

#[test]
fn test_next_delay_gives_up_after_the_cap_attempts() {
    assert_eq!(next_delay(BACKOFF_RAMP.len() + ATTEMPTS_AT_CAP), None);
    assert_eq!(next_delay(99), None, "past the ladder it stays given up");
}

#[test]
fn test_reconnect_tick_is_no_longer_than_the_first_backoff_step() {
    let first = BACKOFF_RAMP.first().copied().unwrap_or(BACKOFF_CAP);
    assert!(RECONNECT_TICK <= first);
}

#[test]
fn test_reconnect_candidates_keeps_the_paired_and_disconnected_in_intent_order() {
    let candidates = reconnect_candidates(&addrs(&[B, A]), &addrs(&[A, B, C]), &addrs(&[]));
    assert_eq!(candidates, addrs(&[B, A]));
}

#[test]
fn test_reconnect_candidates_excludes_a_connected_speaker() {
    let candidates = reconnect_candidates(&addrs(&[A, B]), &addrs(&[A, B]), &addrs(&[A]));
    assert_eq!(candidates, addrs(&[B]), "A is already connected");
}

#[test]
fn test_reconnect_candidates_excludes_an_unpaired_address() {
    let candidates = reconnect_candidates(&addrs(&[A, B]), &addrs(&[B]), &addrs(&[]));
    assert_eq!(candidates, addrs(&[B]));
}

#[test]
fn test_reconnect_candidates_excludes_anything_outside_the_intent() {
    let candidates = reconnect_candidates(&addrs(&[A]), &addrs(&[A, B, C]), &addrs(&[]));
    assert_eq!(candidates, addrs(&[A]));
}

#[test]
fn test_reconnect_candidates_with_an_empty_intent_is_empty() {
    assert!(reconnect_candidates(&[], &addrs(&[A, B]), &addrs(&[])).is_empty());
}

#[test]
fn test_reconnect_candidates_with_no_paired_device_is_empty() {
    assert!(reconnect_candidates(&addrs(&[A, B]), &[], &addrs(&[])).is_empty());
}

#[test]
fn test_should_auto_reconnect_off_produces_no_candidate() {
    assert!(!should_auto_reconnect(false), "off must stop the pass");
    assert!(should_auto_reconnect(true), "on must let the pass run");

    let intended = addrs(&[A]);
    let paired = addrs(&[A]);
    let candidates = if should_auto_reconnect(false) {
        reconnect_candidates(&intended, &paired, &[])
    } else {
        Vec::new()
    };
    assert!(candidates.is_empty());
}

#[test]
fn test_due_returns_every_candidate_on_the_first_pass() {
    let tracker = ReconnectTracker::new();
    assert_eq!(tracker.due(&addrs(&[A, B]), START), addrs(&[A, B]));
}

#[test]
fn test_due_holds_an_address_back_until_its_delay_has_elapsed() {
    let now = START;
    let mut tracker = ReconnectTracker::new();
    tracker.record_failure(A, now);

    assert!(tracker.due(&addrs(&[A]), now).is_empty());
    assert!(tracker.due(&addrs(&[A]), now + secs(14)).is_empty());
    assert_eq!(tracker.due(&addrs(&[A]), now + secs(15)), addrs(&[A]));
}

#[test]
fn test_each_failure_widens_the_next_attempt_by_the_current_step() {
    let mut now = START;
    let mut tracker = ReconnectTracker::new();

    for step in 0..BACKOFF_RAMP.len() {
        tracker.record_failure(A, now);
        let delay = next_delay(step).unwrap_or(BACKOFF_CAP);
        assert!(
            tracker.due(&addrs(&[A]), now + delay - 1).is_empty(),
            "step {step} must hold the address for {delay} ms"
        );
        assert_eq!(tracker.due(&addrs(&[A]), now + delay), addrs(&[A]));
        now += delay;
    }
}

#[test]
fn test_record_success_clears_the_backoff_so_a_later_loss_starts_over() {
    let mut tracker = ReconnectTracker::new();
    let now = fail_repeatedly(&mut tracker, A, 3, START);

    tracker.record_success(A);
    assert_eq!(tracker.due(&addrs(&[A]), now), addrs(&[A]));

    tracker.record_failure(A, now);
    assert!(tracker.due(&addrs(&[A]), now + secs(14)).is_empty());
    assert_eq!(tracker.due(&addrs(&[A]), now + secs(15)), addrs(&[A]));
}

#[test]
fn test_due_stops_returning_a_given_up_address() {
    let mut tracker = ReconnectTracker::new();
    let attempts = BACKOFF_RAMP.len() + ATTEMPTS_AT_CAP + 1;
    let now = fail_repeatedly(&mut tracker, A, attempts, START);

    assert!(tracker.given_up(A), "the ladder ran out");
    assert!(tracker.due(&addrs(&[A]), now).is_empty());
    assert!(tracker.due(&addrs(&[A]), now + secs(86_400)).is_empty());
}

#[test]
fn test_rearm_makes_a_given_up_address_due_again() {
    let mut tracker = ReconnectTracker::new();
    let attempts = BACKOFF_RAMP.len() + ATTEMPTS_AT_CAP + 1;
    let now = fail_repeatedly(&mut tracker, A, attempts, START);

    tracker.rearm(A);
    assert!(!tracker.given_up(A));
    assert_eq!(tracker.due(&addrs(&[A]), now), addrs(&[A]));
}

#[test]
fn test_record_success_clears_a_given_up_address() {
    let mut tracker = ReconnectTracker::new();
    let attempts = BACKOFF_RAMP.len() + ATTEMPTS_AT_CAP + 1;
    let now = fail_repeatedly(&mut tracker, A, attempts, START);

    tracker.record_success(A);
    assert!(!tracker.given_up(A));
    assert_eq!(tracker.due(&addrs(&[A]), now), addrs(&[A]));
}

#[test]
fn test_dismiss_removes_an_address_from_due() {
    let now = START;
    let mut tracker = ReconnectTracker::new();
    tracker.dismiss(A);

    assert!(tracker.due(&addrs(&[A]), now).is_empty());
    assert!(tracker.due(&addrs(&[A]), now + secs(3_600)).is_empty());
}

#[test]
fn test_rearm_after_a_dismissal_brings_the_address_back() {
    let mut tracker = ReconnectTracker::new();
    tracker.dismiss(A);
    tracker.rearm(A);
    assert_eq!(tracker.due(&addrs(&[A]), START), addrs(&[A]));
}

#[test]
fn test_dismiss_only_suppresses_that_address() {
    let mut tracker = ReconnectTracker::new();
    tracker.dismiss(A);
    assert_eq!(tracker.due(&addrs(&[A, B]), START), addrs(&[B]));
}

#[test]
fn test_backoff_state_is_kept_per_address() {
    let now = START;
    let mut tracker = ReconnectTracker::new();
    tracker.record_failure(A, now);
    tracker.record_failure(B, now);

    tracker.record_success(A);
    assert_eq!(tracker.due(&addrs(&[A, B]), now), addrs(&[A]));
    assert_eq!(tracker.due(&addrs(&[A, B]), now + secs(15)), addrs(&[A, B]));
}

#[test]
fn test_a_fresh_tracker_dials_a_previously_given_up_address() {
    let mut tracker = ReconnectTracker::new();
    let attempts = BACKOFF_RAMP.len() + ATTEMPTS_AT_CAP + 1;
    let now = fail_repeatedly(&mut tracker, A, attempts, START);
    assert!(tracker.given_up(A));

    let restarted = ReconnectTracker::new();
    assert_eq!(restarted.due(&addrs(&[A]), now), addrs(&[A]));
}

#[test]
fn test_due_never_returns_an_address_outside_the_candidates() {
    let now = START;
    let mut tracker = ReconnectTracker::new();
    tracker.record_failure(A, now);
    tracker.record_success(A);
    assert!(tracker.due(&addrs(&[B]), now).iter().all(|a| a == B));
    assert!(tracker.due(&[], now).is_empty(), "no candidate, no work");
}

#[test]
fn test_dismissing_keeps_the_failure_count_so_a_rearm_is_needed() {
    let mut tracker = ReconnectTracker::new();
    tracker.record_failure(A, START);
    tracker.dismiss(A);
    assert!(tracker.due(&addrs(&[A]), START + secs(15)).is_empty());
    assert!(!tracker.given_up(A));
}

#[test]
fn a_pass_lists_the_devices_only_when_a_missing_speaker_is_due() {
    let mut tracker = ReconnectTracker::new();
    let intended = addrs(&[A, B]);
    assert!(!tracker.pass_needs_listing(false, &intended, &[], START), "the setting is off");
    assert!(!tracker.pass_needs_listing(true, &[], &[], START), "nothing is intended");
    assert!(
        !tracker.pass_needs_listing(true, &intended, &addrs(&[A, B]), START),
        "every intended speaker is connected"
    );
    assert!(tracker.pass_needs_listing(true, &intended, &addrs(&[A]), START));
    tracker.record_failure(B, START);
    assert!(
        !tracker.pass_needs_listing(true, &intended, &addrs(&[A]), START + secs(1)),
        "the only missing speaker is mid-backoff"
    );
    assert!(tracker.pass_needs_listing(true, &intended, &addrs(&[A]), START + secs(15)));
}

#[test]
fn a_pass_dials_the_due_candidates_in_intent_order() {
    let mut tracker = ReconnectTracker::new();
    let intended = addrs(&[C, A, B]);
    let paired = addrs(&[A, B, C]);
    tracker.record_failure(A, START);
    assert_eq!(
        tracker.pass_dials(&intended, &paired, &addrs(&[B]), START + secs(1)),
        addrs(&[C])
    );
    assert_eq!(
        tracker.pass_dials(&intended, &paired, &addrs(&[B]), START + secs(15)),
        addrs(&[C, A])
    );
}

#[test]
fn a_dial_outcome_updates_the_ladder_and_the_connected_cache() {
    let mut tracker = ReconnectTracker::new();
    let mut connected = addrs(&[B]);
    tracker.record_dial(&mut connected, A, &DialOutcome::NotUp, START);
    assert_eq!(tracker.due(&addrs(&[A]), START + secs(1)), Vec::<String>::new());
    assert_eq!(connected, addrs(&[B]));
    tracker.record_dial(&mut connected, A, &DialOutcome::Failed("timeout".to_string()), START + secs(15));
    assert_eq!(tracker.due(&addrs(&[A]), START + secs(44)), Vec::<String>::new());
    tracker.record_dial(&mut connected, A, &DialOutcome::Connected(A.to_string()), START + secs(45));
    assert_eq!(tracker.due(&addrs(&[A]), START + secs(45)), addrs(&[A]));
    assert_eq!(connected, addrs(&[B, A]));
    tracker.record_dial(&mut connected, A, &DialOutcome::Connected(A.to_string()), START + secs(46));
    assert_eq!(connected, addrs(&[B, A]), "the cache lists an address once");
}

#[test]
fn record_connected_clears_the_ladder_of_intended_speakers_that_came_back() {
    let mut tracker = ReconnectTracker::new();
    tracker.record_failure(A, START);
    tracker.record_failure(B, START);
    tracker.record_failure(C, START);
    // A is intended and connected, B intended but still away, C connected but
    // not intended.
    tracker.record_connected(&addrs(&[A, B]), &addrs(&[A, C]));
    assert_eq!(tracker.due(&addrs(&[A]), START), addrs(&[A]));
    assert!(tracker.due(&addrs(&[B]), START).is_empty());
    assert!(tracker.due(&addrs(&[C]), START).is_empty());
}

#[test]
fn dialable_skips_an_address_that_does_not_parse_and_keeps_the_rest_in_order() {
    let due = addrs(&[A, "not-an-address", B]);
    assert_eq!(dialable(&due, &[true, false, true]), addrs(&[A, B]));
    assert!(dialable(&[], &[]).is_empty());
}
