//! Routing plans, their reconciliation against a loaded graph, and the
//! confirming reloads. Times are milliseconds.

use std::cell::RefCell;

use blue2th_server::audio::{
    bluez_sink_prefix, branches_for_log, combine_sink_plan, load_planned_branches, reachable_branches,
    reconcile_branches, should_repair_branches, sink_named_by_prefix, AudioError, AudioOutput,
    AudioEngine, BranchLoadReport, BranchPlan, CombineBranch, CombineSinkSpec, ConfirmationRegister,
    NullOutput, PlaybackStatus, SpeakerTarget, BRANCH_REPAIR_TICK, CONFIRM_GAP,
};
use blue2th_server::graph_pactl::sink_matching_prefix;

const SINK_TABLE: &str = "39\talsa_output.pci-0000_00_1f.3.analog-stereo\tPipeWire\ts32le 2ch 48000Hz\tSUSPENDED\n\
    57\tbluez_output.80_99_E7_63_50_29.1\tPipeWire\ts16le 2ch 48000Hz\tRUNNING\n\
    61\tblue2th_combined\tPipeWire\tf32le 2ch 48000Hz\tIDLE\n";

fn two_speaker_spec() -> CombineSinkSpec {
    combine_sink_plan(&[
        SpeakerTarget { address: "80:99:E7:63:50:29".to_string(), offset_ms: 0 },
        SpeakerTarget { address: "11:22:33:44:55:66".to_string(), offset_ms: 250 },
    ])
}

fn sinks_present() -> Vec<String> {
    ["alsa_output.pci-0000_00_1f.3.analog-stereo", "bluez_output.80_99_E7_63_50_29.1", "blue2th_combined"]
        .map(String::from)
        .to_vec()
}

fn sinks_without_speaker() -> Vec<String> {
    ["alsa_output.pci-0000_00_1f.3.analog-stereo", "blue2th_combined"].map(String::from).to_vec()
}

#[test]
fn test_bluez_sink_prefix_maps_mac_to_node_prefix() {
    assert_eq!(bluez_sink_prefix("aa:bb:cc:dd:ee:ff"), "bluez_output.AA_BB_CC_DD_EE_FF");
}

#[test]
fn test_combine_sink_plan_lists_both_sinks_and_offsets() {
    let targets = vec![
        SpeakerTarget { address: "AA:BB:CC:DD:EE:FF".to_string(), offset_ms: 0 },
        SpeakerTarget { address: "11:22:33:44:55:66".to_string(), offset_ms: 250 },
    ];
    let spec = combine_sink_plan(&targets);
    assert_eq!(spec.sink_name, "blue2th_combined");
    assert_eq!(spec.branches.len(), 2);
    assert!(spec.branches[0].sink.starts_with("bluez_output.AA_BB_CC_DD_EE_FF"));
    assert_eq!(spec.branches[0].latency_ms, 0);
    assert!(spec.branches[1].sink.starts_with("bluez_output.11_22_33_44_55_66"));
    assert_eq!(spec.branches[1].latency_ms, 250);
}

#[test]
fn test_combine_sink_plan_lone_speaker_carries_its_offset_as_latency() {
    let spec = combine_sink_plan(&[SpeakerTarget { address: "11:22:33:44:55:66".to_string(), offset_ms: 320 }]);
    assert_eq!(spec.branches.len(), 1);
    assert_eq!(spec.branches[0].sink, bluez_sink_prefix("11:22:33:44:55:66"));
    assert_eq!(spec.branches[0].latency_ms, 320);
}

#[test]
fn test_sink_matching_prefix_resolves_a_bluez_prefix_to_the_card_suffixed_node() {
    assert_eq!(
        sink_matching_prefix(SINK_TABLE, "bluez_output.80_99_E7_63_50_29"),
        Some("bluez_output.80_99_E7_63_50_29.1".to_string())
    );
}

#[test]
fn test_sink_matching_prefix_without_a_matching_line_is_none() {
    assert_eq!(sink_matching_prefix(SINK_TABLE, "bluez_output.AA_BB_CC_DD_EE_FF"), None);
}

#[test]
fn test_sink_matching_prefix_picks_the_right_line_among_several_sinks() {
    let listing = "39\talsa_output.pci-0000_00_1f.3.analog-stereo\tPipeWire\ts32le 2ch 48000Hz\tSUSPENDED\n\
        57\tbluez_output.80_99_E7_63_50_29.1\tPipeWire\ts16le 2ch 48000Hz\tRUNNING\n\
        58\tbluez_output.11_22_33_44_55_66.2\tPipeWire\ts16le 2ch 48000Hz\tIDLE\n\
        61\tblue2th_combined\tPipeWire\tf32le 2ch 48000Hz\tIDLE\n";
    assert_eq!(
        sink_matching_prefix(listing, "bluez_output.11_22_33_44_55_66"),
        Some("bluez_output.11_22_33_44_55_66.2".to_string())
    );
}

#[test]
fn test_sink_matching_prefix_ignores_a_sink_that_only_contains_the_prefix() {
    let listing = "44\tvirtual_bluez_output.80_99_E7_63_50_29.9\tPipeWire\ts16le 2ch 48000Hz\tIDLE\n\
        57\tbluez_output.80_99_E7_63_50_29.1\tPipeWire\ts16le 2ch 48000Hz\tRUNNING\n";
    assert_eq!(
        sink_matching_prefix(listing, "bluez_output.80_99_E7_63_50_29"),
        Some("bluez_output.80_99_E7_63_50_29.1".to_string())
    );
}

#[test]
fn test_sink_matching_prefix_leaves_an_exact_node_name_unchanged() {
    assert_eq!(sink_matching_prefix(SINK_TABLE, "blue2th_combined"), Some("blue2th_combined".to_string()));
}

#[test]
fn test_sink_matching_prefix_without_a_prefix_matches_nothing() {
    assert_eq!(sink_matching_prefix(SINK_TABLE, ""), None);
    assert_eq!(sink_matching_prefix("39\t\tPipeWire\tIDLE\n", ""), None);
}

#[test]
fn test_sink_matching_prefix_ignores_a_longer_namesake_without_a_card_separator() {
    let listing = "60\tblue2th_combined_old\tPipeWire\tf32le 2ch 48000Hz\tIDLE\n";
    assert_eq!(sink_matching_prefix(listing, "blue2th_combined"), None);
}

#[test]
fn test_sink_matching_prefix_prefers_the_exact_node_over_a_longer_namesake() {
    let listing = "60\tblue2th_combined_old\tPipeWire\tf32le 2ch 48000Hz\tIDLE\n\
        61\tblue2th_combined\tPipeWire\tf32le 2ch 48000Hz\tIDLE\n";
    assert_eq!(sink_matching_prefix(listing, "blue2th_combined"), Some("blue2th_combined".to_string()));
}

#[test]
fn test_sink_matching_prefix_takes_the_first_suffixed_candidate() {
    let listing = "57\tbluez_output.80_99_E7_63_50_29.1\tPipeWire\ts16le 2ch 48000Hz\tRUNNING\n\
        58\tbluez_output.80_99_E7_63_50_29.2\tPipeWire\ts16le 2ch 48000Hz\tIDLE\n";
    assert_eq!(
        sink_matching_prefix(listing, "bluez_output.80_99_E7_63_50_29"),
        Some("bluez_output.80_99_E7_63_50_29.1".to_string())
    );
}

#[test]
fn test_sink_matching_prefix_skips_lines_without_a_node_name_column() {
    let listing = "\n\
        39\n\
        \t\n\
        57\tbluez_output.80_99_E7_63_50_29.1\tPipeWire\ts16le 2ch 48000Hz\tRUNNING\n\
        \n";
    assert_eq!(
        sink_matching_prefix(listing, "bluez_output.80_99_E7_63_50_29"),
        Some("bluez_output.80_99_E7_63_50_29.1".to_string())
    );
}

#[test]
fn test_sink_named_by_prefix_prefers_the_exact_name_wherever_it_sits() {
    let sinks = vec!["blue2th_combined.2".to_string(), "blue2th_combined".to_string()];
    assert_eq!(sink_named_by_prefix(&sinks, "blue2th_combined"), Some("blue2th_combined".to_string()));
    assert_eq!(sink_named_by_prefix(&sinks, ""), None);
}

#[test]
fn test_reconcile_branches_added_speaker_loads_only_that_branch() {
    let spec = two_speaker_spec();
    let already_streaming = CombineBranch { sink: "bluez_output.80_99_E7_63_50_29.1".to_string(), latency_ms: 0 };
    let plan = reconcile_branches(&[already_streaming], &spec);
    assert_eq!(
        plan,
        BranchPlan {
            to_load: vec![CombineBranch { sink: bluez_sink_prefix("11:22:33:44:55:66"), latency_ms: 250 }],
            to_retune: Vec::new(),
            to_unload: Vec::new(),
        }
    );
}

#[test]
fn test_reachable_branches_drops_a_speaker_whose_sink_is_absent() {
    let spec = two_speaker_spec();
    let reachable = reachable_branches(&spec.branches, &sinks_present());
    assert_eq!(
        reachable,
        vec![CombineBranch { sink: bluez_sink_prefix("80:99:E7:63:50:29"), latency_ms: 0 }],
        "only the speaker with a live node survives, got {reachable:?}"
    );
}

#[test]
fn test_reachable_branches_of_an_empty_listing_keeps_nothing() {
    assert!(reachable_branches(&two_speaker_spec().branches, &[]).is_empty());
}

#[test]
fn test_reconcile_branches_a_switched_off_speaker_asks_for_no_rebuild() {
    let spec = two_speaker_spec();
    let present = CombineSinkSpec {
        sink_name: spec.sink_name.clone(),
        branches: reachable_branches(&spec.branches, &sinks_present()),
    };
    let loaded = vec![CombineBranch { sink: "bluez_output.80_99_E7_63_50_29.1".to_string(), latency_ms: 0 }];
    assert_eq!(reconcile_branches(&loaded, &present), BranchPlan::default());
}

#[test]
fn test_reconcile_branches_matches_a_prefix_against_the_resolved_node() {
    let spec = combine_sink_plan(&[SpeakerTarget { address: "80:99:E7:63:50:29".to_string(), offset_ms: 0 }]);
    assert_eq!(spec.branches[0].sink, "bluez_output.80_99_E7_63_50_29");
    let loaded = vec![CombineBranch { sink: "bluez_output.80_99_E7_63_50_29.1".to_string(), latency_ms: 0 }];
    assert_eq!(reconcile_branches(&loaded, &spec), BranchPlan::default());
}

#[test]
fn test_reconcile_branches_prefix_matches_the_node_only_at_a_dot_boundary() {
    let spec = combine_sink_plan(&[SpeakerTarget { address: "80:99:E7:63:50:29".to_string(), offset_ms: 0 }]);
    for latency_ms in [0, 30] {
        let loaded = vec![CombineBranch { sink: format!("{}_2.1", spec.branches[0].sink), latency_ms }];
        let plan = reconcile_branches(&loaded, &spec);
        assert_eq!(plan, BranchPlan { to_load: spec.branches.clone(), to_retune: Vec::new(), to_unload: loaded });
    }
}

#[test]
fn test_reconcile_branches_a_branch_naming_no_node_matches_nothing() {
    for (loaded_ms, planned_ms) in [(0, 0), (30, 0)] {
        let loaded = CombineBranch { sink: String::new(), latency_ms: loaded_ms };
        let planned = CombineBranch { sink: String::new(), latency_ms: planned_ms };
        let spec = CombineSinkSpec { sink_name: "blue2th_combined".to_string(), branches: vec![planned.clone()] };
        let plan = reconcile_branches(std::slice::from_ref(&loaded), &spec);
        assert_eq!(
            plan,
            BranchPlan { to_load: vec![planned], to_retune: Vec::new(), to_unload: vec![loaded] },
            "two empty names are not the same node"
        );
    }
}

#[test]
fn test_reconcile_branches_prefix_does_not_match_another_speakers_node() {
    let spec = combine_sink_plan(&[SpeakerTarget { address: "80:99:E7:63:50:29".to_string(), offset_ms: 0 }]);
    for latency_ms in [0, 30] {
        let other = CombineBranch { sink: "bluez_output.11_22_33_44_55_66.1".to_string(), latency_ms };
        let plan = reconcile_branches(std::slice::from_ref(&other), &spec);
        assert_eq!(
            plan,
            BranchPlan {
                to_load: vec![CombineBranch { sink: "bluez_output.80_99_E7_63_50_29".to_string(), latency_ms: 0 }],
                to_retune: Vec::new(),
                to_unload: vec![other],
            }
        );
    }
}

#[test]
fn test_reconcile_branches_retunes_a_branch_at_another_delay() {
    let spec = combine_sink_plan(&[SpeakerTarget { address: "80:99:E7:63:50:29".to_string(), offset_ms: 120 }]);
    let loaded = vec![CombineBranch { sink: "bluez_output.80_99_E7_63_50_29.1".to_string(), latency_ms: 40 }];
    assert_eq!(
        reconcile_branches(&loaded, &spec),
        BranchPlan {
            to_load: Vec::new(),
            to_retune: vec![CombineBranch { sink: "bluez_output.80_99_E7_63_50_29.1".to_string(), latency_ms: 120 }],
            to_unload: Vec::new(),
        }
    );
}

#[test]
fn test_reconcile_branches_with_every_speaker_switched_off_loads_nothing() {
    let spec = two_speaker_spec();
    let none_present = CombineSinkSpec {
        sink_name: spec.sink_name.clone(),
        branches: reachable_branches(&spec.branches, &sinks_without_speaker()),
    };
    let loaded = vec![CombineBranch { sink: "bluez_output.80_99_E7_63_50_29.1".to_string(), latency_ms: 0 }];
    assert!(none_present.branches.is_empty());
    assert_eq!(
        reconcile_branches(&loaded, &none_present),
        BranchPlan { to_load: Vec::new(), to_retune: Vec::new(), to_unload: loaded }
    );
}

#[test]
fn test_should_repair_branches_with_a_selection_and_audio_runs() {
    let selection = vec![SpeakerTarget { address: "80:99:E7:63:50:29".to_string(), offset_ms: 0 }];
    assert!(should_repair_branches(&selection, true));
}

#[test]
fn test_should_repair_branches_with_an_empty_selection_does_not_run() {
    assert!(!should_repair_branches(&[], true));
}

#[test]
fn test_should_repair_branches_with_nothing_playing_does_not_run() {
    let selection = vec![SpeakerTarget { address: "80:99:E7:63:50:29".to_string(), offset_ms: 0 }];
    assert!(!should_repair_branches(&selection, false));
}

const DEAD: &str = "bluez_output.10_28_74_E7_6A_56";
const LIVE: &str = "bluez_output.80_99_E7_63_50_29";

fn planned_branch(sink: &str, latency_ms: u32) -> CombineBranch {
    CombineBranch { sink: sink.to_string(), latency_ms }
}

#[test]
fn test_load_planned_branches_failing_first_still_loads_the_second() {
    let plan = vec![planned_branch(DEAD, 0), planned_branch(LIVE, 40)];
    let resolved = RefCell::new(Vec::new());
    let loaded = RefCell::new(Vec::new());
    let report = load_planned_branches(
        &plan,
        |branch| {
            resolved.borrow_mut().push(branch.sink.clone());
            if branch.sink == DEAD {
                Err(AudioError::PipeWire(format!("no PipeWire sink for prefix {}", branch.sink)))
            } else {
                Ok(format!("{}.1", branch.sink))
            }
        },
        |_branch, real_sink| {
            loaded.borrow_mut().push(real_sink.to_string());
            Ok(())
        },
    );
    assert_eq!(*resolved.borrow(), vec![DEAD.to_string(), LIVE.to_string()]);
    assert_eq!(*loaded.borrow(), vec![format!("{LIVE}.1")]);
    assert_eq!(report.loaded, vec![LIVE.to_string()]);
    assert_eq!(report.failures.len(), 1);
}

#[test]
fn test_load_planned_branches_failing_second_still_loads_the_first() {
    let plan = vec![planned_branch(LIVE, 40), planned_branch(DEAD, 0)];
    let resolved = RefCell::new(Vec::new());
    let loaded = RefCell::new(Vec::new());
    let report = load_planned_branches(
        &plan,
        |branch| {
            resolved.borrow_mut().push(branch.sink.clone());
            if branch.sink == DEAD {
                Err(AudioError::PipeWire(format!("no PipeWire sink for prefix {}", branch.sink)))
            } else {
                Ok(format!("{}.1", branch.sink))
            }
        },
        |_branch, real_sink| {
            loaded.borrow_mut().push(real_sink.to_string());
            Ok(())
        },
    );
    assert_eq!(*resolved.borrow(), vec![LIVE.to_string(), DEAD.to_string()]);
    assert_eq!(*loaded.borrow(), vec![format!("{LIVE}.1")]);
    assert_eq!(report.loaded, vec![LIVE.to_string()]);
    assert_eq!(report.failures.len(), 1);
}

#[test]
fn test_load_planned_branches_all_resolvable_loads_every_branch() {
    let plan = vec![planned_branch(LIVE, 40), planned_branch(DEAD, 120)];
    let loaded = RefCell::new(Vec::new());
    let report = load_planned_branches(
        &plan,
        |branch| Ok(format!("{}.1", branch.sink)),
        |branch, real_sink| {
            loaded.borrow_mut().push((real_sink.to_string(), branch.latency_ms));
            Ok(())
        },
    );
    assert_eq!(*loaded.borrow(), vec![(format!("{LIVE}.1"), 40), (format!("{DEAD}.1"), 120)]);
    assert_eq!(report.loaded, vec![LIVE.to_string(), DEAD.to_string()]);
    assert!(report.failures.is_empty());
}

#[test]
fn test_load_planned_branches_of_an_empty_plan_attempts_nothing() {
    let attempts = RefCell::new(0_usize);
    let report = load_planned_branches(
        &[],
        |branch| {
            *attempts.borrow_mut() += 1;
            Ok(branch.sink.clone())
        },
        |_branch, _real_sink| {
            *attempts.borrow_mut() += 1;
            Ok(())
        },
    );
    assert_eq!(*attempts.borrow(), 0);
    assert_eq!(report, BranchLoadReport::default());
}

#[test]
fn test_load_planned_branches_reports_every_failure_after_trying_all() {
    let plan = vec![planned_branch(DEAD, 0), planned_branch(LIVE, 40)];
    let resolved = RefCell::new(Vec::new());
    let report = load_planned_branches(
        &plan,
        |branch| {
            resolved.borrow_mut().push(branch.sink.clone());
            Err(AudioError::PipeWire(format!("no PipeWire sink for prefix {}", branch.sink)))
        },
        |_branch, _real_sink| Ok(()),
    );
    assert_eq!(*resolved.borrow(), vec![DEAD.to_string(), LIVE.to_string()]);
    assert!(report.loaded.is_empty());
    assert_eq!(report.failures.len(), 2);
}

#[test]
fn test_branch_load_report_into_result_joins_every_failure() {
    let ok = BranchLoadReport { loaded: vec![LIVE.to_string()], failures: Vec::new() };
    assert!(ok.into_result().is_ok());
    let failed = BranchLoadReport { loaded: Vec::new(), failures: vec!["first".to_string(), "second".to_string()] };
    match failed.into_result() {
        Err(AudioError::PipeWire(m)) => assert_eq!(m, "first; second"),
        other => panic!("expected a PipeWire error, got {other:?}"),
    }
}

#[test]
fn test_audio_error_messages() {
    assert_eq!(AudioError::NoSpeakerConnected.to_string(), "no speaker connected");
    assert_eq!(AudioError::Decode("bad".to_string()).to_string(), "failed to decode audio: bad");
    assert_eq!(AudioError::PipeWire("down".to_string()).to_string(), "PipeWire error: down");
}

#[test]
fn test_branches_for_log_lists_each_sink_with_its_latency() {
    assert_eq!(branches_for_log(&[]), "");
    assert_eq!(
        branches_for_log(&[planned_branch(LIVE, 40), planned_branch(DEAD, 120)]),
        format!("{LIVE} @ 40 ms, {DEAD} @ 120 ms")
    );
}

fn names(sinks: &[&str]) -> Vec<String> {
    sinks.iter().map(|s| s.to_string()).collect()
}

const T0: u64 = 1_700_000_000_000;

#[test]
fn test_confirmation_register_owes_a_branch_only_once_the_gap_has_passed() {
    let mut register = ConfirmationRegister::default();
    let loaded = T0;
    register.arm(&names(&["bluez_output.B"]), loaded);
    assert!(register.take_due(loaded).is_empty(), "not in the loading pass");
    assert!(register.take_due(loaded + CONFIRM_GAP - 1).is_empty(), "not a moment short of the gap");
    assert_eq!(register.take_due(loaded + CONFIRM_GAP), names(&["bluez_output.B"]));
    assert!(register.take_due(loaded + CONFIRM_GAP * 3).is_empty(), "and only once");
}

#[test]
fn test_confirmation_register_owes_every_branch_loaded_together() {
    let mut register = ConfirmationRegister::default();
    let loaded = T0;
    register.arm(&names(&["bluez_output.A", "bluez_output.B"]), loaded);
    assert_eq!(register.take_due(loaded + CONFIRM_GAP), names(&["bluez_output.A", "bluez_output.B"]));
}

#[test]
fn test_confirmation_register_times_each_branch_from_its_own_load() {
    let mut register = ConfirmationRegister::default();
    let first = T0;
    let later = first + 3_000;
    register.arm(&names(&["bluez_output.A", "bluez_output.B"]), first);
    register.arm(&names(&["bluez_output.B"]), later);
    assert_eq!(register.take_due(first + CONFIRM_GAP), names(&["bluez_output.A"]));
    assert_eq!(register.take_due(later + CONFIRM_GAP), names(&["bluez_output.B"]));
}

#[test]
fn test_confirmation_register_owes_nothing_it_was_not_armed_with() {
    let mut register = ConfirmationRegister::default();
    let start = T0;
    register.arm(&names(&[""]), start);
    for tick in 0..10 {
        assert!(register.take_due(start + CONFIRM_GAP * tick).is_empty(), "tick {tick} owes nothing");
    }
}

#[test]
fn test_confirm_gap_is_at_least_the_measured_five_seconds() {
    assert!(CONFIRM_GAP >= 5_000);
    assert_eq!(CONFIRM_GAP, BRANCH_REPAIR_TICK);
}

#[test]
fn test_confirmation_register_clear_forgets_every_armed_reload() {
    let mut register = ConfirmationRegister::new();
    let loaded = T0;
    register.arm(&names(&["bluez_output.A"]), loaded);
    register.clear();
    assert!(register.take_due(loaded + CONFIRM_GAP).is_empty());
}

#[test]
fn test_null_output_accepts_every_command() {
    let mut out = NullOutput;
    assert!(out.start(&[]).is_ok());
    assert!(out.pause().is_ok());
    assert!(out.resume().is_ok());
    assert!(out.stop().is_ok());
    assert!(!out.is_finished());
}

#[test]
fn test_new_engine_starts_stopped() {
    let engine = AudioEngine::new();
    assert_eq!(engine.status(), PlaybackStatus::Stopped);
}

#[test]
fn test_playback_state_machine_full_cycle() {
    let mut engine = AudioEngine::new();

    let state = engine.play().expect("play succeeds");
    assert_eq!(state, PlaybackStatus::Playing);

    let state = engine.pause().expect("pause succeeds");
    assert_eq!(state, PlaybackStatus::Paused);

    let state = engine.play().expect("resume succeeds");
    assert_eq!(state, PlaybackStatus::Playing);

    let state = engine.stop().expect("stop succeeds");
    assert_eq!(state, PlaybackStatus::Stopped);
}

#[test]
fn test_pause_while_stopped_is_idempotent() {
    let mut engine = AudioEngine::new();
    let state = engine.pause().expect("idempotent pause succeeds");
    assert_eq!(state, PlaybackStatus::Stopped);
}

#[test]
fn test_stop_while_stopped_is_idempotent() {
    let mut engine = AudioEngine::new();
    let state = engine.stop().expect("idempotent stop succeeds");
    assert_eq!(state, PlaybackStatus::Stopped);
}

/// An output that records its calls, finishes on demand and can be made to fail.
struct ScriptedOutput {
    calls: std::rc::Rc<RefCell<Vec<&'static str>>>,
    finished: bool,
    fail: bool,
}

impl AudioOutput for ScriptedOutput {
    fn start(&mut self, tone: &'static [u8]) -> Result<(), AudioError> {
        assert_eq!(tone, b"tone");
        self.calls.borrow_mut().push("start");
        if self.fail { Err(AudioError::Decode("bad file".to_string())) } else { Ok(()) }
    }
    fn resume(&mut self) -> Result<(), AudioError> {
        self.calls.borrow_mut().push("resume");
        Ok(())
    }
    fn pause(&mut self) -> Result<(), AudioError> {
        self.calls.borrow_mut().push("pause");
        Ok(())
    }
    fn stop(&mut self) -> Result<(), AudioError> {
        self.calls.borrow_mut().push("stop");
        Ok(())
    }
    fn is_finished(&self) -> bool {
        self.finished
    }
}

#[test]
fn engine_drives_the_output_and_stays_put_when_it_fails() {
    let calls = std::rc::Rc::new(RefCell::new(Vec::new()));
    let mut engine = AudioEngine::with_output(
        ScriptedOutput { calls: calls.clone(), finished: false, fail: true },
        b"tone",
    );
    assert!(matches!(engine.play(), Err(AudioError::Decode(_))));
    assert_eq!(engine.status(), PlaybackStatus::Stopped);
    assert_eq!(*calls.borrow(), vec!["start"]);
}

#[test]
fn engine_falls_back_to_stopped_once_the_tone_ends() {
    let calls = std::rc::Rc::new(RefCell::new(Vec::new()));
    let mut engine = AudioEngine::with_output(
        ScriptedOutput { calls: calls.clone(), finished: true, fail: false },
        b"tone",
    );
    assert_eq!(engine.play().expect("starts"), PlaybackStatus::Playing);
    assert_eq!(engine.poll_state(), PlaybackStatus::Stopped);
    assert_eq!(engine.play().expect("starts again"), PlaybackStatus::Playing);
    assert_eq!(engine.pause().expect("finished output"), PlaybackStatus::Stopped);
    assert_eq!(*calls.borrow(), vec!["start", "start"]);
}
