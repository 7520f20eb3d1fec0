//! The `pactl` listing parsers and the invocation description.

use blue2th_server::audio::CombineBranch;
use blue2th_server::graph::LoadedBranch;
use blue2th_server::graph_pactl::{
    build_pactl_command, check_teardown_name, dead_branch_modules, first_percent, loaded_branches,
    loaded_branches_with_liveness, loopback_module_args, module_is_live, module_line_matches,
    modules_to_unload, null_sink_module_args, parse_sink_inputs, sink_input_liveness,
    SinkInputStream, INVALID_SINK_INDEX,
};

const PACTL_MODULES: &str = "10\tmodule-device-restore\t\n\
    26\tmodule-null-sink\tsink_name=blue2th_combined sink_properties=node.description=blue2th_combined\n\
    27\tmodule-loopback\tsource=blue2th_combined.monitor sink=bluez_output.80_99_E7_63_50_29.1 latency_msec=50 source_dont_move=true sink_dont_move=true\n\
    28\tmodule-loopback\tsource=blue2th_combined.monitor sink=bluez_output.11_22_33_44_55_66.1 latency_msec=300 source_dont_move=true sink_dont_move=true\n\
    29\tmodule-loopback\tsource=other_combined.monitor sink=bluez_output.AA_BB_CC_DD_EE_FF.1 latency_msec=120 source_dont_move=true sink_dont_move=true\n\
    30\tmodule-loopback\tsource=alsa_input.pci-0000_00_1f.3.analog-stereo sink=blue2th_combined latency_msec=40\n\
    31\tmodule-switch-on-connect\t\n\
    536870915\tmodule-remap-sink\tsink_name=remap source=blue2th_combined.monitor sink=bluez_output.99_88_77_66_55_44.1 latency_msec=0\n\
    536870916\tmodule-loopback\tsource=alsa_input.pci-0000_00_1f.3.analog-stereo sink=bluez_output.99_88_77_66_55_44.1 latency_msec=0 sink_properties=media.name=source=blue2th_combined.monitor\n\
    536870917\tmodule-loopback\tsource=blue2th_combined.monitor sink= latency_msec=20\t\n";

const PACTL_SINK_INPUTS: &str = "Sink Input #135\n\
    \tDriver: PipeWire\n\
    \tOwner Module: n/a\n\
    \tClient: 134\n\
    \tSink: 5691\n\
    \tProperties:\n\
    \t\tapplication.name = \"speech-dispatcher-dummy\"\n\
    \t\tnode.name = \"speech-dispatcher-dummy\"\n\
    \n\
    Sink Input #28098\n\
    \tDriver: PipeWire\n\
    \tOwner Module: 27\n\
    \tClient: n/a\n\
    \tSink: 28091\n\
    \tProperties:\n\
    \t\tnode.name = \"output.loopback-6815-13\"\n\
    \t\tmedia.name = \"loopback-6815-13 output\"\n\
    \n\
    Sink Input #28099\n\
    \tDriver: PipeWire\n\
    \tOwner Module: 28\n\
    \tClient: n/a\n\
    \tSink: 4294967295\n\
    \tProperties:\n\
    \t\tnode.name = \"output.loopback-6815-14\"\n\
    \t\tmedia.name = \"loopback-6815-14 output\"\n";

const PACTL_SINK_INPUTS_FR: &str = "Entrée de la destination #135\n\
    \tPilote : PipeWire\n\
    \tModule du propriétaire : n/d\n\
    \tClient : 134\n\
    \tDestination : 29979\n\
    \tSpécification de l’échantillon : s16le 1ch 44100Hz\n\
    Entrée de la destination #31519\n\
    \tPilote : PipeWire\n\
    \tModule du propriétaire : 536870917\n\
    \tClient : n/d\n\
    \tDestination : 31506\n\
    \tSpécification de l’échantillon : float32le 2ch 48000Hz\n";

#[test]
fn test_loaded_branches_ignores_a_non_loopback_module_shaped_like_a_branch() {
    assert!(
        !loaded_branches(PACTL_MODULES, "blue2th_combined", None)
            .iter()
            .any(|b| b.sink.contains("99_88_77_66_55_44")),
        "only module-loopback lines are branches"
    );
}

#[test]
fn test_loaded_branches_ignores_a_loopback_whose_source_only_contains_ours() {
    let line = "536870916\tmodule-loopback\tsource=alsa_input.pci-0000_00_1f.3.analog-stereo sink=bluez_output.99_88_77_66_55_44.1 latency_msec=0 sink_properties=media.name=source=blue2th_combined.monitor\n";
    assert!(
        line.contains("source=blue2th_combined.monitor"),
        "the line does contain the marker, so only a token-wise match rejects it"
    );
    assert!(
        loaded_branches(line, "blue2th_combined", None).is_empty(),
        "the marker sits inside another token, so this is not one of our branches"
    );
}

#[test]
fn test_loaded_branches_skips_a_loopback_whose_sink_names_no_node() {
    let branches = loaded_branches(PACTL_MODULES, "blue2th_combined", None);
    assert!(branches.iter().all(|b| !b.sink.is_empty()), "a branch must name a node, got {branches:?}");
    assert!(
        PACTL_MODULES
            .lines()
            .filter(|l| l.contains("source=blue2th_combined.monitor"))
            .all(|l| l.contains("sink=")),
        "the unload pattern an empty sink builds matches every branch line"
    );
}

#[test]
fn test_loaded_branches_reads_each_loopback_sink_and_latency() {
    let branches = loaded_branches(PACTL_MODULES, "blue2th_combined", None);
    assert_eq!(
        branches,
        vec![
            CombineBranch { sink: "bluez_output.80_99_E7_63_50_29.1".to_string(), latency_ms: 50 },
            CombineBranch { sink: "bluez_output.11_22_33_44_55_66.1".to_string(), latency_ms: 300 },
        ],
        "the two loopbacks fed by blue2th_combined.monitor, with their latencies"
    );
}

#[test]
fn test_loaded_branches_ignores_other_sinks_and_non_loopback_modules() {
    let branches = loaded_branches(PACTL_MODULES, "blue2th_combined", None);
    assert!(
        !branches.iter().any(|b| b.sink.contains("AA_BB_CC_DD_EE_FF")),
        "a loopback of another combined sink is not one of our branches: {branches:?}"
    );
    assert!(
        !branches.iter().any(|b| b.sink.contains("blue2th_combined")),
        "neither the null sink nor a loopback feeding into it is a branch: {branches:?}"
    );
}

#[test]
fn test_loaded_branches_reads_only_the_named_sinks_branches() {
    let branches = loaded_branches(PACTL_MODULES, "other_combined", None);
    assert_eq!(
        branches,
        vec![CombineBranch { sink: "bluez_output.AA_BB_CC_DD_EE_FF.1".to_string(), latency_ms: 120 }],
        "only the loopback fed by other_combined.monitor"
    );
}

#[test]
fn test_loaded_branches_without_a_matching_module_is_empty() {
    assert!(loaded_branches("", "blue2th_combined", None).is_empty());
    assert!(loaded_branches(
        "10\tmodule-device-restore\t\n31\tmodule-switch-on-connect\t\n",
        "blue2th_combined",
        None
    )
    .is_empty());
    assert!(
        loaded_branches("27\tmodule-loopback", "blue2th_combined", None).is_empty(),
        "a truncated line names no sink and no latency, so it is no branch"
    );
}

#[test]
fn test_parse_sink_inputs_reads_each_streams_module_and_sink() {
    let streams = parse_sink_inputs(PACTL_SINK_INPUTS);
    assert_eq!(
        streams,
        vec![
            SinkInputStream { owner_module: 27, sink: 28091 },
            SinkInputStream { owner_module: 28, sink: INVALID_SINK_INDEX },
        ],
        "one entry per stream owning a module, with the sink it feeds"
    );
}

#[test]
fn test_parse_sink_inputs_skips_a_stream_owning_no_module() {
    let streams = parse_sink_inputs(PACTL_SINK_INPUTS);
    assert!(!streams.iter().any(|s| s.sink == 5691), "the sink of the `n/a` client must not appear: {streams:?}");
    assert_eq!(streams.len(), 2, "only the two module-owned streams");
}

#[test]
fn test_module_is_live_with_a_stream_on_a_real_sink_is_live() {
    let streams = parse_sink_inputs(PACTL_SINK_INPUTS);
    assert!(module_is_live(&streams, 27), "module 27's stream feeds sink 28091, so the branch carries audio");
}

#[test]
fn test_module_is_live_with_a_stream_on_the_invalid_sink_is_not_live() {
    let streams = parse_sink_inputs(PACTL_SINK_INPUTS);
    assert!(!module_is_live(&streams, 28), "a stream on {INVALID_SINK_INDEX} feeds nothing, so the branch is dead");
}

#[test]
fn test_module_is_live_without_any_stream_is_not_live() {
    let streams = parse_sink_inputs(PACTL_SINK_INPUTS);
    assert!(!streams.iter().any(|s| s.owner_module == 29), "module 29 owns no stream in the fixture");
    assert!(!module_is_live(&streams, 29), "no stream at all is as dead as a stream on the invalid sink");
}

#[test]
fn test_loaded_branches_drops_a_branch_whose_module_is_not_live() {
    let streams = parse_sink_inputs(PACTL_SINK_INPUTS);
    let branches = loaded_branches(PACTL_MODULES, "blue2th_combined", Some(&streams));
    assert_eq!(
        branches,
        vec![CombineBranch { sink: "bluez_output.80_99_E7_63_50_29.1".to_string(), latency_ms: 50 }],
        "module 28's loopback feeds nothing, so its branch is absent"
    );
}

#[test]
fn test_parse_sink_inputs_of_an_unreadable_listing_yields_no_streams() {
    assert!(parse_sink_inputs("").is_empty());
    assert!(
        parse_sink_inputs("Sink Input #28098\n\tDriver: PipeWire\n").is_empty(),
        "a stream naming neither module nor sink is no stream"
    );
}

#[test]
fn test_sink_input_liveness_of_an_unreadable_listing_is_unknown() {
    assert!(sink_input_liveness("").is_none(), "an empty listing tells us nothing about any branch");
    assert!(sink_input_liveness(PACTL_SINK_INPUTS).is_some(), "a listing that parses does tell us");
}

#[test]
fn test_build_pactl_command_forces_the_c_locale() {
    let described = build_pactl_command(&["list", "sink-inputs"]);
    assert!(
        described.env.iter().any(|(key, value)| key == "LC_ALL" && value == "C"),
        "the invocation must force LC_ALL=C: {described:?}"
    );
}

#[test]
fn test_build_pactl_command_keeps_program_and_arguments_unchanged() {
    let described = build_pactl_command(&["list", "short", "modules"]);
    assert_eq!(described.program, "pactl");
    assert_eq!(
        described.args,
        vec!["list".to_string(), "short".to_string(), "modules".to_string()],
        "the arguments must travel through untouched: {described:?}"
    );
}

#[test]
fn test_build_pactl_command_forces_the_locale_for_every_call_site() {
    for args in [
        vec!["list", "short", "modules"],
        vec!["list", "sink-inputs"],
        vec!["list", "short", "sinks"],
        vec!["load-module", "module-null-sink"],
        vec!["unload-module", "536870917"],
        vec!["set-default-sink", "blue2th_combined"],
        vec!["set-sink-volume", "blue2th_combined", "50%"],
        vec!["get-sink-volume", "blue2th_combined"],
    ] {
        let described = build_pactl_command(&args);
        assert!(
            described.env.iter().any(|(key, value)| key == "LC_ALL" && value == "C"),
            "every pactl call site must force the locale, {args:?} does not"
        );
        assert_eq!(
            described.args,
            args.iter().map(|a| a.to_string()).collect::<Vec<_>>(),
            "adding the locale must not rewrite the arguments of {args:?}"
        );
    }
}

#[test]
fn test_parse_sink_inputs_of_a_french_listing_yields_no_streams() {
    let streams = parse_sink_inputs(PACTL_SINK_INPUTS_FR);
    assert!(streams.is_empty(), "a translated listing names no field the parser knows: {streams:?}");
}

#[test]
fn test_sink_input_liveness_of_a_french_listing_is_unknown() {
    assert!(
        sink_input_liveness(PACTL_SINK_INPUTS_FR).is_none(),
        "an untranslated parser learns nothing from a translated listing"
    );
}

#[test]
fn test_invalid_sink_index_is_the_number_pactl_prints() {
    assert_eq!(INVALID_SINK_INDEX, 4_294_967_295);
    assert!(PACTL_SINK_INPUTS.contains("Sink: 4294967295"), "the fixture must carry the literal the parser has to read");
}

#[test]
fn test_dead_branch_modules_names_the_module_of_a_branch_feeding_nothing() {
    let streams = parse_sink_inputs(PACTL_SINK_INPUTS);
    assert_eq!(
        dead_branch_modules(PACTL_MODULES, "blue2th_combined", Some(&streams)),
        vec![28],
        "only the loopback whose stream feeds nothing is unloaded by id"
    );
}

#[test]
fn test_dead_branch_modules_never_names_a_live_branchs_module() {
    let streams = vec![
        SinkInputStream { owner_module: 27, sink: 28091 },
        SinkInputStream { owner_module: 28, sink: 28092 },
    ];
    assert!(
        dead_branch_modules(PACTL_MODULES, "blue2th_combined", Some(&streams)).is_empty(),
        "both loopbacks feed a real sink, so neither is stale"
    );
    assert_eq!(
        loaded_branches(PACTL_MODULES, "blue2th_combined", Some(&streams)).len(),
        2,
        "and both are still counted as branches"
    );
}

#[test]
fn test_dead_branch_modules_with_unknown_liveness_names_nothing() {
    assert!(
        dead_branch_modules(PACTL_MODULES, "blue2th_combined", None).is_empty(),
        "with liveness unknown no module may be unloaded"
    );
}

#[test]
fn test_dead_branch_modules_names_the_id_pactl_printed() {
    let listing = "10\tmodule-device-restore\t\n\
        536870917\tmodule-loopback\tsource=blue2th_combined.monitor sink=bluez_output.80_99_E7_63_50_29.1 latency_msec=50 sink_dont_move=true\n";
    let streams = vec![SinkInputStream { owner_module: 536_870_917, sink: INVALID_SINK_INDEX }];
    assert_eq!(
        dead_branch_modules(listing, "blue2th_combined", Some(&streams)),
        vec![536_870_917],
        "the module id comes from the listing's first column"
    );
}

#[test]
fn test_loaded_branches_with_liveness_reports_each_branch_as_live_dead_or_unknown() {
    let streams = parse_sink_inputs(PACTL_SINK_INPUTS);
    let read = loaded_branches_with_liveness(PACTL_MODULES, "blue2th_combined", Some(&streams));
    assert_eq!(
        read,
        vec![
            LoadedBranch {
                id: 27,
                branch: CombineBranch { sink: "bluez_output.80_99_E7_63_50_29.1".to_string(), latency_ms: 50 },
                live: Some(true),
            },
            LoadedBranch {
                id: 28,
                branch: CombineBranch { sink: "bluez_output.11_22_33_44_55_66.1".to_string(), latency_ms: 300 },
                live: Some(false),
            },
        ],
        "one entry per loopback of the combined sink, with its module id and liveness"
    );
    let unknown = loaded_branches_with_liveness(PACTL_MODULES, "blue2th_combined", None);
    assert_eq!(
        unknown.iter().map(|b| b.live).collect::<Vec<_>>(),
        vec![None, None],
        "with no sink-input listing no branch is ruled dead, and none is ruled live"
    );
}

#[test]
fn test_module_line_matches_never_matches_an_empty_pattern() {
    let lines: Vec<&str> = PACTL_MODULES.lines().collect();
    assert!(lines.iter().all(|line| !module_line_matches(line, &[""])), "an empty pattern matches no line");
    assert!(lines.iter().all(|line| !module_line_matches(line, &[])), "no pattern at all matches no line");
    assert!(
        lines.iter().all(|line| !module_line_matches(line, &["blue2th_combined", ""])),
        "an empty pattern among real ones still matches nothing"
    );
    assert_eq!(
        lines.iter().filter(|line| module_line_matches(line, &["blue2th_combined"])).count(),
        7,
        "a real pattern matches the lines that carry it: {lines:?}"
    );
}

#[test]
fn test_sink_input_liveness_carries_the_parsed_streams() {
    assert_eq!(
        sink_input_liveness(PACTL_SINK_INPUTS),
        Some(vec![
            SinkInputStream { owner_module: 27, sink: 28091 },
            SinkInputStream { owner_module: 28, sink: INVALID_SINK_INDEX },
        ])
    );
}

#[test]
fn test_loaded_branches_with_unknown_liveness_keeps_every_branch() {
    let unknown = sink_input_liveness("");
    let loaded = loaded_branches(PACTL_MODULES, "blue2th_combined", unknown.as_deref());
    assert_eq!(loaded.len(), 2, "cannot tell is not everything is dead");
}

#[test]
fn first_percent_reads_the_first_volume_percentage() {
    let line = "Volume: front-left: 38666 /  59% / -13.75 dB,   front-right: 38666 /  59%";
    assert_eq!(first_percent(line), Some(59));
    assert_eq!(first_percent("Volume: front-left: 0 / 0% / -inf dB"), Some(0));
    assert_eq!(first_percent("no percentage here"), None);
    assert_eq!(first_percent("over-amplified: 153%"), Some(153));
    assert_eq!(first_percent("% first"), None);
    assert_eq!(first_percent("99999999999%"), None);
}

#[test]
fn modules_to_unload_names_every_module_carrying_all_the_patterns() {
    assert_eq!(
        modules_to_unload(PACTL_MODULES, &["blue2th_combined"]),
        vec!["26", "27", "28", "30", "536870915", "536870916", "536870917"]
    );
    assert_eq!(
        modules_to_unload(PACTL_MODULES, &["module-loopback", "sink=bluez_output.AA_BB_CC_DD_EE_FF.1"]),
        vec!["29"]
    );
    assert!(modules_to_unload(PACTL_MODULES, &[""]).is_empty());
    assert!(modules_to_unload(PACTL_MODULES, &[]).is_empty());
}

#[test]
fn module_load_arguments_name_the_combined_sink_and_pin_the_branch() {
    assert_eq!(
        null_sink_module_args("blue2th_combined"),
        vec![
            "module-null-sink",
            "sink_name=blue2th_combined",
            "sink_properties=node.description=blue2th_combined"
        ]
    );
    let args = loopback_module_args("blue2th_combined", "bluez_output.80_99_E7_63_50_29.1", 120);
    assert_eq!(
        args,
        vec![
            "module-loopback",
            "source=blue2th_combined.monitor",
            "sink=bluez_output.80_99_E7_63_50_29.1",
            "latency_msec=120",
            "source_dont_move=true",
            "sink_dont_move=true"
        ]
    );
    let line = format!("41\t{}\t{}", args[0], args[1..].join(" "));
    let read = loaded_branches(&line, "blue2th_combined", None);
    assert_eq!(
        read,
        vec![CombineBranch { sink: "bluez_output.80_99_E7_63_50_29.1".to_string(), latency_ms: 120 }],
        "a branch loaded with these arguments reads back as the same branch"
    );
}

#[test]
fn a_teardown_refuses_an_empty_name() {
    assert!(check_teardown_name("blue2th_combined").is_ok());
    match check_teardown_name("") {
        Err(blue2th_server::audio::AudioError::PipeWire(m)) => {
            assert_eq!(m, "cannot tear down a combined sink with no name")
        },
        other => panic!("expected a refusal, got {other:?}"),
    }
}
