//! The router driven through an in-memory graph. Every assertion is made on
//! the calls the graph recorded, against literals. Times are milliseconds.

use std::sync::{Arc, Mutex, MutexGuard};

use blue2th_server::audio::{
    branch_ids_feeding, bluez_sink_prefix, combine_sink_plan, repair_plan, AudioError, AudioRouter, CombineBranch,
    RepairPlan, SpeakerTarget, CONFIRM_GAP,
};
use blue2th_server::graph::{Graph, LoadedBranch};

// ─── The in-memory graph ─────────────────────────────────────────────────

/// One call the fake received. Reads are recorded too, so a test can assert
/// that the graph was not even looked at.
#[derive(Debug, Clone, PartialEq)]
enum GraphCall {
    Sinks,
    Branches { sink_name: String },
    SinkVolume { sink: String },
    CreateCombinedSink { sink_name: String },
    LoadBranch { sink_name: String, real_sink: String, latency_ms: u32 },
    UnloadBranch { id: u32 },
    SetBranchDelay { id: u32, delay_ms: u32 },
    Teardown { sink_name: String },
    SetDefaultSink { sink: String },
    SetSinkVolume { sink: String, level: f32 },
}

impl GraphCall {
    /// Whether the call changes the graph, as opposed to reading it.
    fn is_mutating(&self) -> bool {
        !matches!(self, GraphCall::Sinks | GraphCall::Branches { .. } | GraphCall::SinkVolume { .. })
    }
}

/// The method a failure rule applies to.
#[derive(Debug, Clone, Copy, PartialEq, Eq)]
enum GraphOp {
    Sinks,
    Branches,
    CreateCombinedSink,
    LoadBranch,
    UnloadBranch,
    SetBranchDelay,
    Teardown,
    SetDefaultSink,
    SinkVolume,
    SetSinkVolume,
}

/// Fail calls to `op`: every one, only those naming `node`, and only once
/// `skip` matching calls have been let through.
#[derive(Debug)]
struct FailRule {
    op: GraphOp,
    node: Option<String>,
    skip: usize,
}

#[derive(Debug)]
struct SeededBranch {
    combined: String,
    loaded: LoadedBranch,
}

#[derive(Debug)]
struct State {
    sinks: Vec<String>,
    branches: Vec<SeededBranch>,
    volumes: Vec<(String, f32)>,
    default_sink: Option<String>,
    next_id: u32,
    new_branch_liveness: Option<bool>,
    log: Vec<GraphCall>,
    rules: Vec<FailRule>,
    empty_names_refused: usize,
}

/// The in-memory graph. Cloning it clones a handle: every clone reads and
/// writes the same state, which is how a test keeps looking at the graph after
/// the router has taken ownership of it.
#[derive(Debug, Clone)]
struct FakeGraph {
    state: Arc<Mutex<State>>,
}

impl FakeGraph {
    fn new() -> Self {
        Self {
            state: Arc::new(Mutex::new(State {
                sinks: Vec::new(),
                branches: Vec::new(),
                volumes: Vec::new(),
                default_sink: None,
                next_id: 1,
                new_branch_liveness: Some(true),
                log: Vec::new(),
                rules: Vec::new(),
                empty_names_refused: 0,
            })),
        }
    }

    fn with_sinks(sinks: &[&str]) -> Self {
        let fake = Self::new();
        for sink in sinks {
            fake.add_sink(sink);
        }
        fake
    }

    fn state(&self) -> MutexGuard<'_, State> {
        self.state.lock().unwrap_or_else(|poisoned| poisoned.into_inner())
    }

    fn add_sink(&self, name: &str) {
        let mut state = self.state();
        if !state.sinks.iter().any(|s| s == name) {
            state.sinks.push(name.to_string());
        }
    }

    fn remove_sink(&self, name: &str) {
        self.state().sinks.retain(|s| s != name);
    }

    fn seed_branch(&self, combined: &str, real_sink: &str, latency_ms: u32, live: Option<bool>) -> u32 {
        let mut state = self.state();
        let id = state.next_id;
        state.next_id += 1;
        state.branches.push(SeededBranch {
            combined: combined.to_string(),
            loaded: LoadedBranch { id, branch: CombineBranch { sink: real_sink.to_string(), latency_ms }, live },
        });
        id
    }

    fn set_new_branch_liveness(&self, live: Option<bool>) {
        self.state().new_branch_liveness = live;
    }

    fn set_branch_liveness(&self, id: u32, live: Option<bool>) {
        for branch in self.state().branches.iter_mut().filter(|b| b.loaded.id == id) {
            branch.loaded.live = live;
        }
    }

    fn set_volume(&self, sink: &str, level: f32) {
        let mut state = self.state();
        state.volumes.retain(|(name, _)| name != sink);
        state.volumes.push((sink.to_string(), level));
    }

    fn fail(&self, op: GraphOp) {
        self.state().rules.push(FailRule { op, node: None, skip: 0 });
    }

    fn fail_for(&self, op: GraphOp, node: &str) {
        self.state().rules.push(FailRule { op, node: Some(node.to_string()), skip: 0 });
    }

    fn clear_failures(&self) {
        self.state().rules.clear();
    }

    fn fail_after(&self, op: GraphOp, successes: usize) {
        self.state().rules.push(FailRule { op, node: None, skip: successes });
    }

    fn calls(&self) -> Vec<GraphCall> {
        self.state().log.iter().filter(|call| call.is_mutating()).cloned().collect()
    }

    fn all_calls(&self) -> Vec<GraphCall> {
        self.state().log.clone()
    }

    fn clear_calls(&self) {
        self.state().log.clear();
    }

    fn loaded(&self, combined: &str) -> Vec<LoadedBranch> {
        self.state().branches.iter().filter(|b| b.combined == combined).map(|b| b.loaded.clone()).collect()
    }

    fn sink_names(&self) -> Vec<String> {
        self.state().sinks.clone()
    }

    fn default_sink(&self) -> Option<String> {
        self.state().default_sink.clone()
    }

    fn empty_names_refused(&self) -> usize {
        self.state().empty_names_refused
    }

    /// The volume of `sink`, recorded as a read.
    fn sink_volume(&mut self, sink: &str) -> Option<f32> {
        let mut state = self.state();
        state.log.push(GraphCall::SinkVolume { sink: sink.to_string() });
        state.refuse_empty(GraphOp::SinkVolume, &[sink]).ok()?;
        state.volumes.iter().find(|(name, _)| name == sink).map(|(_, level)| *level)
    }

    /// Set the volume of `sink`, recorded as a write.
    fn set_sink_volume(&mut self, sink: &str, level: f32) -> Result<(), AudioError> {
        let mut state = self.state();
        state.log.push(GraphCall::SetSinkVolume { sink: sink.to_string(), level });
        state.refuse_empty(GraphOp::SetSinkVolume, &[sink])?;
        state.check(GraphOp::SetSinkVolume, sink)?;
        if !state.sinks.iter().any(|s| s == sink) {
            return Err(AudioError::PipeWire(format!("fake graph: no such sink {sink}")));
        }
        state.volumes.retain(|(name, _)| name != sink);
        state.volumes.push((sink.to_string(), level));
        Ok(())
    }
}

impl State {
    fn refuse_empty(&mut self, op: GraphOp, names: &[&str]) -> Result<(), AudioError> {
        if names.iter().any(|name| name.is_empty()) {
            self.empty_names_refused += 1;
            return Err(AudioError::PipeWire(format!("fake graph: {op:?} received an empty node name")));
        }
        Ok(())
    }

    fn check(&mut self, op: GraphOp, node: &str) -> Result<(), AudioError> {
        for rule in &mut self.rules {
            if rule.op != op || rule.node.as_deref().is_some_and(|n| n != node) {
                continue;
            }
            if rule.skip > 0 {
                rule.skip -= 1;
                continue;
            }
            return Err(AudioError::PipeWire(format!("fake graph: {op:?} told to fail for {node}")));
        }
        Ok(())
    }
}

impl Graph for FakeGraph {
    fn sinks(&mut self) -> Result<Vec<String>, AudioError> {
        let mut state = self.state();
        state.log.push(GraphCall::Sinks);
        state.check(GraphOp::Sinks, "")?;
        Ok(state.sinks.clone())
    }

    fn branches(&mut self, sink_name: &str) -> Result<Vec<LoadedBranch>, AudioError> {
        let mut state = self.state();
        state.log.push(GraphCall::Branches { sink_name: sink_name.to_string() });
        state.refuse_empty(GraphOp::Branches, &[sink_name])?;
        state.check(GraphOp::Branches, sink_name)?;
        Ok(state.branches.iter().filter(|b| b.combined == sink_name).map(|b| b.loaded.clone()).collect())
    }

    fn create_combined_sink(&mut self, sink_name: &str) -> Result<(), AudioError> {
        let mut state = self.state();
        state.log.push(GraphCall::CreateCombinedSink { sink_name: sink_name.to_string() });
        state.refuse_empty(GraphOp::CreateCombinedSink, &[sink_name])?;
        state.check(GraphOp::CreateCombinedSink, sink_name)?;
        if !state.sinks.iter().any(|s| s == sink_name) {
            state.sinks.push(sink_name.to_string());
        }
        Ok(())
    }

    fn load_branch(&mut self, sink_name: &str, real_sink: &str, latency_ms: u32) -> Result<(), AudioError> {
        let mut state = self.state();
        state.log.push(GraphCall::LoadBranch {
            sink_name: sink_name.to_string(),
            real_sink: real_sink.to_string(),
            latency_ms,
        });
        state.refuse_empty(GraphOp::LoadBranch, &[sink_name, real_sink])?;
        state.check(GraphOp::LoadBranch, real_sink)?;
        for end in [sink_name, real_sink] {
            if !state.sinks.iter().any(|s| s == end) {
                return Err(AudioError::PipeWire(format!("fake graph: no such sink {end}")));
            }
        }
        let id = state.next_id;
        state.next_id += 1;
        let live = state.new_branch_liveness;
        state.branches.push(SeededBranch {
            combined: sink_name.to_string(),
            loaded: LoadedBranch { id, branch: CombineBranch { sink: real_sink.to_string(), latency_ms }, live },
        });
        Ok(())
    }

    fn unload_branch(&mut self, id: u32) -> Result<(), AudioError> {
        let mut state = self.state();
        state.log.push(GraphCall::UnloadBranch { id });
        state.check(GraphOp::UnloadBranch, &id.to_string())?;
        state.branches.retain(|b| b.loaded.id != id);
        Ok(())
    }

    fn set_branch_delay(&mut self, id: u32, delay_ms: u32) -> Result<(), AudioError> {
        let mut state = self.state();
        state.log.push(GraphCall::SetBranchDelay { id, delay_ms });
        state.check(GraphOp::SetBranchDelay, &id.to_string())?;
        let branch = state
            .branches
            .iter_mut()
            .find(|b| b.loaded.id == id)
            .ok_or_else(|| AudioError::PipeWire(format!("fake graph: no branch {id}")))?;
        branch.loaded.branch.latency_ms = delay_ms;
        Ok(())
    }

    fn teardown(&mut self, sink_name: &str) -> Result<(), AudioError> {
        let mut state = self.state();
        state.log.push(GraphCall::Teardown { sink_name: sink_name.to_string() });
        state.refuse_empty(GraphOp::Teardown, &[sink_name])?;
        state.check(GraphOp::Teardown, sink_name)?;
        state.sinks.retain(|s| s != sink_name);
        state.branches.retain(|b| b.combined != sink_name);
        Ok(())
    }

    fn set_default_sink(&mut self, sink: &str) -> Result<(), AudioError> {
        let mut state = self.state();
        state.log.push(GraphCall::SetDefaultSink { sink: sink.to_string() });
        state.refuse_empty(GraphOp::SetDefaultSink, &[sink])?;
        state.check(GraphOp::SetDefaultSink, sink)?;
        if !state.sinks.iter().any(|s| s == sink) {
            return Err(AudioError::PipeWire(format!("fake graph: no such sink {sink}")));
        }
        state.default_sink = Some(sink.to_string());
        Ok(())
    }
}

// ─── The in-memory graph itself ──────────────────────────────────────────

const COMBINED: &str = "blue2th_combined";
const SPEAKER: &str = "bluez_output.AA_BB_CC_DD_EE_01.1";

#[test]
fn test_fake_graph_refuses_an_empty_node_name() {
    let mut fake = FakeGraph::with_sinks(&[COMBINED, SPEAKER]);
    assert!(matches!(fake.branches(""), Err(AudioError::PipeWire(_))));
    assert!(matches!(fake.create_combined_sink(""), Err(AudioError::PipeWire(_))));
    assert!(matches!(fake.load_branch(COMBINED, "", 50), Err(AudioError::PipeWire(_))));
    assert!(matches!(fake.load_branch("", SPEAKER, 50), Err(AudioError::PipeWire(_))));
    assert!(matches!(fake.teardown(""), Err(AudioError::PipeWire(_))));
    assert!(matches!(fake.set_default_sink(""), Err(AudioError::PipeWire(_))));
    assert!(matches!(fake.set_sink_volume("", 0.5), Err(AudioError::PipeWire(_))));
    assert!(fake.sink_volume("").is_none());
    assert_eq!(fake.empty_names_refused(), 8);
    assert_eq!(fake.sink_names(), vec![COMBINED, SPEAKER]);
    assert!(fake.loaded(COMBINED).is_empty());
}

#[test]
fn test_fake_graph_lists_a_loaded_branch_until_it_is_unloaded() {
    let mut fake = FakeGraph::with_sinks(&[SPEAKER]);
    fake.create_combined_sink(COMBINED).unwrap();
    fake.load_branch(COMBINED, SPEAKER, 70).unwrap();
    let loaded = fake.branches(COMBINED).unwrap();
    assert_eq!(loaded.len(), 1);
    assert_eq!(loaded[0].branch.sink, SPEAKER);
    assert_eq!(loaded[0].branch.latency_ms, 70);
    assert_eq!(loaded[0].live, Some(true));
    fake.unload_branch(loaded[0].id).unwrap();
    assert!(fake.branches(COMBINED).unwrap().is_empty());
}

#[test]
fn test_fake_graph_teardown_removes_the_sink_and_its_branches() {
    let mut fake = FakeGraph::with_sinks(&[SPEAKER]);
    fake.create_combined_sink(COMBINED).unwrap();
    assert_eq!(fake.sinks().unwrap(), vec![SPEAKER, COMBINED]);
    fake.load_branch(COMBINED, SPEAKER, 50).unwrap();
    fake.teardown(COMBINED).unwrap();
    assert_eq!(fake.sinks().unwrap(), vec![SPEAKER]);
    assert!(fake.branches(COMBINED).unwrap().is_empty());
}

#[test]
fn test_fake_graph_records_mutating_calls_in_order() {
    let mut fake = FakeGraph::with_sinks(&[SPEAKER]);
    fake.create_combined_sink(COMBINED).unwrap();
    fake.sinks().unwrap();
    fake.load_branch(COMBINED, SPEAKER, 50).unwrap();
    fake.branches(COMBINED).unwrap();
    fake.set_default_sink(COMBINED).unwrap();
    assert_eq!(
        fake.calls(),
        vec![
            GraphCall::CreateCombinedSink { sink_name: COMBINED.to_string() },
            GraphCall::LoadBranch { sink_name: COMBINED.to_string(), real_sink: SPEAKER.to_string(), latency_ms: 50 },
            GraphCall::SetDefaultSink { sink: COMBINED.to_string() },
        ]
    );
    assert_eq!(fake.all_calls().len(), 5);
}

#[test]
fn test_fake_graph_fails_the_call_it_was_told_to_fail() {
    let other = "bluez_output.AA_BB_CC_DD_EE_02.1";
    let mut fake = FakeGraph::with_sinks(&[COMBINED, SPEAKER, other]);
    fake.fail_for(GraphOp::LoadBranch, SPEAKER);
    assert!(fake.load_branch(COMBINED, SPEAKER, 50).is_err());
    assert!(fake.load_branch(COMBINED, other, 50).is_ok());
    assert_eq!(fake.calls().len(), 2);
    let loaded = fake.loaded(COMBINED);
    assert_eq!(loaded.len(), 1);
    assert_eq!(loaded[0].branch.sink, other);
}

#[test]
fn test_fake_graph_reports_cannot_tell_once_told_to() {
    let mut fake = FakeGraph::with_sinks(&[SPEAKER]);
    fake.fail_after(GraphOp::Sinks, 1);
    assert_eq!(fake.sinks().unwrap(), vec![SPEAKER]);
    assert!(matches!(fake.sinks(), Err(AudioError::PipeWire(_))));
    assert!(matches!(fake.sinks(), Err(AudioError::PipeWire(_))));
}

#[test]
fn test_fake_graph_set_branch_delay_retunes_that_branch_in_place() {
    let other = "bluez_output.AA_BB_CC_DD_EE_02.1";
    let mut fake = FakeGraph::with_sinks(&[COMBINED, SPEAKER, other]);
    let a = fake.seed_branch(COMBINED, SPEAKER, 0, Some(true));
    let b = fake.seed_branch(COMBINED, other, 30, Some(true));
    assert!(fake.set_branch_delay(a, 120).is_ok());
    assert_eq!(fake.calls(), vec![GraphCall::SetBranchDelay { id: a, delay_ms: 120 }]);
    let loaded = fake.loaded(COMBINED);
    let delays: Vec<(u32, &str, u32)> =
        loaded.iter().map(|l| (l.id, l.branch.sink.as_str(), l.branch.latency_ms)).collect();
    assert_eq!(delays, vec![(a, SPEAKER, 120), (b, other, 30)]);
}

#[test]
fn test_fake_graph_set_branch_delay_on_an_unknown_id_errs() {
    let mut fake = FakeGraph::with_sinks(&[COMBINED, SPEAKER]);
    let a = fake.seed_branch(COMBINED, SPEAKER, 0, Some(true));
    assert!(matches!(fake.set_branch_delay(a + 100, 120), Err(AudioError::PipeWire(_))));
    assert_eq!(fake.calls(), vec![GraphCall::SetBranchDelay { id: a + 100, delay_ms: 120 }]);
    let loaded = fake.loaded(COMBINED);
    assert_eq!(loaded.len(), 1);
    assert_eq!(loaded[0].branch.latency_ms, 0);
}

#[test]
fn test_fake_graph_a_failed_set_branch_delay_leaves_the_latency() {
    let mut fake = FakeGraph::with_sinks(&[COMBINED, SPEAKER]);
    let a = fake.seed_branch(COMBINED, SPEAKER, 0, Some(true));
    fake.fail(GraphOp::SetBranchDelay);
    assert!(matches!(fake.set_branch_delay(a, 120), Err(AudioError::PipeWire(_))));
    assert_eq!(fake.loaded(COMBINED)[0].branch.latency_ms, 0);
    fake.clear_failures();
    assert!(fake.set_branch_delay(a, 120).is_ok());
    assert_eq!(fake.loaded(COMBINED)[0].branch.latency_ms, 120);
}

#[test]
fn test_fake_graph_reports_the_liveness_it_was_given() {
    let mut fake = FakeGraph::with_sinks(&[COMBINED, SPEAKER]);
    let dead = fake.seed_branch(COMBINED, SPEAKER, 50, Some(false));
    fake.set_new_branch_liveness(None);
    fake.load_branch(COMBINED, SPEAKER, 60).unwrap();
    let loaded = fake.branches(COMBINED).unwrap();
    assert_eq!(loaded.len(), 2);
    assert_eq!(loaded[0].id, dead);
    assert_eq!(loaded[0].live, Some(false));
    assert_eq!(loaded[1].live, None);
}

// ─── The router ──────────────────────────────────────────────────────────

const MAC_A: &str = "AA:BB:CC:DD:EE:01";
const MAC_B: &str = "AA:BB:CC:DD:EE:02";
const SINK_A: &str = "bluez_output.AA_BB_CC_DD_EE_01.1";
const SINK_B: &str = "bluez_output.AA_BB_CC_DD_EE_02.1";

/// The instant a test router's passes start at; a router whose clock never
/// moves passes this every time.
const T0: u64 = 1_700_000_000_000;

fn target(mac: &str, offset_ms: u32) -> SpeakerTarget {
    SpeakerTarget { address: mac.to_string(), offset_ms }
}

/// A router over `fake`: the fake is cloned because a clone is a handle onto
/// the same state.
fn router_on(fake: &FakeGraph) -> AudioRouter<FakeGraph> {
    AudioRouter::new(fake.clone())
}

fn create(sink_name: &str) -> GraphCall {
    GraphCall::CreateCombinedSink { sink_name: sink_name.to_string() }
}

fn load(real_sink: &str, latency_ms: u32) -> GraphCall {
    GraphCall::LoadBranch { sink_name: COMBINED.to_string(), real_sink: real_sink.to_string(), latency_ms }
}

fn unload(id: u32) -> GraphCall {
    GraphCall::UnloadBranch { id }
}

fn teardown(sink_name: &str) -> GraphCall {
    GraphCall::Teardown { sink_name: sink_name.to_string() }
}

fn set_default(sink: &str) -> GraphCall {
    GraphCall::SetDefaultSink { sink: sink.to_string() }
}

fn set_delay(id: u32, delay_ms: u32) -> GraphCall {
    GraphCall::SetBranchDelay { id, delay_ms }
}

fn loaded_delays(fake: &FakeGraph) -> Vec<(u32, String, u32)> {
    fake.loaded(COMBINED).into_iter().map(|l| (l.id, l.branch.sink, l.branch.latency_ms)).collect()
}

fn branch_into(fake: &FakeGraph, sink: &str) -> u32 {
    let ids: Vec<u32> = fake.loaded(COMBINED).into_iter().filter(|l| l.branch.sink == sink).map(|l| l.id).collect();
    assert_eq!(ids.len(), 1, "one branch into {sink}: {ids:?}");
    ids.first().copied().unwrap_or_default()
}

fn changes_the_graph(call: &GraphCall) -> bool {
    call.is_mutating() && !matches!(call, GraphCall::SetDefaultSink { .. })
}

fn steady_graph(live: Option<bool>) -> (FakeGraph, u32, u32) {
    let fake = FakeGraph::with_sinks(&["alsa_output.pci.analog-stereo", SINK_A, SINK_B]);
    fake.add_sink(COMBINED);
    let a = fake.seed_branch(COMBINED, SINK_A, 0, live);
    let b = fake.seed_branch(COMBINED, SINK_B, 30, live);
    (fake, a, b)
}

fn steady_selection() -> Vec<SpeakerTarget> {
    vec![target(MAC_A, 0), target(MAC_B, 30)]
}

#[test]
fn test_route_on_an_empty_graph_creates_the_sink_loads_each_branch_then_sets_the_default() {
    let fake = FakeGraph::with_sinks(&["alsa_output.pci.analog-stereo", SINK_A, SINK_B]);
    let mut router = router_on(&fake);
    let result = router.route_for_targets(&[target(MAC_A, 0), target(MAC_B, 250)], T0);
    assert!(result.is_ok(), "route failed: {result:?}");
    assert_eq!(
        fake.calls(),
        vec![teardown(COMBINED), create(COMBINED), load(SINK_A, 0), load(SINK_B, 250), set_default(COMBINED)]
    );
    assert_eq!(fake.default_sink().as_deref(), Some(COMBINED));
}

#[test]
fn test_route_without_a_combined_sink_clears_leftover_branches_before_building() {
    let fake = FakeGraph::with_sinks(&[SINK_A]);
    let leftover = fake.seed_branch(COMBINED, SINK_A, 50, Some(true));
    let mut router = router_on(&fake);
    let result = router.route_for_targets(&[target(MAC_A, 0)], T0);
    assert!(result.is_ok(), "route failed: {result:?}");
    let loaded = fake.loaded(COMBINED);
    assert_eq!(loaded.len(), 1, "one branch for one speaker: {loaded:?}");
    assert_ne!(loaded[0].id, leftover);
    assert_eq!(loaded[0].branch.sink, SINK_A);
}

#[test]
fn test_route_on_a_steady_graph_makes_no_mutating_call_but_the_default_sink() {
    let (fake, _, _) = steady_graph(Some(true));
    let mut router = router_on(&fake);
    let result = router.route_for_targets(&steady_selection(), T0);
    assert!(result.is_ok(), "route failed: {result:?}");
    assert_eq!(fake.calls(), vec![set_default(COMBINED)]);
}

#[test]
fn test_route_on_a_steady_graph_stays_quiet_over_several_passes() {
    let (fake, a, b) = steady_graph(Some(true));
    let mut router = router_on(&fake);
    for pass in 0..3 {
        let result = router.route_for_targets(&steady_selection(), T0);
        assert!(result.is_ok(), "pass {pass} failed: {result:?}");
    }
    assert_eq!(fake.calls(), vec![set_default(COMBINED), set_default(COMBINED), set_default(COMBINED)]);
    let ids: Vec<u32> = fake.loaded(COMBINED).iter().map(|l| l.id).collect();
    assert_eq!(ids, vec![a, b]);
}

#[test]
fn test_route_unloads_a_dead_branch_before_loading_its_replacement() {
    let fake = FakeGraph::with_sinks(&[SINK_A, SINK_B, COMBINED]);
    let a = fake.seed_branch(COMBINED, SINK_A, 0, Some(true));
    let dead = fake.seed_branch(COMBINED, SINK_B, 30, Some(false));
    let mut router = router_on(&fake);
    let result = router.route_for_targets(&steady_selection(), T0);
    assert!(result.is_ok(), "route failed: {result:?}");
    assert_eq!(fake.calls(), vec![unload(dead), load(SINK_B, 30), set_default(COMBINED)]);
    let sinks: Vec<String> = fake.loaded(COMBINED).into_iter().map(|l| l.branch.sink).collect();
    assert_eq!(sinks, vec![SINK_A, SINK_B]);
    assert_eq!(branch_into(&fake, SINK_A), a);
}

#[test]
fn test_route_with_an_unreadable_sink_list_unloads_nothing() {
    let (fake, a, b) = steady_graph(Some(true));
    let stale = fake.seed_branch(COMBINED, "bluez_output.AA_BB_CC_DD_EE_03.1", 50, Some(true));
    fake.fail(GraphOp::Sinks);
    let mut router = router_on(&fake);
    let _ = router.route_for_targets(&steady_selection(), T0);
    let calls = fake.calls();
    assert!(!calls.iter().any(changes_the_graph), "acted on an unreadable graph: {calls:?}");
    assert!(fake.all_calls().contains(&GraphCall::Sinks), "the sink list was never asked for");
    let ids: Vec<u32> = fake.loaded(COMBINED).iter().map(|l| l.id).collect();
    assert_eq!(ids, vec![a, b, stale]);
}

#[test]
fn test_route_with_a_sink_list_lost_mid_pass_returns_ok_and_unloads_nothing() {
    let (fake, a, b) = steady_graph(Some(true));
    fake.fail_after(GraphOp::Sinks, 1);
    let mut router = router_on(&fake);
    let result = router.route_for_targets(&steady_selection(), T0);
    assert!(result.is_ok(), "route failed: {result:?}");
    let calls = fake.calls();
    assert!(!calls.iter().any(changes_the_graph), "acted on an unreadable graph: {calls:?}");
    let ids: Vec<u32> = fake.loaded(COMBINED).iter().map(|l| l.id).collect();
    assert_eq!(ids, vec![a, b]);
}

#[test]
fn test_reconcile_with_a_sink_list_naming_nothing_unloads_nothing() {
    let (fake, a, b) = steady_graph(Some(true));
    for sink in fake.sink_names() {
        fake.remove_sink(&sink);
    }
    let mut router = router_on(&fake);
    let result = router.reconcile_combined(&combine_sink_plan(&steady_selection()), T0);
    assert!(result.is_ok(), "reconcile failed: {result:?}");
    assert_eq!(fake.calls(), Vec::<GraphCall>::new());
    let ids: Vec<u32> = fake.loaded(COMBINED).iter().map(|l| l.id).collect();
    assert_eq!(ids, vec![a, b]);
}

#[test]
fn test_route_with_unknown_liveness_keeps_every_branch() {
    let (fake, a, b) = steady_graph(None);
    let mut router = router_on(&fake);
    let result = router.route_for_targets(&steady_selection(), T0);
    assert!(result.is_ok(), "route failed: {result:?}");
    assert_eq!(fake.calls(), vec![set_default(COMBINED)]);
    let ids: Vec<u32> = fake.loaded(COMBINED).iter().map(|l| l.id).collect();
    assert_eq!(ids, vec![a, b]);
}

#[test]
fn test_route_with_an_absent_speaker_leaves_the_other_branch_alone() {
    let fake = FakeGraph::with_sinks(&[SINK_A, COMBINED]);
    let a = fake.seed_branch(COMBINED, SINK_A, 0, Some(true));
    let mut router = router_on(&fake);
    for pass in 0..2 {
        let result = router.route_for_targets(&steady_selection(), T0);
        assert!(result.is_ok(), "pass {pass} failed: {result:?}");
    }
    assert_eq!(fake.calls(), vec![set_default(COMBINED), set_default(COMBINED)]);
    let ids: Vec<u32> = fake.loaded(COMBINED).iter().map(|l| l.id).collect();
    assert_eq!(ids, vec![a]);
}

#[test]
fn test_route_after_a_deselection_unloads_only_that_branch() {
    let (fake, a, b) = steady_graph(Some(true));
    let mut router = router_on(&fake);
    let result = router.route_for_targets(&[target(MAC_A, 0)], T0);
    assert!(result.is_ok(), "route failed: {result:?}");
    assert_eq!(fake.calls(), vec![unload(b), set_default(COMBINED)]);
    let ids: Vec<u32> = fake.loaded(COMBINED).iter().map(|l| l.id).collect();
    assert_eq!(ids, vec![a]);
}

#[test]
fn test_route_with_one_failing_branch_still_loads_the_other_and_sets_the_default() {
    let fake = FakeGraph::with_sinks(&[SINK_A, SINK_B]);
    fake.fail_for(GraphOp::LoadBranch, SINK_A);
    let mut router = router_on(&fake);
    let result = router.route_for_targets(&steady_selection(), T0);
    assert_eq!(
        fake.calls(),
        vec![teardown(COMBINED), create(COMBINED), load(SINK_A, 0), load(SINK_B, 30), set_default(COMBINED)]
    );
    let message = match result {
        Err(AudioError::PipeWire(message)) => message,
        other => format!("not a PipeWire error: {other:?}"),
    };
    assert!(message.contains(SINK_A), "unexpected error: {message}");
    assert!(!message.contains(SINK_B), "unexpected error: {message}");
    let sinks: Vec<String> = fake.loaded(COMBINED).into_iter().map(|l| l.branch.sink).collect();
    assert_eq!(sinks, vec![SINK_B]);
}

#[test]
fn test_route_with_every_branch_failing_reports_all_failures_in_one_error() {
    let fake = FakeGraph::with_sinks(&[SINK_A, SINK_B]);
    fake.fail(GraphOp::LoadBranch);
    let mut router = router_on(&fake);
    let result = router.route_for_targets(&steady_selection(), T0);
    let message = match result {
        Err(AudioError::PipeWire(message)) => message,
        other => format!("not a PipeWire error: {other:?}"),
    };
    assert!(message.contains(SINK_A), "unexpected error: {message}");
    assert!(message.contains(SINK_B), "unexpected error: {message}");
    assert_eq!(fake.calls().last(), Some(&set_default(COMBINED)));
}

#[test]
fn test_route_with_an_empty_selection_never_calls_the_graph() {
    let (fake, _, _) = steady_graph(Some(true));
    let mut router = router_on(&fake);
    let result = router.route_for_targets(&[], T0);
    assert!(matches!(result, Err(AudioError::NoSpeakerConnected)), "unexpected result: {result:?}");
    assert_eq!(fake.all_calls(), Vec::<GraphCall>::new());
}

#[test]
fn test_resolve_target_sink_with_an_empty_target_resolves_nothing() {
    let (fake, _, _) = steady_graph(Some(true));
    let mut router = router_on(&fake);
    let result = router.resolve_target_sink("");
    let message = match result {
        Err(AudioError::PipeWire(message)) => message,
        other => format!("not a PipeWire error: {other:?}"),
    };
    assert!(message.contains("no PipeWire sink"), "unexpected error: {message}");
    assert_eq!(fake.empty_names_refused(), 0);
    assert_eq!(fake.calls(), Vec::<GraphCall>::new());
}

#[test]
fn test_empty_sink_name_never_reaches_the_graph() {
    let (fake, a, b) = steady_graph(Some(true));
    let mut router = router_on(&fake);
    assert!(!router.combined_sink_exists(""));
    let retuned = router.retune_branch(COMBINED, &CombineBranch { sink: String::new(), latency_ms: 70 });
    let message = match retuned {
        Err(AudioError::PipeWire(message)) => message,
        other => format!("not a PipeWire error: {other:?}"),
    };
    assert!(message.contains("no PipeWire sink"), "unexpected error: {message}");
    assert_eq!(fake.empty_names_refused(), 0);
    assert_eq!(fake.calls(), Vec::<GraphCall>::new());
    let ids: Vec<u32> = fake.loaded(COMBINED).iter().map(|l| l.id).collect();
    assert_eq!(ids, vec![a, b]);
}

#[test]
fn test_resolve_target_sink_resolves_a_prefix_and_an_exact_name() {
    let fake = FakeGraph::with_sinks(&["blue2th_combined_old", SINK_A, COMBINED]);
    let mut router = router_on(&fake);
    assert_eq!(router.resolve_target_sink(&bluez_sink_prefix(MAC_A)).ok(), Some(SINK_A.to_string()));
    assert_eq!(router.resolve_target_sink(COMBINED).ok(), Some(COMBINED.to_string()));
    assert!(matches!(router.resolve_target_sink(&bluez_sink_prefix(MAC_B)), Err(AudioError::PipeWire(_))));
    assert_eq!(fake.calls(), Vec::<GraphCall>::new());
}

#[test]
fn test_combined_sink_exists_reads_the_graph() {
    let present = FakeGraph::with_sinks(&[SINK_A, COMBINED]);
    assert!(router_on(&present).combined_sink_exists(COMBINED));
    let namesake = FakeGraph::with_sinks(&[SINK_A, "blue2th_combined_old"]);
    assert!(!router_on(&namesake).combined_sink_exists(COMBINED));
    let unreadable = FakeGraph::with_sinks(&[COMBINED]);
    unreadable.fail(GraphOp::Sinks);
    assert!(!router_on(&unreadable).combined_sink_exists(COMBINED));
}

#[test]
fn test_route_speaker_back_loads_it_alone_then_reloads_it_alone_after_the_gap() {
    let fake = FakeGraph::with_sinks(&[SINK_A, COMBINED]);
    let a = fake.seed_branch(COMBINED, SINK_A, 0, Some(true));
    let mut router = router_on(&fake);
    let mut now = T0;

    let result = router.route_for_targets(&steady_selection(), now);
    assert!(result.is_ok(), "pass 1 failed: {result:?}");
    assert_eq!(fake.calls(), vec![set_default(COMBINED)]);

    fake.add_sink(SINK_B);
    fake.clear_calls();
    let result = router.route_for_targets(&steady_selection(), now);
    assert!(result.is_ok(), "pass 2 failed: {result:?}");
    assert_eq!(fake.calls(), vec![load(SINK_B, 30), set_default(COMBINED)]);
    let b = branch_into(&fake, SINK_B);
    assert_eq!(branch_into(&fake, SINK_A), a);

    now += CONFIRM_GAP;
    fake.clear_calls();
    let result = router.route_for_targets(&steady_selection(), now);
    assert!(result.is_ok(), "pass 3 failed: {result:?}");
    let calls = fake.calls();
    let changes: Vec<GraphCall> = calls.iter().filter(|c| changes_the_graph(c)).cloned().collect();
    assert_eq!(changes, vec![unload(b), load(SINK_B, 30)]);
    assert_eq!(calls.last(), Some(&set_default(COMBINED)));
    assert_eq!(branch_into(&fake, SINK_A), a, "A was never touched");
    let confirmed = branch_into(&fake, SINK_B);
    assert_ne!(confirmed, b, "B's branch was reloaded");

    now += CONFIRM_GAP;
    fake.clear_calls();
    let result = router.route_for_targets(&steady_selection(), now);
    assert!(result.is_ok(), "pass 4 failed: {result:?}");
    assert_eq!(fake.calls(), vec![set_default(COMBINED)]);
    let ids: Vec<u32> = fake.loaded(COMBINED).iter().map(|l| l.id).collect();
    assert_eq!(ids, vec![a, confirmed]);
}

#[test]
fn test_route_select_then_play_within_the_gap_reloads_nothing() {
    let fake = FakeGraph::with_sinks(&[SINK_A, SINK_B, COMBINED]);
    let mut router = router_on(&fake);
    let mut now = T0;

    let result = router.route_for_targets(&steady_selection(), now);
    assert!(result.is_ok(), "select failed: {result:?}");
    assert_eq!(fake.calls(), vec![load(SINK_A, 0), load(SINK_B, 30), set_default(COMBINED)]);
    let a = branch_into(&fake, SINK_A);
    let b = branch_into(&fake, SINK_B);

    now += 1_000;
    fake.clear_calls();
    let result = router.route_for_targets(&steady_selection(), now);
    assert!(result.is_ok(), "play failed: {result:?}");
    assert_eq!(fake.calls(), vec![set_default(COMBINED)], "nothing reloaded");

    now += CONFIRM_GAP;
    fake.clear_calls();
    let result = router.route_for_targets(&steady_selection(), now);
    assert!(result.is_ok(), "tick failed: {result:?}");
    let changes: Vec<GraphCall> = fake.calls().into_iter().filter(changes_the_graph).collect();
    assert_eq!(changes.len(), 4, "one unload and one load each: {changes:?}");
    for (id, sink, delay) in [(a, SINK_A, 0), (b, SINK_B, 30)] {
        let unloaded = changes.iter().position(|c| *c == unload(id));
        let reloaded = changes.iter().position(|c| *c == load(sink, delay));
        assert!(
            matches!((unloaded, reloaded), (Some(u), Some(l)) if u < l),
            "{sink} unloaded then reloaded: {changes:?}"
        );
    }
}

#[test]
fn test_route_two_speakers_back_together_reload_both_and_nothing_else() {
    let sink_c = "bluez_output.AA_BB_CC_DD_EE_03.1";
    let fake = FakeGraph::with_sinks(&[sink_c, COMBINED]);
    let c = fake.seed_branch(COMBINED, sink_c, 60, Some(true));
    let selection = vec![target(MAC_A, 0), target(MAC_B, 30), target("AA:BB:CC:DD:EE:03", 60)];
    let mut router = router_on(&fake);
    let mut now = T0;

    let result = router.route_for_targets(&selection, now);
    assert!(result.is_ok(), "pass 1 failed: {result:?}");
    assert_eq!(fake.calls(), vec![set_default(COMBINED)]);

    fake.add_sink(SINK_A);
    fake.add_sink(SINK_B);
    fake.clear_calls();
    let result = router.route_for_targets(&selection, now);
    assert!(result.is_ok(), "pass 2 failed: {result:?}");
    assert_eq!(fake.calls(), vec![load(SINK_A, 0), load(SINK_B, 30), set_default(COMBINED)]);
    let a = branch_into(&fake, SINK_A);
    let b = branch_into(&fake, SINK_B);

    now += CONFIRM_GAP;
    fake.clear_calls();
    let result = router.route_for_targets(&selection, now);
    assert!(result.is_ok(), "pass 3 failed: {result:?}");
    let changes: Vec<GraphCall> = fake.calls().into_iter().filter(changes_the_graph).collect();
    assert_eq!(changes.len(), 4, "one unload and one load each: {changes:?}");
    for (id, sink, delay_ms) in [(a, SINK_A, 0), (b, SINK_B, 30)] {
        let unloaded_at = changes.iter().position(|c| *c == unload(id));
        let loaded_at = changes.iter().position(|c| *c == load(sink, delay_ms));
        assert!(
            unloaded_at.is_some() && loaded_at.is_some() && unloaded_at < loaded_at,
            "{sink} is unloaded, then reloaded: {changes:?}"
        );
    }
    assert_eq!(branch_into(&fake, sink_c), c, "C was never touched");

    fake.clear_calls();
    let result = router.route_for_targets(&selection, now);
    assert!(result.is_ok(), "pass 4 failed: {result:?}");
    assert_eq!(fake.calls(), vec![set_default(COMBINED)]);
}

#[test]
fn test_route_added_speaker_leaves_the_playing_branch_untouched() {
    let fake = FakeGraph::with_sinks(&[SINK_A, SINK_B, COMBINED]);
    let a = fake.seed_branch(COMBINED, SINK_A, 0, Some(true));
    let mut router = router_on(&fake);

    let result = router.route_for_targets(&[target(MAC_A, 0)], T0);
    assert!(result.is_ok(), "pass 1 failed: {result:?}");
    assert_eq!(fake.calls(), vec![set_default(COMBINED)]);

    fake.clear_calls();
    let result = router.route_for_targets(&steady_selection(), T0);
    assert!(result.is_ok(), "pass 2 failed: {result:?}");
    assert_eq!(fake.calls(), vec![load(SINK_B, 30), set_default(COMBINED)]);
    assert_eq!(branch_into(&fake, SINK_A), a);

    fake.clear_calls();
    let result = router.route_for_targets(&steady_selection(), T0);
    assert!(result.is_ok(), "pass 3 failed: {result:?}");
    assert_eq!(fake.calls(), vec![set_default(COMBINED)]);
}

#[test]
fn test_route_offset_change_calls_set_branch_delay_and_nothing_else() {
    let (fake, a, b) = steady_graph(Some(true));
    let mut router = router_on(&fake);
    let result = router.route_for_targets(&[target(MAC_A, 0), target(MAC_B, 120)], T0);
    assert!(result.is_ok(), "route failed: {result:?}");
    assert_eq!(fake.calls(), vec![set_delay(b, 120), set_default(COMBINED)]);
    assert_eq!(loaded_delays(&fake), vec![(a, SINK_A.to_string(), 0), (b, SINK_B.to_string(), 120)]);
}

#[test]
fn test_route_unloads_dead_then_unwanted_then_retunes_then_loads() {
    let sink_c = "bluez_output.AA_BB_CC_DD_EE_03.1";
    let sink_d = "bluez_output.AA_BB_CC_DD_EE_04.1";
    let fake = FakeGraph::with_sinks(&[SINK_A, SINK_B, sink_c, sink_d, COMBINED]);
    let a = fake.seed_branch(COMBINED, SINK_A, 0, Some(true));
    let dead_c = fake.seed_branch(COMBINED, sink_c, 60, Some(false));
    let d = fake.seed_branch(COMBINED, sink_d, 30, Some(true));
    let mut router = router_on(&fake);
    let result = router.route_for_targets(
        &[target(MAC_A, 100), target(MAC_B, 30), target("AA:BB:CC:DD:EE:03", 60)],
        T0,
    );
    assert!(result.is_ok(), "route failed: {result:?}");
    assert_eq!(
        fake.calls(),
        vec![unload(dead_c), unload(d), set_delay(a, 100), load(SINK_B, 30), load(sink_c, 60), set_default(COMBINED)]
    );
}

#[test]
fn test_route_build_from_nothing_confirms_every_branch_it_loaded() {
    let fake = FakeGraph::with_sinks(&[SINK_A, SINK_B]);
    let mut router = router_on(&fake);
    let mut now = T0;

    let result = router.route_for_targets(&steady_selection(), now);
    assert!(result.is_ok(), "build failed: {result:?}");
    assert!(fake.calls().contains(&create(COMBINED)), "{:?}", fake.calls());
    let a = branch_into(&fake, SINK_A);
    let b = branch_into(&fake, SINK_B);

    now += CONFIRM_GAP;
    fake.clear_calls();
    let result = router.route_for_targets(&steady_selection(), now);
    assert!(result.is_ok(), "confirming pass failed: {result:?}");
    let changes: Vec<GraphCall> = fake.calls().into_iter().filter(changes_the_graph).collect();
    assert_eq!(changes.len(), 4, "both reloaded, each alone: {changes:?}");
    assert!(changes.contains(&unload(a)) && changes.contains(&unload(b)));

    now += CONFIRM_GAP;
    fake.clear_calls();
    let result = router.route_for_targets(&steady_selection(), now);
    assert!(result.is_ok(), "pass after the confirmation failed: {result:?}");
    assert_eq!(fake.calls(), vec![set_default(COMBINED)], "confirmed once only");
}

#[test]
fn test_route_reselected_speaker_is_confirmed_alone_after_the_gap() {
    let (fake, a, b) = steady_graph(Some(true));
    let mut router = router_on(&fake);
    let mut now = T0;

    let result = router.route_for_targets(&[target(MAC_A, 0)], now);
    assert!(result.is_ok(), "deselect failed: {result:?}");
    assert_eq!(fake.calls(), vec![unload(b), set_default(COMBINED)]);
    fake.clear_calls();
    let result = router.route_for_targets(&steady_selection(), now);
    assert!(result.is_ok(), "reselect failed: {result:?}");
    assert_eq!(fake.calls(), vec![load(SINK_B, 30), set_default(COMBINED)]);
    let reselected = branch_into(&fake, SINK_B);

    now += CONFIRM_GAP;
    fake.clear_calls();
    let result = router.route_for_targets(&steady_selection(), now);
    assert!(result.is_ok(), "confirming pass failed: {result:?}");
    let changes: Vec<GraphCall> = fake.calls().into_iter().filter(changes_the_graph).collect();
    assert_eq!(changes, vec![unload(reselected), load(SINK_B, 30)]);
    assert_eq!(branch_into(&fake, SINK_A), a);
}

#[test]
fn test_route_branch_replaced_when_its_confirmation_falls_due_waits_its_own_gap() {
    let fake = FakeGraph::with_sinks(&[SINK_A, SINK_B, COMBINED]);
    let mut router = router_on(&fake);
    let mut now = T0;
    let result = router.route_for_targets(&steady_selection(), now);
    assert!(result.is_ok(), "loading pass failed: {result:?}");
    let a = branch_into(&fake, SINK_A);
    let b = branch_into(&fake, SINK_B);

    fake.set_branch_liveness(b, Some(false));
    now += CONFIRM_GAP;
    fake.clear_calls();
    let result = router.route_for_targets(&steady_selection(), now);
    assert!(result.is_ok(), "confirming pass failed: {result:?}");
    let changes: Vec<GraphCall> = fake.calls().into_iter().filter(changes_the_graph).collect();
    assert_eq!(changes, vec![unload(b), load(SINK_B, 30), unload(a), load(SINK_A, 0)], "B replaced once, A confirmed alone");
    let replaced = branch_into(&fake, SINK_B);

    now += CONFIRM_GAP;
    fake.clear_calls();
    let result = router.route_for_targets(&steady_selection(), now);
    assert!(result.is_ok(), "pass after the replacement failed: {result:?}");
    let changes: Vec<GraphCall> = fake.calls().into_iter().filter(changes_the_graph).collect();
    assert_eq!(changes, vec![unload(replaced), load(SINK_B, 30)]);
}

#[test]
fn test_route_build_forgets_the_reloads_armed_before_it() {
    let fake = FakeGraph::with_sinks(&[SINK_A, SINK_B]);
    let mut router = router_on(&fake);
    let mut now = T0;
    let result = router.route_for_targets(&steady_selection(), now);
    assert!(result.is_ok(), "first build failed: {result:?}");

    fake.remove_sink(COMBINED);
    fake.fail_for(GraphOp::LoadBranch, SINK_B);
    now += 1_000;
    let result = router.route_for_targets(&steady_selection(), now);
    assert!(result.is_err(), "B's load was made to fail: {result:?}");
    fake.clear_failures();
    let b = fake.seed_branch(COMBINED, SINK_B, 30, Some(true));

    now += CONFIRM_GAP - 1_000;
    fake.clear_calls();
    let result = router.route_for_targets(&steady_selection(), now);
    assert!(result.is_ok(), "pass after the rebuild failed: {result:?}");
    assert_eq!(fake.calls(), vec![set_default(COMBINED)]);
    assert_eq!(branch_into(&fake, SINK_B), b);
}

#[test]
fn test_empty_target_is_answered_without_reading_the_graph() {
    let (fake, _, _) = steady_graph(Some(true));
    let mut router = router_on(&fake);
    assert!(router.resolve_target_sink("").is_err());
    assert!(!router.combined_sink_exists(""));
    assert_eq!(fake.all_calls(), Vec::<GraphCall>::new());
}

#[test]
fn test_two_routers_do_not_share_the_confirmation_register() {
    let first_fake = FakeGraph::with_sinks(&[SINK_A, COMBINED]);
    first_fake.seed_branch(COMBINED, SINK_A, 0, Some(true));
    let mut first = router_on(&first_fake);
    let mut first_now = T0;
    let result = first.route_for_targets(&steady_selection(), first_now);
    assert!(result.is_ok(), "first router, pass 1: {result:?}");
    first_fake.add_sink(SINK_B);
    let result = first.route_for_targets(&steady_selection(), first_now);
    assert!(result.is_ok(), "first router, pass 2: {result:?}");
    assert!(first_fake.calls().contains(&load(SINK_B, 30)), "the first router never wired the returning speaker");

    let sink_c = "bluez_output.AA_BB_CC_DD_EE_03.1";
    let second_fake = FakeGraph::with_sinks(&[sink_c, COMBINED]);
    let c = second_fake.seed_branch(COMBINED, sink_c, 0, Some(true));
    let mut second = router_on(&second_fake);
    let second_now = T0 + CONFIRM_GAP;
    for pass in 0..2 {
        let result = second.route_for_targets(&[target("AA:BB:CC:DD:EE:03", 0)], second_now);
        assert!(result.is_ok(), "second router, pass {pass}: {result:?}");
    }
    assert_eq!(second_fake.calls(), vec![set_default(COMBINED), set_default(COMBINED)]);
    let ids: Vec<u32> = second_fake.loaded(COMBINED).iter().map(|l| l.id).collect();
    assert_eq!(ids, vec![c]);

    first_now += CONFIRM_GAP;
    first_fake.clear_calls();
    let result = first.route_for_targets(&steady_selection(), first_now);
    assert!(result.is_ok(), "first router, pass 3: {result:?}");
    assert!(first_fake.calls().iter().any(changes_the_graph), "the first router lost its armed reload: {:?}", first_fake.calls());
}

#[test]
fn test_retune_branch_touches_only_that_speakers_branch() {
    let (fake, a, b) = steady_graph(Some(true));
    let mut router = router_on(&fake);
    let result = router.retune_branch(COMBINED, &CombineBranch { sink: bluez_sink_prefix(MAC_A), latency_ms: 120 });
    assert!(result.is_ok(), "retune failed: {result:?}");
    assert_eq!(fake.calls(), vec![set_delay(a, 120)]);
    assert_eq!(loaded_delays(&fake), vec![(a, SINK_A.to_string(), 120), (b, SINK_B.to_string(), 30)]);
}

#[test]
fn test_retune_branch_never_unloads() {
    let (fake, a, b) = steady_graph(Some(true));
    fake.fail(GraphOp::SetBranchDelay);
    let mut router = router_on(&fake);
    let result = router.retune_branch(COMBINED, &CombineBranch { sink: bluez_sink_prefix(MAC_A), latency_ms: 120 });
    assert!(matches!(result, Err(AudioError::PipeWire(_))), "a rejected delay is reported, got {result:?}");
    assert_eq!(fake.calls(), vec![set_delay(a, 120)]);
    assert_eq!(loaded_delays(&fake), vec![(a, SINK_A.to_string(), 0), (b, SINK_B.to_string(), 30)]);
}

#[test]
fn test_retune_branch_without_a_branch_for_the_speaker_changes_nothing() {
    let fake = FakeGraph::with_sinks(&[SINK_A, SINK_B, COMBINED]);
    let b = fake.seed_branch(COMBINED, SINK_B, 30, Some(true));
    let mut router = router_on(&fake);
    let result = router.retune_branch(COMBINED, &CombineBranch { sink: bluez_sink_prefix(MAC_A), latency_ms: 120 });
    assert!(result.is_ok(), "retune failed: {result:?}");
    assert_eq!(fake.calls(), Vec::<GraphCall>::new());
    assert_eq!(loaded_delays(&fake), vec![(b, SINK_B.to_string(), 30)]);
}

#[test]
fn test_route_after_a_rejected_retune_retunes_in_place_on_the_next_pass() {
    let (fake, a, b) = steady_graph(Some(true));
    fake.fail(GraphOp::SetBranchDelay);
    let mut router = router_on(&fake);
    let rejected = router.retune_branch(COMBINED, &CombineBranch { sink: bluez_sink_prefix(MAC_A), latency_ms: 120 });
    assert!(rejected.is_err(), "the retune was rejected: {rejected:?}");
    fake.clear_failures();
    fake.clear_calls();
    let result = router.route_for_targets(&[target(MAC_A, 120), target(MAC_B, 30)], T0);
    assert!(result.is_ok(), "route failed: {result:?}");
    assert_eq!(fake.calls(), vec![set_delay(a, 120), set_default(COMBINED)]);
    assert_eq!(loaded_delays(&fake), vec![(a, SINK_A.to_string(), 120), (b, SINK_B.to_string(), 30)]);
}

#[test]
fn test_retune_branch_for_a_vanished_speaker_changes_nothing() {
    let (fake, _, _) = steady_graph(Some(true));
    fake.remove_sink(SINK_A);
    let mut router = router_on(&fake);
    let result = router.retune_branch(COMBINED, &CombineBranch { sink: bluez_sink_prefix(MAC_A), latency_ms: 120 });
    let message = match result {
        Err(AudioError::PipeWire(message)) => message,
        other => format!("not a PipeWire error: {other:?}"),
    };
    assert!(message.contains("no PipeWire sink"), "unexpected error: {message}");
    assert_eq!(fake.calls(), Vec::<GraphCall>::new());
}

#[test]
fn test_teardown_asks_the_graph_once_and_leaves_nothing() {
    let (fake, _, _) = steady_graph(Some(true));
    let mut router = router_on(&fake);
    let result = router.teardown(COMBINED);
    assert!(result.is_ok(), "teardown failed: {result:?}");
    assert_eq!(fake.calls(), vec![teardown(COMBINED)]);
    assert!(fake.loaded(COMBINED).is_empty());
    assert!(!fake.sink_names().iter().any(|s| s == COMBINED));
}

#[test]
fn test_teardown_of_an_empty_name_never_reaches_the_graph() {
    let (fake, _, _) = steady_graph(Some(true));
    let mut router = router_on(&fake);
    assert!(matches!(router.teardown(""), Err(AudioError::PipeWire(_))));
    assert_eq!(fake.all_calls(), Vec::<GraphCall>::new());
}

#[test]
fn test_graph_mut_reaches_the_volume_of_a_sink() {
    let (fake, _, _) = steady_graph(Some(true));
    fake.set_volume(SINK_A, 0.59);
    let mut router = router_on(&fake);
    assert_eq!(router.graph_mut().sink_volume(SINK_A), Some(0.59));
    assert!(router.graph_mut().set_sink_volume(SINK_B, 0.25).is_ok());
    assert_eq!(fake.calls(), vec![GraphCall::SetSinkVolume { sink: SINK_B.to_string(), level: 0.25 }]);
}

fn read_branch(id: u32, sink: &str, latency_ms: u32, live: Option<bool>) -> LoadedBranch {
    LoadedBranch { id, branch: CombineBranch { sink: sink.to_string(), latency_ms }, live }
}

#[test]
fn repair_plan_ends_the_pass_on_a_sink_list_naming_nothing() {
    let spec = combine_sink_plan(&steady_selection());
    let kept = vec![read_branch(1, SINK_A, 0, Some(true))];
    assert_eq!(repair_plan(&spec, &kept, &Err(AudioError::PipeWire("down".to_string()))), None);
    assert_eq!(repair_plan(&spec, &kept, &Ok(Vec::new())), None);
}

#[test]
fn repair_plan_unloads_retunes_and_loads_what_the_plan_calls_for() {
    let spec = combine_sink_plan(&[target(MAC_A, 0), target(MAC_B, 70)]);
    let sinks = vec![COMBINED.to_string(), SINK_A.to_string(), SINK_B.to_string(), "bluez_output.99.1".to_string()];
    let kept = vec![
        read_branch(1, SINK_A, 20, Some(true)),
        read_branch(2, "bluez_output.99.1", 0, None),
    ];
    let plan = repair_plan(&spec, &kept, &Ok(sinks)).expect("the list names sinks");
    assert_eq!(
        plan,
        RepairPlan {
            unload: vec![2],
            retune: vec![(1, 0)],
            load: vec![spec.branches[1].clone()],
            reachable: spec.branches.clone(),
        }
    );
}

#[test]
fn repair_from_sinks_on_an_unreadable_list_touches_nothing() {
    let (fake, a, b) = steady_graph(Some(true));
    let mut router = router_on(&fake);
    let spec = combine_sink_plan(&steady_selection());
    let kept = vec![read_branch(a, SINK_A, 0, Some(true)), read_branch(b, SINK_B, 30, Some(true))];
    let result = router.repair_from_sinks(&spec, &kept, Err(AudioError::PipeWire("down".to_string())), T0);
    assert!(result.is_ok());
    assert!(fake.all_calls().is_empty(), "the graph is not even asked: {:?}", fake.all_calls());
}

#[test]
fn route_with_found_returns_an_unreadable_listing_untouched() {
    let (fake, _a, _b) = steady_graph(Some(true));
    let mut router = router_on(&fake);
    let spec = combine_sink_plan(&steady_selection());
    let result = router.route_with_found(&spec, Err(AudioError::PipeWire("down".to_string())), T0);
    assert!(matches!(result, Err(AudioError::PipeWire(ref m)) if m == "down"));
    assert!(fake.all_calls().is_empty());
}

#[test]
fn branch_ids_feeding_picks_the_branches_on_exactly_that_node() {
    let read = vec![
        read_branch(4, SINK_A, 0, Some(true)),
        read_branch(5, SINK_B, 0, Some(true)),
        read_branch(6, SINK_A, 30, None),
        read_branch(7, "bluez_output.AA_BB_CC_DD_EE_01.10", 0, None),
    ];
    assert_eq!(branch_ids_feeding(&read, SINK_A), vec![4, 6]);
    assert!(branch_ids_feeding(&read, "").is_empty());
}
