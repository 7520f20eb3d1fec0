//! Audio routing plans: how the selected speakers map onto a combined sink
//! with one delay branch each, and what a pass over an already-loaded graph
//! has to change. Everything here is pure: the graph itself is driven by the
//! caller, which hands in what it read and performs what the plan says.

use crate::graph::{loaded_views, Graph, LoadedBranch};
use crate::text::{chars_eq, chars_of, push_char, string_of, string_views};
use vstd::prelude::*;

verus! {

/// The largest sync offset a speaker accepts, in milliseconds: offsets are
/// clamped to `0..=MAX_OFFSET_MS` when they are set.
pub const MAX_OFFSET_MS: u32 = 750;

/// One speaker the user selected, with its sync offset.
#[derive(Debug, Clone, PartialEq, Eq)]
pub struct SpeakerTarget {
    /// The speaker's Bluetooth address.
    pub address: String,
    /// The delay to apply to this speaker, in milliseconds.
    pub offset_ms: u32,
}

/// One branch of a combined sink: the speaker's sink node name (or its
/// `bluez_output.*` prefix) and the delay applied to that branch.
#[derive(Debug, PartialEq, Eq)]
pub struct CombineBranch {
    /// The speaker's `bluez_output.*` sink node name or prefix.
    pub sink: String,
    /// The delay the branch applies, in milliseconds.
    pub latency_ms: u32,
}

impl Clone for CombineBranch {
    fn clone(&self) -> (copy: Self)
        ensures
            copy.sink@ == self.sink@,
            copy.latency_ms == self.latency_ms,
    {
        CombineBranch { sink: self.sink.clone(), latency_ms: self.latency_ms }
    }
}

/// A branch as a pair of its sink name and its delay.
pub open spec fn bview(b: CombineBranch) -> (Seq<char>, u32) {
    (b.sink@, b.latency_ms)
}

/// The branches of a sequence, as pairs.
pub open spec fn bviews(s: Seq<CombineBranch>) -> Seq<(Seq<char>, u32)> {
    s.map_values(|b: CombineBranch| bview(b))
}

/// The pure plan for a combined sink spanning the selected speakers.
#[derive(Debug, Clone, PartialEq, Eq)]
pub struct CombineSinkSpec {
    /// Node name of the combined sink to create.
    pub sink_name: String,
    /// The member branches, one per target speaker.
    pub branches: Vec<CombineBranch>,
}

/// The node name of the combined sink every non-empty selection plays through.
pub const COMBINED_SINK_NAME: &'static str = "blue2th_combined";

/// The Unicode upper-case mapping `str::to_uppercase` applies.
pub uninterp spec fn unicode_uppercase(s: Seq<char>) -> Seq<char>;

/// Whether every character of `s` is ASCII.
pub open spec fn all_ascii(s: Seq<char>) -> bool {
    forall|i: int| 0 <= i < s.len() ==> (#[trigger] s[i] as u32) < 128
}

/// The ASCII upper case of one character.
pub open spec fn ascii_upper(c: char) -> char {
    if 'a' <= c <= 'z' {
        ((c as u32) - 32) as char
    } else {
        c
    }
}

/// `s` upper-cased.
///
/// Trusted: calls `str::to_uppercase`. Its result is named
/// [`unicode_uppercase`]; std documents that ASCII characters map to their
/// ASCII upper case one for one, which is the one fact stated beyond the name.
#[verifier::external_body]
fn to_uppercase(s: &str) -> (upper: String)
    ensures
        upper@ == unicode_uppercase(s@),
        all_ascii(s@) ==> upper@ == s@.map_values(|c: char| ascii_upper(c)),
{
    s.to_uppercase()
}

/// `s` with every `from` replaced by `to`.
pub open spec fn replace_char(s: Seq<char>, from: char, to: char) -> Seq<char> {
    s.map_values(|c: char| if c == from { to } else { c })
}

/// The `bluez_output.*` node-name prefix of a speaker MAC: upper-cased, colons
/// replaced by underscores.
pub open spec fn spec_bluez_sink_prefix(mac: Seq<char>) -> Seq<char> {
    "bluez_output."@ + replace_char(unicode_uppercase(mac), ':', '_')
}

/// Derive the `bluez_output.*` PipeWire sink node-name prefix for a speaker MAC
/// (colons to underscores, upper-cased), matching what BlueZ creates.
pub fn bluez_sink_prefix(mac: &str) -> (prefix: String)
    ensures
        prefix@ == spec_bluez_sink_prefix(mac@),
        all_ascii(mac@) ==> prefix@ == "bluez_output."@ + replace_char(
            mac@.map_values(|c: char| ascii_upper(c)),
            ':',
            '_',
        ),
{
    let upper = chars_of(to_uppercase(mac).as_str());
    let mut out = String::from_str("bluez_output.");
    let ghost head = out@;
    let mut i: usize = 0;
    while i < upper.len()
        invariant
            head == "bluez_output."@,
            0 <= i <= upper@.len(),
            out@ == head + replace_char(upper@, ':', '_').take(i as int),
        decreases upper.len() - i,
    {
        let c = upper[i];
        push_char(&mut out, if c == ':' { '_' } else { c });
        assert(out@ =~= head + replace_char(upper@, ':', '_').take(i + 1));
        i = i + 1;
    }
    assert(replace_char(upper@, ':', '_').take(upper@.len() as int) =~= replace_char(upper@, ':', '_'));
    out
}

/// The branches a selection plans: each target on its `bluez_output.*` prefix,
/// delayed by its offset.
pub open spec fn planned_branches(targets: Seq<SpeakerTarget>) -> Seq<(Seq<char>, u32)>
    decreases targets.len(),
{
    if targets.len() == 0 {
        seq![]
    } else {
        planned_branches(targets.drop_last()).push(
            (spec_bluez_sink_prefix(targets.last().address@), targets.last().offset_ms),
        )
    }
}

/// The plan for a selection: one branch per target, on its `bluez_output.*`
/// prefix, delayed by its offset.
pub fn combine_sink_plan(targets: &[SpeakerTarget]) -> (spec: CombineSinkSpec)
    ensures
        spec.sink_name@ == "blue2th_combined"@,
        bviews(spec.branches@) == planned_branches(targets@),
{
    let mut branches: Vec<CombineBranch> = Vec::new();
    let mut i: usize = 0;
    while i < targets.len()
        invariant
            0 <= i <= targets@.len(),
            branches@.len() == i,
            bviews(branches@) == planned_branches(targets@.take(i as int)),
        decreases targets.len() - i,
    {
        let t = &targets[i];
        let ghost prev = branches@;
        let b = CombineBranch { sink: bluez_sink_prefix(t.address.as_str()), latency_ms: t.offset_ms };
        branches.push(b);
        assert(branches@ == prev.push(b));
        assert(targets@.take(i + 1).drop_last() =~= targets@.take(i as int));
        assert(targets@[i as int] == *t);
        assert(bview(branches@[i as int]) == (spec_bluez_sink_prefix(t.address@), t.offset_ms));
        assert forall|k: int| 0 <= k < i implies bviews(branches@)[k] == bviews(prev)[k] by {
            assert(branches@[k] == prev[k]);
        }
        assert(bviews(branches@) =~= planned_branches(targets@.take(i + 1)));
        i = i + 1;
    }
    assert(targets@.take(targets@.len() as int) =~= targets@);
    CombineSinkSpec { sink_name: String::from_str(COMBINED_SINK_NAME), branches }
}

/// Whether the periodic repair pass has anything to do: a selection, and
/// something playing towards it.
pub fn should_repair_branches(selection: &[SpeakerTarget], anything_playing: bool) -> (run: bool)
    ensures
        run == (selection@.len() > 0 && anything_playing),
{
    selection.len() > 0 && anything_playing
}

/// Whether `node` is a node the prefix names: the same name, or the prefix
/// continued by the `.` PipeWire puts before the card index. An empty prefix
/// names nothing.
pub open spec fn names_node(prefix: Seq<char>, node: Seq<char>) -> bool {
    prefix.len() > 0 && (node == prefix || (node.len() > prefix.len() && node.take(prefix.len() as int)
        == prefix && node[prefix.len() as int] == '.'))
}

/// Whether the prefix `prefix` names the node `node`.
pub fn prefix_names_node(prefix: &Vec<char>, node: &Vec<char>) -> (named: bool)
    ensures
        named == names_node(prefix@, node@),
{
    if prefix.len() == 0 {
        return false;
    }
    if chars_eq(prefix, node) {
        return true;
    }
    if node.len() <= prefix.len() {
        return false;
    }
    let mut i: usize = 0;
    while i < prefix.len()
        invariant
            prefix@.len() < node@.len(),
            0 <= i <= prefix@.len(),
            forall|k: int| 0 <= k < i ==> node@[k] == prefix@[k],
        decreases prefix.len() - i,
    {
        if node[i] != prefix[i] {
            assert(node@.take(prefix@.len() as int)[i as int] != prefix@[i as int]);
            return false;
        }
        i = i + 1;
    }
    assert(node@.take(prefix@.len() as int) =~= prefix@);
    node[prefix.len()] == '.'
}

/// The index of the first name at or after `i` that the prefix names.
pub open spec fn find_named(names: Seq<Seq<char>>, prefix: Seq<char>, i: int) -> Option<int>
    decreases names.len() - i,
{
    if i < 0 || i >= names.len() {
        None
    } else if names_node(prefix, names[i]) {
        Some(i)
    } else {
        find_named(names, prefix, i + 1)
    }
}

/// The node a prefix resolves to among `names`: the exact name wherever it
/// sits, else the first name continuing the prefix with a `.`; nothing for an
/// empty prefix.
pub open spec fn spec_first_named(names: Seq<Seq<char>>, prefix: Seq<char>) -> Option<Seq<char>> {
    if prefix.len() == 0 {
        None
    } else if names.contains(prefix) {
        Some(prefix)
    } else {
        match find_named(names, prefix, 0) {
            Some(j) => Some(names[j]),
            None => None,
        }
    }
}

/// The view of an optional owned string.
pub open spec fn opt_string_view(s: Option<String>) -> Option<Seq<char>> {
    match s {
        Some(s) => Some(s@),
        None => None,
    }
}

/// Facts about [`find_named`]: where it lands and that nothing before matches.
pub proof fn lemma_find_named(names: Seq<Seq<char>>, prefix: Seq<char>, i: int)
    requires
        0 <= i <= names.len(),
    ensures
        find_named(names, prefix, i) matches Some(j) ==> i <= j < names.len() && names_node(prefix, names[j]),
        find_named(names, prefix, i) is None ==> forall|k: int| i <= k < names.len() ==> !names_node(prefix, #[trigger] names[k]),
        forall|k: int| i <= k < names.len() && names_node(prefix, #[trigger] names[k]) ==> find_named(names, prefix, i) is Some,
    decreases names.len() - i,
{
    if i < names.len() && !names_node(prefix, names[i]) {
        lemma_find_named(names, prefix, i + 1);
    }
}

/// Resolve `prefix` against the sink node names `names`.
pub fn first_sink_named_by(names: &Vec<Vec<char>>, prefix: &Vec<char>) -> (found: Option<String>)
    ensures
        opt_string_view(found) == spec_first_named(names@.map_values(|n: Vec<char>| n@), prefix@),
{
    let ghost views = names@.map_values(|n: Vec<char>| n@);
    if prefix.len() == 0 {
        return None;
    }
    let mut suffixed: Option<usize> = None;
    let mut i: usize = 0;
    while i < names.len()
        invariant
            views == names@.map_values(|n: Vec<char>| n@),
            prefix@.len() > 0,
            0 <= i <= names@.len(),
            forall|k: int| 0 <= k < i ==> views[k] != prefix@,
            suffixed == (if find_named(views.take(i as int), prefix@, 0) is Some {
                Some(find_named(views.take(i as int), prefix@, 0)->0 as usize)
            } else {
                None::<usize>
            }),
            find_named(views.take(i as int), prefix@, 0) matches Some(j) ==> find_named(views, prefix@, 0) == Some(j),
            find_named(views.take(i as int), prefix@, 0) is None ==> find_named(views, prefix@, 0) == find_named(views, prefix@, i as int),
        decreases names.len() - i,
    {
        proof {
            lemma_find_named(views, prefix@, i as int);
            lemma_find_named(views.take(i as int), prefix@, 0);
            lemma_find_named(views.take(i + 1), prefix@, 0);
            lemma_find_named(views, prefix@, 0);
            assert forall|k: int| 0 <= k < i implies views.take(i + 1)[k] == views.take(i as int)[k] by {}
        }
        if chars_eq(&names[i], prefix) {
            assert(views[i as int] == prefix@);
            return Some(string_of(prefix));
        }
        if suffixed.is_none() && prefix_names_node(prefix, &names[i]) {
            suffixed = Some(i);
            proof {
                assert(views.take(i + 1)[i as int] == views[i as int]);
                lemma_find_named_take(views, prefix@, i as int);
            }
        } else {
            proof {
                lemma_find_named_take(views, prefix@, i as int);
            }
        }
        i = i + 1;
    }
    proof {
        assert(views.take(names@.len() as int) =~= views);
        lemma_find_named(views, prefix@, 0);
        if views.contains(prefix@) {
            let k = choose|k: int| 0 <= k < views.len() && views[k] == prefix@;
            assert(views[k] != prefix@);
        }
    }
    match suffixed {
        Some(j) => {
            assert(views[j as int] == names@[j as int]@);
            Some(string_of(&names[j]))
        },
        None => None,
    }
}

/// How [`find_named`] over a prefix of `views` grows by one element.
pub proof fn lemma_find_named_take(views: Seq<Seq<char>>, prefix: Seq<char>, i: int)
    requires
        0 <= i < views.len(),
    ensures
        find_named(views.take(i), prefix, 0) matches Some(j) ==> find_named(views.take(i + 1), prefix, 0) == Some(j),
        find_named(views.take(i), prefix, 0) is None ==> find_named(views.take(i + 1), prefix, 0) == (if names_node(
            prefix,
            views[i],
        ) {
            Some(i)
        } else {
            None
        }),
        find_named(views.take(i), prefix, 0) is None ==> find_named(views, prefix, 0) == find_named(views, prefix, i),
        find_named(views.take(i), prefix, 0) is None && names_node(prefix, views[i]) ==> find_named(views, prefix, 0) == Some(i),
        find_named(views.take(i), prefix, 0) is None && !names_node(prefix, views[i]) ==> find_named(views, prefix, 0) == find_named(views, prefix, i + 1),
{
    lemma_find_named_prefix_agree(views, views.take(i), prefix, 0, i);
    lemma_find_named_prefix_agree(views, views.take(i + 1), prefix, 0, i + 1);
    lemma_find_named_prefix_agree(views.take(i + 1), views.take(i), prefix, 0, i);
    assert(views.take(i + 1)[i] == views[i]);
    assert(find_named(views.take(i + 1), prefix, i + 1) is None);
    assert(find_named(views, prefix, i) == (if names_node(prefix, views[i]) {
        Some(i)
    } else {
        find_named(views, prefix, i + 1)
    }));
}

/// Two sequences agreeing on `[k, n)`, where `n` is the length of the second,
/// agree on where [`find_named`] lands in that range.
pub proof fn lemma_find_named_prefix_agree(a: Seq<Seq<char>>, b: Seq<Seq<char>>, prefix: Seq<char>, k: int, n: int)
    requires
        0 <= k <= n,
        n == b.len(),
        n <= a.len(),
        forall|m: int| k <= m < n ==> a[m] == b[m],
    ensures
        find_named(b, prefix, k) is Some ==> find_named(a, prefix, k) == find_named(b, prefix, k),
        find_named(b, prefix, k) is None ==> find_named(a, prefix, k) == find_named(a, prefix, n),
    decreases n - k,
{
    if k < n {
        lemma_find_named_prefix_agree(a, b, prefix, k + 1, n);
    }
}

/// The names of owned strings, as character vectors.
fn names_of(sinks: &[String]) -> (names: Vec<Vec<char>>)
    ensures
        names@.map_values(|n: Vec<char>| n@) == string_views(sinks@),
{
    let mut names: Vec<Vec<char>> = Vec::new();
    let mut i: usize = 0;
    while i < sinks.len()
        invariant
            0 <= i <= sinks@.len(),
            names@.map_values(|n: Vec<char>| n@) == string_views(sinks@).take(i as int),
        decreases sinks.len() - i,
    {
        let ghost prev = names@;
        let n = chars_of(sinks[i].as_str());
        names.push(n);
        assert(names@ == prev.push(n));
        assert(string_views(sinks@).take(i + 1) =~= string_views(sinks@).take(i as int).push(sinks@[i as int]@));
        assert(names@.map_values(|n: Vec<char>| n@) =~= string_views(sinks@).take(i + 1));
        i = i + 1;
    }
    assert(string_views(sinks@).take(sinks@.len() as int) =~= string_views(sinks@));
    names
}

/// Pick the sink node name matching `prefix` out of `sinks`: the exact name
/// wherever it sits, else the first name continuing the prefix with a `.`
/// (the card suffix). An empty prefix matches nothing.
pub fn sink_named_by_prefix(sinks: &[String], prefix: &str) -> (found: Option<String>)
    ensures
        opt_string_view(found) == spec_first_named(string_views(sinks@), prefix@),
{
    first_sink_named_by(&names_of(sinks), &chars_of(prefix))
}

/// The planned branches whose speaker sink is actually present in `sinks`.
pub fn reachable_branches(branches: &[CombineBranch], sinks: &[String]) -> (reachable: Vec<CombineBranch>)
    ensures
        bviews(reachable@) == bviews(branches@).filter(
            |b: (Seq<char>, u32)| spec_first_named(string_views(sinks@), b.0) is Some,
        ),
{
    let ghost pred = |b: (Seq<char>, u32)| spec_first_named(string_views(sinks@), b.0) is Some;
    let names = names_of(sinks);
    let mut out: Vec<CombineBranch> = Vec::new();
    let mut i: usize = 0;
    while i < branches.len()
        invariant
            0 <= i <= branches@.len(),
            names@.map_values(|n: Vec<char>| n@) == string_views(sinks@),
            pred == (|b: (Seq<char>, u32)| spec_first_named(string_views(sinks@), b.0) is Some),
            bviews(out@) == bviews(branches@).take(i as int).filter(pred),
        decreases branches.len() - i,
    {
        proof {
            reveal_with_fuel(Seq::<_>::filter, 1);
            assert(bviews(branches@).take(i + 1).drop_last() =~= bviews(branches@).take(i as int));
        }
        let b = &branches[i];
        if first_sink_named_by(&names, &chars_of(b.sink.as_str())).is_some() {
            out.push(b.clone());
            assert(bviews(out@) =~= bviews(branches@).take(i as int).filter(pred).push(bview(branches@[i as int])));
        }
        i = i + 1;
    }
    assert(bviews(branches@).take(branches@.len() as int) =~= bviews(branches@));
    out
}

/// Whether `name` is `prefix` followed by a `.` and more.
pub open spec fn continues_with_dot(prefix: Seq<char>, name: Seq<char>) -> bool {
    name.len() > prefix.len() && name.take(prefix.len() as int + 1) == prefix.push('.')
}

/// A prefix resolves among `names` to nothing when it is empty; to itself when
/// some name is exactly it, wherever that name sits; otherwise to the first
/// name, in list order, that continues it with a `.`, or to nothing when no
/// name does.
pub proof fn law_prefix_resolves_exact_first_then_first_dotted(names: Seq<Seq<char>>, prefix: Seq<char>)
    ensures
        prefix.len() == 0 ==> spec_first_named(names, prefix) is None,
        prefix.len() > 0 && names.contains(prefix) ==> spec_first_named(names, prefix) == Some(prefix),
        prefix.len() > 0 && !names.contains(prefix) ==> match spec_first_named(names, prefix) {
            Some(n) => exists|j: int|
                0 <= j < names.len() && names[j] == n && continues_with_dot(prefix, n) && forall|k: int|
                    0 <= k < j ==> !continues_with_dot(prefix, #[trigger] names[k]),
            None => forall|k: int| 0 <= k < names.len() ==> !continues_with_dot(prefix, #[trigger] names[k]),
        },
{
    if prefix.len() > 0 && !names.contains(prefix) {
        lemma_find_named(names, prefix, 0);
        assert forall|k: int| 0 <= k < names.len() implies names_node(prefix, #[trigger] names[k])
            == continues_with_dot(prefix, names[k]) by {
            let n = names[k];
            assert(n != prefix);
            if n.len() > prefix.len() && n.take(prefix.len() as int) == prefix && n[prefix.len() as int] == '.' {
                assert(n.take(prefix.len() as int + 1) =~= prefix.push('.'));
            }
            if continues_with_dot(prefix, n) {
                assert(n.take(prefix.len() as int + 1)[prefix.len() as int] == '.');
                assert(n.take(prefix.len() as int) =~= n.take(prefix.len() as int + 1).take(prefix.len() as int));
                assert(prefix.push('.').take(prefix.len() as int) =~= prefix);
            }
        }
        match find_named(names, prefix, 0) {
            Some(j) => {
                assert forall|k: int| 0 <= k < j implies !continues_with_dot(prefix, #[trigger] names[k]) by {
                    lemma_find_named_first(names, prefix, 0, k);
                }
            },
            None => {},
        }
    }
}

/// Nothing before where [`find_named`] lands names the node.
proof fn lemma_find_named_first(names: Seq<Seq<char>>, prefix: Seq<char>, i: int, k: int)
    requires
        0 <= i <= k,
        find_named(names, prefix, i) matches Some(j) && k < j,
    ensures
        !names_node(prefix, names[k]),
    decreases names.len() - i,
{
    if i < k {
        lemma_find_named_first(names, prefix, i + 1, k);
    }
}

/// A branch is reachable only where its speaker resolves among the sinks: the
/// reachable branches keep the plan's order, a branch whose sink is empty is
/// never among them, and an empty sink list leaves none.
pub proof fn law_reachable_needs_a_resolving_sink(planned: Seq<(Seq<char>, u32)>, sinks: Seq<Seq<char>>)
    ensures
        forall|i: int|
            0 <= i < spec_reachable(planned, sinks).len() ==> (#[trigger] spec_reachable(planned, sinks)[i]).0.len()
                > 0 && planned.contains(spec_reachable(planned, sinks)[i]),
        sinks.len() == 0 ==> spec_reachable(planned, sinks).len() == 0,
{
    broadcast use vstd::seq_lib::group_filter_ensures;

    let pred = |b: (Seq<char>, u32)| spec_first_named(sinks, b.0) is Some;
    let r = spec_reachable(planned, sinks);
    assert forall|i: int| 0 <= i < r.len() implies (#[trigger] r[i]).0.len() > 0 && planned.contains(r[i]) by {
        assert(pred(r[i]));
        assert(planned.filter(pred).contains(r[i]));
        planned.lemma_filter_contains_rev(pred, r[i]);
    }
    if sinks.len() == 0 && r.len() > 0 {
        assert(pred(r[0]));
        let b = r[0];
        assert(!sinks.contains(b.0));
        lemma_find_named(sinks, b.0, 0);
    }
}

/// What a selection change has to do to an already-loaded combined sink.
#[derive(Debug, Clone, Default, PartialEq, Eq)]
pub struct BranchPlan {
    /// Planned speakers with no loaded branch, which must be loaded.
    pub to_load: Vec<CombineBranch>,
    /// Loaded branches of planned speakers at another delay, to be retuned (the
    /// loaded node name, the planned delay).
    pub to_retune: Vec<CombineBranch>,
    /// Loaded branches the plan no longer calls for, which must be unloaded.
    pub to_unload: Vec<CombineBranch>,
}

/// The index of the first loaded branch at or after `i` that the prefix names.
pub open spec fn find_loaded(loaded: Seq<(Seq<char>, u32)>, prefix: Seq<char>, i: int) -> Option<int>
    decreases loaded.len() - i,
{
    if i < 0 || i >= loaded.len() {
        None
    } else if names_node(prefix, loaded[i].0) {
        Some(i)
    } else {
        find_loaded(loaded, prefix, i + 1)
    }
}

/// Facts about [`find_loaded`].
pub proof fn lemma_find_loaded(loaded: Seq<(Seq<char>, u32)>, prefix: Seq<char>, i: int)
    requires
        0 <= i <= loaded.len(),
    ensures
        find_loaded(loaded, prefix, i) matches Some(j) ==> i <= j < loaded.len() && names_node(prefix, loaded[j].0),
        find_loaded(loaded, prefix, i) is None ==> forall|k: int| i <= k < loaded.len() ==> !names_node(prefix, #[trigger] loaded[k].0),
    decreases loaded.len() - i,
{
    if i < loaded.len() && !names_node(prefix, loaded[i].0) {
        lemma_find_loaded(loaded, prefix, i + 1);
    }
}

/// Whether a planned branch has no loaded counterpart.
pub open spec fn is_missing(loaded: Seq<(Seq<char>, u32)>, planned: (Seq<char>, u32)) -> bool {
    find_loaded(loaded, planned.0, 0) is None
}

/// The retune a planned branch calls for, if any: its first loaded counterpart
/// at another delay, renamed to the loaded node and carrying the planned delay.
pub open spec fn retune_of(loaded: Seq<(Seq<char>, u32)>, planned: (Seq<char>, u32)) -> Option<(Seq<char>, u32)> {
    match find_loaded(loaded, planned.0, 0) {
        Some(j) if loaded[j].1 != planned.1 => Some((loaded[j].0, planned.1)),
        _ => None,
    }
}

/// The retunes of `planned`, in order.
pub open spec fn retunes(loaded: Seq<(Seq<char>, u32)>, planned: Seq<(Seq<char>, u32)>) -> Seq<(Seq<char>, u32)>
    decreases planned.len(),
{
    if planned.len() == 0 {
        seq![]
    } else {
        let rest = retunes(loaded, planned.drop_last());
        match retune_of(loaded, planned.last()) {
            Some(r) => rest.push(r),
            None => rest,
        }
    }
}

/// Whether a loaded branch is named by no planned branch.
pub open spec fn is_unplanned(planned: Seq<(Seq<char>, u32)>, up: (Seq<char>, u32)) -> bool {
    !exists|i: int| 0 <= i < planned.len() && names_node(#[trigger] planned[i].0, up.0)
}

/// The decision [`reconcile_branches`] makes, over branch pairs.
pub open spec fn spec_reconcile(loaded: Seq<(Seq<char>, u32)>, planned: Seq<(Seq<char>, u32)>) -> (
    Seq<(Seq<char>, u32)>,
    Seq<(Seq<char>, u32)>,
    Seq<(Seq<char>, u32)>,
) {
    (
        planned.filter(|p: (Seq<char>, u32)| is_missing(loaded, p)),
        retunes(loaded, planned),
        loaded.filter(|u: (Seq<char>, u32)| is_unplanned(planned, u)),
    )
}

/// The first loaded branch the prefix names, by index.
fn find_loaded_exec(loaded: &[CombineBranch], prefix: &Vec<char>) -> (j: Option<usize>)
    ensures
        j matches Some(k) ==> find_loaded(bviews(loaded@), prefix@, 0) == Some(k as int) && k < loaded@.len(),
        j is None ==> find_loaded(bviews(loaded@), prefix@, 0) is None,
{
    let ghost lv = bviews(loaded@);
    let mut i: usize = 0;
    while i < loaded.len()
        invariant
            lv == bviews(loaded@),
            0 <= i <= loaded@.len(),
            find_loaded(lv, prefix@, 0) == find_loaded(lv, prefix@, i as int),
        decreases loaded.len() - i,
    {
        if prefix_names_node(prefix, &chars_of(loaded[i].sink.as_str())) {
            assert(lv[i as int].0 == loaded@[i as int].sink@);
            return Some(i);
        }
        assert(lv[i as int].0 == loaded@[i as int].sink@);
        i = i + 1;
    }
    None
}

/// Whether some planned branch names the node `node`.
fn is_planned(planned: &[CombineBranch], node: &Vec<char>) -> (named: bool)
    ensures
        named == !is_unplanned(bviews(planned@), (node@, 0u32)),
{
    let ghost pv = bviews(planned@);
    let mut i: usize = 0;
    while i < planned.len()
        invariant
            pv == bviews(planned@),
            0 <= i <= planned@.len(),
            forall|k: int| 0 <= k < i ==> !names_node(#[trigger] pv[k].0, node@),
        decreases planned.len() - i,
    {
        if prefix_names_node(&chars_of(planned[i].sink.as_str()), node) {
            assert(names_node(pv[i as int].0, node@));
            return true;
        }
        i = i + 1;
    }
    false
}

/// Compare the branches loaded for a combined sink against the plan and decide
/// what to change, leaving matching branches alone: a missing branch is
/// loaded, a branch at another delay is retuned in place, and a branch the plan
/// no longer names is unloaded.
pub fn reconcile_branches(loaded: &[CombineBranch], spec: &CombineSinkSpec) -> (plan: BranchPlan)
    ensures
        (bviews(plan.to_load@), bviews(plan.to_retune@), bviews(plan.to_unload@)) == spec_reconcile(
            bviews(loaded@),
            bviews(spec.branches@),
        ),
{
    let ghost lv = bviews(loaded@);
    let ghost pv = bviews(spec.branches@);
    let ghost missing = |p: (Seq<char>, u32)| is_missing(lv, p);
    let mut to_load: Vec<CombineBranch> = Vec::new();
    let mut to_retune: Vec<CombineBranch> = Vec::new();
    let mut i: usize = 0;
    while i < spec.branches.len()
        invariant
            lv == bviews(loaded@),
            pv == bviews(spec.branches@),
            missing == (|p: (Seq<char>, u32)| is_missing(lv, p)),
            0 <= i <= pv.len(),
            bviews(to_load@) == pv.take(i as int).filter(missing),
            bviews(to_retune@) == retunes(lv, pv.take(i as int)),
        decreases spec.branches.len() - i,
    {
        let planned = &spec.branches[i];
        proof {
            reveal_with_fuel(Seq::<_>::filter, 1);
            assert(pv.take(i + 1).drop_last() =~= pv.take(i as int));
            assert(pv.take(i + 1).last() == pv[i as int]);
            assert(pv[i as int] == bview(*planned));
        }
        let prefix = chars_of(planned.sink.as_str());
        match find_loaded_exec(loaded, &prefix) {
            None => {
                to_load.push(planned.clone());
                assert(bviews(to_load@) =~= pv.take(i as int).filter(missing).push(pv[i as int]));
                assert(bviews(to_retune@) =~= retunes(lv, pv.take(i + 1)));
            },
            Some(j) => {
                let up = &loaded[j];
                assert(lv[j as int] == bview(*up));
                if up.latency_ms != planned.latency_ms {
                    to_retune.push(CombineBranch { sink: up.sink.clone(), latency_ms: planned.latency_ms });
                }
                assert(bviews(to_retune@) =~= retunes(lv, pv.take(i + 1)));
                assert(bviews(to_load@) =~= pv.take(i + 1).filter(missing));
            },
        }
        i = i + 1;
    }
    assert(pv.take(pv.len() as int) =~= pv);

    let ghost unplanned = |u: (Seq<char>, u32)| is_unplanned(pv, u);
    let mut to_unload: Vec<CombineBranch> = Vec::new();
    let mut k: usize = 0;
    while k < loaded.len()
        invariant
            lv == bviews(loaded@),
            pv == bviews(spec.branches@),
            unplanned == (|u: (Seq<char>, u32)| is_unplanned(pv, u)),
            0 <= k <= lv.len(),
            bviews(to_unload@) == lv.take(k as int).filter(unplanned),
        decreases loaded.len() - k,
    {
        let up = &loaded[k];
        proof {
            reveal_with_fuel(Seq::<_>::filter, 1);
            assert(lv.take(k + 1).drop_last() =~= lv.take(k as int));
            assert(lv[k as int] == bview(*up));
        }
        let node = chars_of(up.sink.as_str());
        let named = is_planned(spec.branches.as_slice(), &node);
        assert(is_unplanned(pv, lv[k as int]) == is_unplanned(pv, (node@, 0u32)));
        if !named {
            to_unload.push(up.clone());
            assert(bviews(to_unload@) =~= lv.take(k as int).filter(unplanned).push(lv[k as int]));
        }
        k = k + 1;
    }
    assert(lv.take(lv.len() as int) =~= lv);
    BranchPlan { to_load, to_retune, to_unload }
}

/// A graph loaded exactly as planned reconciles as a no-op: when the `i`-th
/// loaded branch is the node the `i`-th planned branch names, at the planned
/// delay, and no planned branch names another one's node, nothing is loaded,
/// retuned or unloaded.
pub proof fn law_a_graph_loaded_from_the_plan_is_left_alone(
    loaded: Seq<(Seq<char>, u32)>,
    planned: Seq<(Seq<char>, u32)>,
)
    requires
        loaded.len() == planned.len(),
        forall|i: int| 0 <= i < planned.len() ==> names_node(#[trigger] planned[i].0, loaded[i].0),
        forall|i: int| 0 <= i < planned.len() ==> (#[trigger] planned[i]).1 == loaded[i].1,
        forall|i: int, j: int|
            0 <= i < planned.len() && 0 <= j < loaded.len() && i != j ==> !names_node(
                #[trigger] planned[i].0,
                #[trigger] loaded[j].0,
            ),
    ensures
        spec_reconcile(loaded, planned).0.len() == 0,
        spec_reconcile(loaded, planned).1.len() == 0,
        spec_reconcile(loaded, planned).2.len() == 0,
{
    let missing = |p: (Seq<char>, u32)| is_missing(loaded, p);
    let unplanned = |u: (Seq<char>, u32)| is_unplanned(planned, u);
    assert forall|i: int| 0 <= i < planned.len() implies !missing(#[trigger] planned[i]) by {
        lemma_find_loaded(loaded, planned[i].0, 0);
        assert(names_node(planned[i].0, loaded[i].0));
    }
    assert forall|i: int| 0 <= i < loaded.len() implies !unplanned(#[trigger] loaded[i]) by {
        assert(names_node(planned[i].0, loaded[i].0));
    }
    planned.lemma_all_neg_filter_empty(missing);
    loaded.lemma_all_neg_filter_empty(unplanned);
    lemma_no_retunes_when_loaded_as_planned(loaded, planned, planned.len() as int);
    assert(planned.take(planned.len() as int) =~= planned);
}

/// Under the hypotheses of [`law_a_graph_loaded_from_the_plan_is_left_alone`],
/// no planned branch asks for a retune.
proof fn lemma_no_retunes_when_loaded_as_planned(loaded: Seq<(Seq<char>, u32)>, planned: Seq<(Seq<char>, u32)>, n: int)
    requires
        0 <= n <= planned.len(),
        loaded.len() == planned.len(),
        forall|i: int| 0 <= i < planned.len() ==> names_node(#[trigger] planned[i].0, loaded[i].0),
        forall|i: int| 0 <= i < planned.len() ==> (#[trigger] planned[i]).1 == loaded[i].1,
        forall|i: int, j: int|
            0 <= i < planned.len() && 0 <= j < loaded.len() && i != j ==> !names_node(
                #[trigger] planned[i].0,
                #[trigger] loaded[j].0,
            ),
    ensures
        retunes(loaded, planned.take(n)).len() == 0,
    decreases n,
{
    if n > 0 {
        lemma_no_retunes_when_loaded_as_planned(loaded, planned, n - 1);
        assert(planned.take(n).drop_last() =~= planned.take(n - 1));
        let p = planned.take(n).last();
        assert(p == planned[n - 1]);
        lemma_find_loaded(loaded, p.0, 0);
        assert(names_node(planned[n - 1].0, loaded[n - 1].0));
        let j = find_loaded(loaded, p.0, 0)->0;
        assert(names_node(planned[n - 1].0, loaded[j].0));
        assert(j == n - 1);
        assert(retune_of(loaded, p) is None);
    }
}

/// Every planned branch is decided exactly once: it is either already up (a
/// loaded branch carries its name), or it is loaded, never both; and no loaded
/// branch that a planned one names is ever unloaded.
pub proof fn law_each_planned_branch_is_decided_once(
    loaded: Seq<(Seq<char>, u32)>,
    planned: Seq<(Seq<char>, u32)>,
    u: (Seq<char>, u32),
)
    requires
        loaded.contains(u),
        exists|i: int| 0 <= i < planned.len() && names_node(#[trigger] planned[i].0, u.0),
    ensures
        !spec_reconcile(loaded, planned).2.contains(u),
{
    let unplanned = |x: (Seq<char>, u32)| is_unplanned(planned, x);
    broadcast use vstd::seq_lib::group_filter_ensures;
    assert(loaded.filter(unplanned).len() >= 0);
}

/// Which branches a reconciliation loads and which it unloads: a planned
/// branch is loaded exactly when no loaded branch carries its name, and a
/// loaded branch is unloaded exactly when no planned branch names it; each
/// list keeps the order of the list it is drawn from.
pub proof fn law_reconcile_loads_the_unmatched_and_unloads_the_unnamed(
    loaded: Seq<(Seq<char>, u32)>,
    planned: Seq<(Seq<char>, u32)>,
)
    ensures
        spec_reconcile(loaded, planned).0 == planned.filter(
            |p: (Seq<char>, u32)| forall|k: int| 0 <= k < loaded.len() ==> !names_node(p.0, #[trigger] loaded[k].0),
        ),
        spec_reconcile(loaded, planned).2 == loaded.filter(
            |u: (Seq<char>, u32)| forall|i: int| 0 <= i < planned.len() ==> !names_node(#[trigger] planned[i].0, u.0),
        ),
{
    let missing = |p: (Seq<char>, u32)| is_missing(loaded, p);
    let unmatched = |p: (Seq<char>, u32)| forall|k: int| 0 <= k < loaded.len() ==> !names_node(p.0, #[trigger] loaded[k].0);
    assert forall|p: (Seq<char>, u32)| #[trigger] missing(p) == unmatched(p) by {
        lemma_find_loaded(loaded, p.0, 0);
        if let Some(j) = find_loaded(loaded, p.0, 0) {
            assert(names_node(p.0, loaded[j].0));
        }
    }
    assert(missing =~= unmatched);
    let unplanned = |u: (Seq<char>, u32)| is_unplanned(planned, u);
    let unnamed = |u: (Seq<char>, u32)| forall|i: int| 0 <= i < planned.len() ==> !names_node(#[trigger] planned[i].0, u.0);
    assert(unplanned =~= unnamed);
}

/// The delay line that carries each confirming reload from the pass that loaded
/// a branch to the first pass at least [`CONFIRM_GAP`] later.
#[derive(Debug, Default, PartialEq, Eq)]
pub struct ConfirmationRegister {
    due: Vec<(String, u64)>,
}

/// How often the repair pass looks at the graph, in milliseconds.
pub const BRANCH_REPAIR_TICK: u64 = 5_000;

/// How long after a branch is loaded it is reloaded once, to confirm it, in
/// milliseconds.
pub const CONFIRM_GAP: u64 = BRANCH_REPAIR_TICK;

/// An armed reload as a pair of the sink name and when it was armed.
pub open spec fn eview(e: (String, u64)) -> (Seq<char>, u64) {
    (e.0@, e.1)
}

/// Whether a reload armed at `armed_at` is owed at `now`.
pub open spec fn is_owed(armed_at: u64, now: u64) -> bool {
    now >= armed_at && now - armed_at >= CONFIRM_GAP
}

/// The reloads still waiting at `now`, in the order they were armed.
pub open spec fn waiting(due: Seq<(Seq<char>, u64)>, now: u64) -> Seq<(Seq<char>, u64)> {
    due.filter(|e: (Seq<char>, u64)| !is_owed(e.1, now))
}

/// The names of the reloads owed at `now`, in the order they were armed.
pub open spec fn owed_names(due: Seq<(Seq<char>, u64)>, now: u64) -> Seq<Seq<char>>
    decreases due.len(),
{
    if due.len() == 0 {
        seq![]
    } else if is_owed(due.last().1, now) {
        owed_names(due.drop_last(), now).push(due.last().0)
    } else {
        owed_names(due.drop_last(), now)
    }
}

/// `due` without the reloads armed for `sink`.
pub open spec fn without_sink(due: Seq<(Seq<char>, u64)>, sink: Seq<char>) -> Seq<(Seq<char>, u64)>
    decreases due.len(),
{
    if due.len() == 0 {
        seq![]
    } else if due.last().0 == sink {
        without_sink(due.drop_last(), sink)
    } else {
        without_sink(due.drop_last(), sink).push(due.last())
    }
}

/// The register after arming `sinks` at `now`: each non-empty name in turn
/// drops its earlier arming and is armed again at the end.
pub open spec fn spec_arm(due: Seq<(Seq<char>, u64)>, sinks: Seq<Seq<char>>, now: u64) -> Seq<(Seq<char>, u64)>
    decreases sinks.len(),
{
    if sinks.len() == 0 {
        due
    } else {
        let before = spec_arm(due, sinks.drop_last(), now);
        let s = sinks.last();
        if s.len() == 0 {
            before
        } else {
            without_sink(before, s).push((s, now))
        }
    }
}

impl View for ConfirmationRegister {
    type V = Seq<(Seq<char>, u64)>;

    closed spec fn view(&self) -> Seq<(Seq<char>, u64)> {
        self.due@.map_values(|e: (String, u64)| eview(e))
    }
}

impl ConfirmationRegister {
    /// A register with nothing armed.
    pub fn new() -> (register: Self)
        ensures
            register@ == Seq::<(Seq<char>, u64)>::empty(),
    {
        let r = ConfirmationRegister { due: Vec::new() };
        assert(r@ =~= Seq::<(Seq<char>, u64)>::empty());
        r
    }

    /// Arm a confirming reload of each of `sinks`, loaded at `now`. Arming a
    /// sink again restarts its wait; an empty name arms nothing.
    pub fn arm(&mut self, sinks: &[String], now: u64)
        ensures
            final(self)@ == spec_arm(old(self)@, string_views(sinks@), now),
    {
        let ghost sv = string_views(sinks@);
        let mut i: usize = 0;
        while i < sinks.len()
            invariant
                sv == string_views(sinks@),
                0 <= i <= sinks@.len(),
                self@ == spec_arm(old(self)@, sv.take(i as int), now),
            decreases sinks.len() - i,
        {
            let sink = &sinks[i];
            proof {
                assert(sv.take(i + 1).drop_last() =~= sv.take(i as int));
                assert(sv.take(i + 1).last() == sink@);
            }
            if sink.unicode_len() > 0 {
                let ghost before = self@;
                let mut kept: Vec<(String, u64)> = Vec::new();
                let mut k: usize = 0;
                while k < self.due.len()
                    invariant
                        before == self@,
                        0 <= k <= self.due@.len(),
                        kept@.map_values(|e: (String, u64)| eview(e)) == without_sink(before.take(k as int), sink@),
                    decreases self.due.len() - k,
                {
                    proof {
                        reveal_with_fuel(Seq::<_>::filter, 1);
                        assert(before.take(k + 1).drop_last() =~= before.take(k as int));
                        assert(before[k as int] == eview(self.due@[k as int]));
                    }
                    let (name, at) = &self.due[k];
                    if !(*name == *sink) {
                        let ghost prevk = kept@;
                        kept.push((name.clone(), *at));
                        assert(kept@ == prevk.push((kept@.last().0, *at)));
                        assert(kept@.map_values(|e: (String, u64)| eview(e)) =~= without_sink(before.take(k + 1), sink@));
                    }
                    k = k + 1;
                }
                assert(before.take(before.len() as int) =~= before);
                let ghost prev = kept@;
                kept.push((sink.clone(), now));
                assert(kept@ == prev.push((kept@.last().0, now)));
                self.due = kept;
                assert(self@ =~= without_sink(before, sink@).push((sink@, now)));
                assert(self@ == spec_arm(old(self)@, sv.take(i + 1), now));
            } else {
                assert(sv.take(i + 1).last().len() == 0);
                assert(self@ == spec_arm(old(self)@, sv.take(i + 1), now));
            }
            i = i + 1;
        }
        assert(sv.take(sv.len() as int) =~= sv);
    }

    /// The sinks armed at least [`CONFIRM_GAP`] before `now`, in the order they
    /// were armed. Each is handed out once: it leaves the register.
    pub fn take_due(&mut self, now: u64) -> (owed: Vec<String>)
        ensures
            string_views(owed@) == owed_names(old(self)@, now),
            final(self)@ == waiting(old(self)@, now),
    {
        let ghost before = self@;
        let ghost owed_p = |e: (Seq<char>, u64)| is_owed(e.1, now);
        let ghost wait_p = |e: (Seq<char>, u64)| !is_owed(e.1, now);
        let mut owed: Vec<String> = Vec::new();
        let mut waiting: Vec<(String, u64)> = Vec::new();
        let mut k: usize = 0;
        while k < self.due.len()
            invariant
                before == self@,
                owed_p == (|e: (Seq<char>, u64)| is_owed(e.1, now)),
                wait_p == (|e: (Seq<char>, u64)| !is_owed(e.1, now)),
                0 <= k <= self.due@.len(),
                string_views(owed@) == owed_names(before.take(k as int), now),
                waiting@.map_values(|e: (String, u64)| eview(e)) == before.take(k as int).filter(wait_p),
            decreases self.due.len() - k,
        {
            proof {
                reveal_with_fuel(Seq::<_>::filter, 1);
                assert(before.take(k + 1).drop_last() =~= before.take(k as int));
                assert(before[k as int] == eview(self.due@[k as int]));
            }
            let (name, at) = &self.due[k];
            let ghost prev_owed = owed@;
            let ghost prev_wait = waiting@;
            if now >= *at && now - *at >= CONFIRM_GAP {
                owed.push(name.clone());
                assert(owed@ == prev_owed.push(owed@.last()));
                assert(string_views(owed@) =~= owed_names(before.take(k + 1), now));
                assert(waiting@.map_values(|e: (String, u64)| eview(e)) =~= before.take(k + 1).filter(wait_p));
            } else {
                waiting.push((name.clone(), *at));
                assert(waiting@ == prev_wait.push(waiting@.last()));
                assert(string_views(owed@) =~= owed_names(before.take(k + 1), now));
                assert(waiting@.map_values(|e: (String, u64)| eview(e)) =~= before.take(k + 1).filter(wait_p));
            }
            k = k + 1;
        }
        assert(before.take(before.len() as int) =~= before);
        self.due = waiting;
        owed
    }

    /// Forget every armed reload: a graph built from nothing owes none of them.
    pub fn clear(&mut self)
        ensures
            final(self)@ == Seq::<(Seq<char>, u64)>::empty(),
    {
        self.due = Vec::new();
        assert(self@ =~= Seq::<(Seq<char>, u64)>::empty());
    }
}

/// A reload is never owed in the pass that armed it, and once handed out it
/// is gone: taking the due reloads twice at the same time owes nothing the
/// second time.
pub proof fn law_a_reload_is_owed_once_and_never_at_once(due: Seq<(Seq<char>, u64)>, now: u64)
    ensures
        !is_owed(now, now),
        due.filter(|e: (Seq<char>, u64)| !is_owed(e.1, now)).filter(|e: (Seq<char>, u64)| is_owed(e.1, now)).len() == 0,
{
    let wait_p = |e: (Seq<char>, u64)| !is_owed(e.1, now);
    let owed_p = |e: (Seq<char>, u64)| is_owed(e.1, now);
    let waiting = due.filter(wait_p);
    broadcast use vstd::seq_lib::group_filter_ensures;
    assert(waiting.len() >= 0);
    assert forall|i: int| 0 <= i < waiting.len() implies !owed_p(#[trigger] waiting[i]) by {}
    waiting.lemma_all_neg_filter_empty(owed_p);
}

/// The names owed at `t` are those of the entries whose reload is owed at `t`.
proof fn lemma_owed_names_members(due: Seq<(Seq<char>, u64)>, t: u64, x: Seq<char>)
    ensures
        owed_names(due, t).contains(x) <==> exists|i: int|
            0 <= i < due.len() && (#[trigger] due[i]).0 == x && is_owed(due[i].1, t),
    decreases due.len(),
{
    if due.len() > 0 {
        let rest = due.drop_last();
        lemma_owed_names_members(rest, t, x);
        let o = owed_names(rest, t);
        if is_owed(due.last().1, t) {
            lemma_contains_drop_last(o.push(due.last().0), x);
            assert(o.push(due.last().0).drop_last() =~= o);
        }
        if exists|i: int| 0 <= i < due.len() && (#[trigger] due[i]).0 == x && is_owed(due[i].1, t) {
            let i = choose|i: int| 0 <= i < due.len() && (#[trigger] due[i]).0 == x && is_owed(due[i].1, t);
            if i < due.len() - 1 {
                assert(rest[i] == due[i]);
            }
        }
        if exists|i: int| 0 <= i < rest.len() && (#[trigger] rest[i]).0 == x && is_owed(rest[i].1, t) {
            let i = choose|i: int| 0 <= i < rest.len() && (#[trigger] rest[i]).0 == x && is_owed(rest[i].1, t);
            assert(due[i] == rest[i]);
        }
    }
}

/// A register that holds each name at most once, and never the empty name.
pub open spec fn held_once(due: Seq<(Seq<char>, u64)>) -> bool {
    &&& forall|i: int| 0 <= i < due.len() ==> (#[trigger] due[i]).0.len() > 0
    &&& forall|i: int, j: int| 0 <= i < j < due.len() ==> (#[trigger] due[i]).0 != (#[trigger] due[j]).0
}

/// A name is in a non-empty list if and only if it is in all but the last
/// entry or it is the last.
proof fn lemma_contains_drop_last(names: Seq<Seq<char>>, x: Seq<char>)
    requires
        names.len() > 0,
    ensures
        names.contains(x) == (names.drop_last().contains(x) || x == names.last()),
{
    if names.contains(x) && x != names.last() {
        let k = choose|k: int| 0 <= k < names.len() && names[k] == x;
        assert(names.drop_last()[k] == x);
    }
    if names.drop_last().contains(x) {
        let k = choose|k: int| 0 <= k < names.drop_last().len() && names.drop_last()[k] == x;
        assert(names[k] == x);
    }
    if x == names.last() {
        assert(names[names.len() - 1] == x);
    }
}

/// [`without_sink`] keeps exactly the entries of other names, and keeps a
/// register holding each name once.
proof fn lemma_without_sink(due: Seq<(Seq<char>, u64)>, s: Seq<char>)
    ensures
        forall|i: int|
            0 <= i < without_sink(due, s).len() ==> (#[trigger] without_sink(due, s)[i]).0 != s && due.contains(
                without_sink(due, s)[i],
            ),
        forall|i: int| 0 <= i < due.len() && (#[trigger] due[i]).0 != s ==> without_sink(due, s).contains(due[i]),
        held_once(due) ==> held_once(without_sink(due, s)),
    decreases due.len(),
{
    if due.len() > 0 {
        let init = due.drop_last();
        lemma_without_sink(init, s);
        let r = without_sink(init, s);
        let w = without_sink(due, s);
        assert forall|i: int| 0 <= i < w.len() implies (#[trigger] w[i]).0 != s && due.contains(w[i]) by {
            if i < r.len() {
                assert(w[i] == r[i]);
                let k = choose|k: int| 0 <= k < init.len() && init[k] == r[i];
                assert(due[k] == init[k]);
            } else {
                assert(due[due.len() - 1] == due.last());
            }
        }
        assert forall|i: int| 0 <= i < due.len() && (#[trigger] due[i]).0 != s implies w.contains(due[i]) by {
            if i < due.len() - 1 {
                assert(init[i] == due[i]);
                let k = choose|k: int| 0 <= k < r.len() && r[k] == init[i];
                assert(w[k] == r[k]);
            } else {
                assert(w[w.len() - 1] == due.last());
            }
        }
        if held_once(due) {
            assert(held_once(init)) by {
                assert forall|i: int| 0 <= i < init.len() implies (#[trigger] init[i]).0.len() > 0 by {
                    assert(init[i] == due[i]);
                }
                assert forall|i: int, j: int| 0 <= i < j < init.len() implies (#[trigger] init[i]).0 != (
                #[trigger] init[j]).0 by {
                    assert(init[i] == due[i] && init[j] == due[j]);
                }
            }
            assert forall|i: int| 0 <= i < w.len() implies (#[trigger] w[i]).0.len() > 0 by {
                let k = choose|k: int| 0 <= k < due.len() && due[k] == w[i];
            }
            assert forall|i: int, j: int| 0 <= i < j < w.len() implies (#[trigger] w[i]).0 != (#[trigger] w[j]).0 by {
                if j < r.len() {
                    assert(w[i] == r[i] && w[j] == r[j]);
                } else {
                    assert(w[i] == r[i]);
                    let k = choose|k: int| 0 <= k < init.len() && init[k] == r[i];
                    assert(due[k] == init[k]);
                    assert(due[due.len() - 1] == due.last());
                }
            }
        }
    }
}

/// Arming keeps a register that holds each name once, and never the empty
/// name; after it, each non-empty name armed is held with the instant of this
/// arming, every name not armed keeps its entry, and nothing else is held. So a
/// register filled by arming alone holds each name at the instant of its last
/// arming; [`ConfirmationRegister::take_due`] then hands out exactly the
/// entries owed and keeps the others with their instants.
pub proof fn law_arming_holds_each_name_once_at_its_last_arming(
    due: Seq<(Seq<char>, u64)>,
    sinks: Seq<Seq<char>>,
    now: u64,
)
    requires
        held_once(due),
    ensures
        held_once(spec_arm(due, sinks, now)),
        forall|k: int| 0 <= k < sinks.len() && (#[trigger] sinks[k]).len() > 0 ==> spec_arm(due, sinks, now).contains(
            (sinks[k], now),
        ),
        forall|i: int|
            0 <= i < due.len() && !sinks.contains((#[trigger] due[i]).0) ==> spec_arm(due, sinks, now).contains(
                due[i],
            ),
        forall|i: int|
            #![trigger spec_arm(due, sinks, now)[i]]
            0 <= i < spec_arm(due, sinks, now).len() ==> (sinks.contains(spec_arm(due, sinks, now)[i].0)
                && spec_arm(due, sinks, now)[i].1 == now) || (!sinks.contains(spec_arm(due, sinks, now)[i].0)
                && due.contains(spec_arm(due, sinks, now)[i])),
    decreases sinks.len(),
{
    if sinks.len() > 0 {
        let rest = sinks.drop_last();
        let s = sinks.last();
        law_arming_holds_each_name_once_at_its_last_arming(due, rest, now);
        let before = spec_arm(due, rest, now);
        let a = spec_arm(due, sinks, now);
        assert forall|x: Seq<char>| #[trigger] sinks.contains(x) == (rest.contains(x) || x == s) by {
            lemma_contains_drop_last(sinks, x);
        }
        if s.len() == 0 {
            assert(a == before);
            assert forall|k: int| 0 <= k < sinks.len() && (#[trigger] sinks[k]).len() > 0 implies a.contains(
                (sinks[k], now),
            ) by {
                assert(rest[k] == sinks[k]);
            }
            assert forall|i: int| 0 <= i < due.len() && !sinks.contains((#[trigger] due[i]).0) implies a.contains(
                due[i],
            ) by {
                assert(!rest.contains(due[i].0));
            }
            assert forall|i: int|
                #![trigger a[i]]
                0 <= i < a.len() implies (sinks.contains(a[i].0) && a[i].1 == now) || (!sinks.contains(a[i].0)
                && due.contains(a[i])) by {
                assert(a[i].0.len() > 0);
            }
        } else {
            lemma_without_sink(before, s);
            let w = without_sink(before, s);
            assert(a == w.push((s, now)));
            assert(held_once(a)) by {
                assert forall|i: int| 0 <= i < a.len() implies (#[trigger] a[i]).0.len() > 0 by {
                    if i < w.len() {
                        assert(a[i] == w[i]);
                    }
                }
                assert forall|i: int, j: int| 0 <= i < j < a.len() implies (#[trigger] a[i]).0 != (#[trigger] a[j]).0 by {
                    assert(a[i] == w[i]);
                    if j < w.len() {
                        assert(a[j] == w[j]);
                    }
                }
            }
            assert forall|k: int| 0 <= k < sinks.len() && (#[trigger] sinks[k]).len() > 0 implies a.contains(
                (sinks[k], now),
            ) by {
                if sinks[k] == s {
                    assert(a[a.len() - 1] == (s, now));
                } else {
                    assert(rest[k] == sinks[k]);
                    assert(before.contains((sinks[k], now)));
                    let j = choose|j: int| 0 <= j < before.len() && before[j] == (sinks[k], now);
                    assert(w.contains(before[j]));
                    let m = choose|m: int| 0 <= m < w.len() && w[m] == before[j];
                    assert(a[m] == w[m]);
                }
            }
            assert forall|i: int| 0 <= i < due.len() && !sinks.contains((#[trigger] due[i]).0) implies a.contains(
                due[i],
            ) by {
                assert(!rest.contains(due[i].0));
                assert(before.contains(due[i]));
                let j = choose|j: int| 0 <= j < before.len() && before[j] == due[i];
                assert(w.contains(before[j]));
                let m = choose|m: int| 0 <= m < w.len() && w[m] == before[j];
                assert(a[m] == w[m]);
            }
            assert forall|i: int|
                #![trigger a[i]]
                0 <= i < a.len() implies (sinks.contains(a[i].0) && a[i].1 == now) || (!sinks.contains(a[i].0)
                && due.contains(a[i])) by {
                if i < w.len() {
                    assert(a[i] == w[i]);
                    assert(w[i].0 != s);
                    let j = choose|j: int| 0 <= j < before.len() && before[j] == w[i];
                    assert(before[j] == a[i]);
                } else {
                    assert(a[i] == (s, now));
                }
            }
        }
    }
}

/// Every branch a pass arms is owed its confirming reload exactly once the
/// gap has passed since that pass: at any later time, its name is among the
/// reloads the register owes if and only if at least [`CONFIRM_GAP`] has
/// gone by since it was armed.
pub proof fn law_an_armed_branch_is_owed_once_the_gap_has_passed(
    due: Seq<(Seq<char>, u64)>,
    sinks: Seq<Seq<char>>,
    now: u64,
    later: u64,
    s: Seq<char>,
)
    requires
        held_once(due),
        sinks.contains(s),
        s.len() > 0,
    ensures
        owed_names(spec_arm(due, sinks, now), later).contains(s) <==> is_owed(now, later),
{
    law_arming_holds_each_name_once_at_its_last_arming(due, sinks, now);
    let a = spec_arm(due, sinks, now);
    let k = choose|k: int| 0 <= k < sinks.len() && sinks[k] == s;
    assert(sinks[k].len() > 0);
    assert(a.contains((s, now)));
    let j = choose|j: int| 0 <= j < a.len() && a[j] == (s, now);
    lemma_owed_names_members(a, later, s);
    if owed_names(a, later).contains(s) {
        let i = choose|i: int| 0 <= i < a.len() && (#[trigger] a[i]).0 == s && is_owed(a[i].1, later);
        if i != j {
            if i < j {
                assert(a[i].0 != a[j].0);
            } else {
                assert(a[j].0 != a[i].0);
            }
        }
    }
    if is_owed(now, later) {
        assert(a[j].0 == s && is_owed(a[j].1, later));
    }
}

/// The register after the armings of `history`, from an empty one: each
/// arming is the sinks one pass loaded and the instant it loaded them.
pub open spec fn armed_after(history: Seq<(Seq<Seq<char>>, u64)>) -> Seq<(Seq<char>, u64)>
    decreases history.len(),
{
    if history.len() == 0 {
        seq![]
    } else {
        spec_arm(armed_after(history.drop_last()), history.last().0, history.last().1)
    }
}

/// The instant `name` was last armed at in `history`; never for the empty name.
pub open spec fn last_armed(history: Seq<(Seq<Seq<char>>, u64)>, name: Seq<char>) -> Option<u64>
    decreases history.len(),
{
    if history.len() == 0 {
        None
    } else if name.len() > 0 && history.last().0.contains(name) {
        Some(history.last().1)
    } else {
        last_armed(history.drop_last(), name)
    }
}

/// Whatever armings a register went through, it holds each name at most once,
/// never the empty name, and holds a name exactly at the instant of its last
/// arming: re-arming restarts a name's wait, and a name never armed is not
/// held. [`ConfirmationRegister::take_due`] then hands out, in arming order,
/// exactly the names whose last arming is at least [`CONFIRM_GAP`] old.
pub proof fn law_a_register_holds_each_name_at_its_last_arming(history: Seq<(Seq<Seq<char>>, u64)>)
    ensures
        held_once(armed_after(history)),
        forall|name: Seq<char>, t: u64|
            #[trigger] armed_after(history).contains((name, t)) <==> last_armed(history, name) == Some(t),
    decreases history.len(),
{
    if history.len() > 0 {
        let init = history.drop_last();
        law_a_register_holds_each_name_at_its_last_arming(init);
        let before = armed_after(init);
        let sinks = history.last().0;
        let now = history.last().1;
        let a = armed_after(history);
        law_arming_holds_each_name_once_at_its_last_arming(before, sinks, now);
        assert forall|name: Seq<char>, t: u64| #[trigger] a.contains((name, t)) <==> last_armed(history, name) == Some(t) by {
            if a.contains((name, t)) {
                let i = choose|i: int| 0 <= i < a.len() && a[i] == (name, t);
                assert(a[i].0.len() > 0);
                if !sinks.contains(name) {
                    assert(before.contains((name, t)));
                }
            }
            if last_armed(history, name) == Some(t) {
                if name.len() > 0 && sinks.contains(name) {
                    let k = choose|k: int| 0 <= k < sinks.len() && sinks[k] == name;
                    assert(a.contains((sinks[k], now)));
                } else {
                    assert(last_armed(init, name) == Some(t));
                    assert(before.contains((name, t)));
                    let i = choose|i: int| 0 <= i < before.len() && before[i] == (name, t);
                    assert(before[i].0.len() > 0);
                    assert(!sinks.contains(before[i].0));
                }
            }
        }
    } else {
        assert(armed_after(history) =~= Seq::<(Seq<char>, u64)>::empty());
    }
}

/// Errors raised while routing audio.
#[derive(Debug)]
pub enum AudioError {
    /// No speaker is connected, so playback cannot be routed anywhere.
    NoSpeakerConnected,
    /// The embedded test file is missing or could not be decoded.
    Decode(String),
    /// The PipeWire daemon is unreachable or rejected the request.
    PipeWire(String),
}

/// The text describing an error.
pub open spec fn spec_audio_error_message(e: AudioError) -> Seq<char> {
    match e {
        AudioError::NoSpeakerConnected => "no speaker connected"@,
        AudioError::Decode(m) => "failed to decode audio: "@ + m@,
        AudioError::PipeWire(m) => "PipeWire error: "@ + m@,
    }
}

impl AudioError {
    /// The text describing the error.
    pub fn to_string(&self) -> (msg: String)
        ensures
            msg@ == spec_audio_error_message(*self),
    {
        match self {
            AudioError::NoSpeakerConnected => String::from_str("no speaker connected"),
            AudioError::Decode(m) => {
                let mut s = String::from_str("failed to decode audio: ");
                s.append(m.as_str());
                s
            },
            AudioError::PipeWire(m) => {
                let mut s = String::from_str("PipeWire error: ");
                s.append(m.as_str());
                s
            },
        }
    }
}

/// What attempting a plan's branches produced.
#[derive(Debug, Default, PartialEq, Eq)]
pub struct BranchLoadReport {
    /// The `sink` prefix of each branch that was loaded, in plan order.
    pub loaded: Vec<String>,
    /// One message per branch that could not be resolved or loaded.
    pub failures: Vec<String>,
}

/// `parts` joined by `sep`.
pub open spec fn join(parts: Seq<Seq<char>>, sep: Seq<char>) -> Seq<char>
    decreases parts.len(),
{
    if parts.len() == 0 {
        seq![]
    } else if parts.len() == 1 {
        parts[0]
    } else {
        join(parts.drop_last(), sep) + sep + parts.last()
    }
}

impl BranchLoadReport {
    /// Turn what the pass could not do into one error for the caller, after the
    /// whole set has been tried: `Ok` when nothing failed, else every message
    /// joined by `"; "`.
    pub fn into_result(self) -> (res: Result<(), AudioError>)
        ensures
            self.failures@.len() == 0 ==> res is Ok,
            self.failures@.len() > 0 ==> (res matches Err(AudioError::PipeWire(m)) && m@ == join(
                string_views(self.failures@),
                "; "@,
            )),
    {
        if self.failures.len() == 0 {
            return Ok(());
        }
        let ghost fv = string_views(self.failures@);
        let mut s = self.failures[0].clone();
        let mut i: usize = 1;
        assert(fv.take(1) =~= seq![fv[0]]);
        while i < self.failures.len()
            invariant
                fv == string_views(self.failures@),
                1 <= i <= fv.len(),
                s@ == join(fv.take(i as int), "; "@),
            decreases self.failures.len() - i,
        {
            s.append("; ");
            s.append(self.failures[i].as_str());
            assert(fv.take(i + 1).drop_last() =~= fv.take(i as int));
            i = i + 1;
        }
        assert(fv.take(fv.len() as int) =~= fv);
        Err(AudioError::PipeWire(s))
    }
}

/// The sinks of the branches whose outcome is `true`, in order.
pub open spec fn loaded_sinks(branches: Seq<CombineBranch>, outcome: Seq<bool>) -> Seq<Seq<char>>
    decreases branches.len(),
{
    if branches.len() == 0 || outcome.len() != branches.len() {
        seq![]
    } else {
        let rest = loaded_sinks(branches.drop_last(), outcome.drop_last());
        if outcome.last() {
            rest.push(branches.last().sink@)
        } else {
            rest
        }
    }
}

/// How many outcomes are `false`.
pub open spec fn count_failed(outcome: Seq<bool>) -> nat
    decreases outcome.len(),
{
    if outcome.len() == 0 {
        0
    } else {
        count_failed(outcome.drop_last()) + if outcome.last() {
            0nat
        } else {
            1nat
        }
    }
}

/// Every branch of a plan is reported exactly once: the loaded ones and the
/// failures together are as many as the plan's branches.
pub proof fn law_every_planned_branch_is_reported_once(branches: Seq<CombineBranch>, outcome: Seq<bool>)
    requires
        outcome.len() == branches.len(),
    ensures
        loaded_sinks(branches, outcome).len() + count_failed(outcome) == branches.len(),
    decreases branches.len(),
{
    if branches.len() > 0 {
        law_every_planned_branch_is_reported_once(branches.drop_last(), outcome.drop_last());
    }
}

/// The sinks the branches of a plan name, in order.
pub open spec fn planned_sinks(branches: Seq<CombineBranch>) -> Seq<Seq<char>> {
    branches.map_values(|b: CombineBranch| b.sink@)
}

/// When no branch failed, every branch of the plan was loaded.
pub proof fn lemma_nothing_failed_loads_the_plan(branches: Seq<CombineBranch>, outcome: Seq<bool>)
    requires
        outcome.len() == branches.len(),
        count_failed(outcome) == 0,
    ensures
        loaded_sinks(branches, outcome) == planned_sinks(branches),
    decreases branches.len(),
{
    if branches.len() > 0 {
        lemma_nothing_failed_loads_the_plan(branches.drop_last(), outcome.drop_last());
        assert(planned_sinks(branches.drop_last()).push(branches.last().sink@) =~= planned_sinks(branches));
    } else {
        assert(planned_sinks(branches) =~= Seq::<Seq<char>>::empty());
    }
}

/// The number of failures among the first `i` outcomes: the index in the
/// report of the failure of branch `i`.
pub open spec fn failures_before(outcome: Seq<bool>, i: int) -> nat {
    count_failed(outcome.take(i))
}

/// Whether `resolve` can answer `b` with a node that `load` then accepts.
pub open spec fn loaded_by<R, L>(resolve: R, load: L, b: CombineBranch) -> bool where
    R: Fn(&CombineBranch) -> Result<String, AudioError>,
    L: Fn(&CombineBranch, &str) -> Result<(), AudioError>,
 {
    exists|node: String, arg: &str, done: Result<(), AudioError>|
        #![trigger call_ensures(resolve, (&b,), Ok::<String, AudioError>(node)), call_ensures(load, (&b, arg), done)]
        arg@ == node@ && call_ensures(resolve, (&b,), Ok::<String, AudioError>(node)) && call_ensures(
            load,
            (&b, arg),
            done,
        ) && done is Ok
}

/// Whether `m` is the message of an error that `resolve` can answer for `b`,
/// or that `load` can answer for a node `resolve` answered.
pub open spec fn failed_with<R, L>(resolve: R, load: L, b: CombineBranch, m: Seq<char>) -> bool where
    R: Fn(&CombineBranch) -> Result<String, AudioError>,
    L: Fn(&CombineBranch, &str) -> Result<(), AudioError>,
 {
    exists|e: AudioError|
        #![trigger spec_audio_error_message(e)]
        m == spec_audio_error_message(e) && (call_ensures(resolve, (&b,), Err::<String, AudioError>(e)) || exists|
            node: String,
            arg: &str,
        |
            #![trigger call_ensures(resolve, (&b,), Ok::<String, AudioError>(node)), call_ensures(load, (&b, arg), Err::<(), AudioError>(e))]
            arg@ == node@ && call_ensures(resolve, (&b,), Ok::<String, AudioError>(node)) && call_ensures(
                load,
                (&b, arg),
                Err::<(), AudioError>(e),
            ))
}

/// Attempt every branch of a plan, independently: resolve it, load it, and
/// record the outcome. A branch that fails never stops the ones after it.
///
/// Branch `i` is loaded exactly when `resolve` answered it with a node and
/// `load` answered `Ok` for that node; the report names the loaded ones in plan
/// order, and for every other one carries, in plan order, the message of the
/// error `resolve` or `load` answered.
pub fn load_planned_branches<R, L>(branches: &[CombineBranch], resolve: R, load: L) -> (report: BranchLoadReport) where
    R: Fn(&CombineBranch) -> Result<String, AudioError>,
    L: Fn(&CombineBranch, &str) -> Result<(), AudioError>,

    requires
        forall|i: int| 0 <= i < branches@.len() ==> resolve.requires((&branches@[i],)),
        forall|i: int, r: &str| 0 <= i < branches@.len() ==> load.requires((&branches@[i], r)),
    ensures
        exists|outcome: Seq<bool>|
            {
                &&& outcome.len() == branches@.len()
                &&& string_views(report.loaded@) == loaded_sinks(branches@, outcome)
                &&& report.failures@.len() == count_failed(outcome)
                &&& forall|i: int|
                    0 <= i < branches@.len() && #[trigger] outcome[i] ==> loaded_by(resolve, load, branches@[i])
                &&& forall|i: int|
                    0 <= i < branches@.len() && !#[trigger] outcome[i] ==> failed_with(
                        resolve,
                        load,
                        branches@[i],
                        report.failures@[failures_before(outcome, i) as int]@,
                    )
            },
{
    let mut report = BranchLoadReport { loaded: Vec::new(), failures: Vec::new() };
    let ghost mut outcome: Seq<bool> = seq![];
    let mut i: usize = 0;
    while i < branches.len()
        invariant
            0 <= i <= branches@.len(),
            forall|k: int| 0 <= k < branches@.len() ==> resolve.requires((&branches@[k],)),
            forall|k: int, r: &str| 0 <= k < branches@.len() ==> load.requires((&branches@[k], r)),
            outcome.len() == i,
            string_views(report.loaded@) == loaded_sinks(branches@.take(i as int), outcome),
            report.failures@.len() == count_failed(outcome),
            forall|k: int| 0 <= k < i && #[trigger] outcome[k] ==> loaded_by(resolve, load, branches@[k]),
            forall|k: int|
                0 <= k < i && !#[trigger] outcome[k] ==> failures_before(outcome, k) < report.failures@.len()
                    && failed_with(resolve, load, branches@[k], report.failures@[failures_before(outcome, k) as int]@),
        decreases branches.len() - i,
    {
        let branch = &branches[i];
        proof {
            assert(branches@.take(i + 1).drop_last() =~= branches@.take(i as int));
            assert(branches@.take(i + 1).last() == *branch);
        }
        let ghost before = report.failures@;
        let ghost b = branches@[i as int];
        let ok = match resolve(branch) {
            Ok(resolved) => {
                let arg = resolved.as_str();
                let answer = load(branch, arg);
                match answer {
                    Ok(()) => {
                        report.loaded.push(branch.sink.clone());
                        assert(loaded_by(resolve, load, b));
                        true
                    },
                    Err(err) => {
                        let m = err.to_string();
                        report.failures.push(m);
                        assert(failed_with(resolve, load, b, m@));
                        false
                    },
                }
            },
            Err(err) => {
                let m = err.to_string();
                report.failures.push(m);
                assert(failed_with(resolve, load, b, m@));
                false
            },
        };
        proof {
            let next = outcome.push(ok);
            assert(next.drop_last() =~= outcome);
            assert(next.take(i as int) =~= outcome);
            assert forall|k: int| 0 <= k < i + 1 && !#[trigger] next[k] implies failures_before(next, k)
                < report.failures@.len() && failed_with(
                resolve,
                load,
                branches@[k],
                report.failures@[failures_before(next, k) as int]@,
            ) by {
                if k < i {
                    assert(next[k] == outcome[k]);
                    assert(next.take(k) =~= outcome.take(k));
                    lemma_count_failed_take(outcome, k);
                    assert(report.failures@[failures_before(next, k) as int] == before[failures_before(outcome, k) as int]);
                } else {
                    assert(failures_before(next, k) == before.len());
                }
            }
            assert forall|k: int| 0 <= k < i + 1 && #[trigger] next[k] implies loaded_by(resolve, load, branches@[k]) by {
                if k < i {
                    assert(next[k] == outcome[k]);
                }
            }
            outcome = next;
        }
        assert(string_views(report.loaded@) =~= loaded_sinks(branches@.take(i + 1), outcome));
        i = i + 1;
    }
    assert(branches@.take(branches@.len() as int) =~= branches@);
    report
}

/// A failure among the first `k` outcomes sits before the total count.
proof fn lemma_count_failed_take(outcome: Seq<bool>, k: int)
    requires
        0 <= k < outcome.len(),
        !outcome[k],
    ensures
        count_failed(outcome.take(k)) < count_failed(outcome),
    decreases outcome.len(),
{
    if k < outcome.len() - 1 {
        lemma_count_failed_take(outcome.drop_last(), k);
        assert(outcome.drop_last().take(k) =~= outcome.take(k));
    } else {
        assert(outcome.take(k) =~= outcome.drop_last());
    }
}

/// `branches` on one log line: each sink with its latency.
pub open spec fn spec_branches_for_log(branches: Seq<CombineBranch>) -> Seq<char>
    decreases branches.len(),
{
    if branches.len() == 0 {
        seq![]
    } else if branches.len() == 1 {
        branch_for_log(branches[0])
    } else {
        spec_branches_for_log(branches.drop_last()) + ", "@ + branch_for_log(branches.last())
    }
}

/// One branch on a log line: `<sink> @ <latency> ms`.
pub open spec fn branch_for_log(b: CombineBranch) -> Seq<char> {
    b.sink@ + " @ "@ + crate::text::decimal_digits(b.latency_ms as nat) + " ms"@
}

/// `branches` on one log line: each sink with its latency.
pub fn branches_for_log(branches: &[CombineBranch]) -> (line: String)
    ensures
        line@ == spec_branches_for_log(branches@),
{
    let mut s = String::new();
    let mut i: usize = 0;
    while i < branches.len()
        invariant
            0 <= i <= branches@.len(),
            s@ == spec_branches_for_log(branches@.take(i as int)),
        decreases branches.len() - i,
    {
        if i > 0 {
            s.append(", ");
        }
        let b = &branches[i];
        s.append(b.sink.as_str());
        s.append(" @ ");
        let digits = crate::text::u32_to_decimal(b.latency_ms);
        s.append(digits.as_str());
        s.append(" ms");
        proof {
            assert(branches@.take(i + 1).drop_last() =~= branches@.take(i as int));
            assert(branches@.take(i + 1).last() == *b);
            if i == 0 {
                assert(branches@.take(1)[0] == *b);
            }
        }
        assert(s@ =~= spec_branches_for_log(branches@.take(i + 1)));
        i = i + 1;
    }
    assert(branches@.take(branches@.len() as int) =~= branches@);
    s
}

/// Pluggable audio output. The engine drives the playback state machine and
/// delegates the actual sound to an implementation of this trait.
pub trait AudioOutput {
    /// Begin streaming `tone` (fresh playback).
    fn start(&mut self, tone: &'static [u8]) -> Result<(), AudioError>;
    /// Resume a previously paused stream.
    fn resume(&mut self) -> Result<(), AudioError>;
    /// Pause the stream, keeping its position.
    fn pause(&mut self) -> Result<(), AudioError>;
    /// Stop and discard the stream.
    fn stop(&mut self) -> Result<(), AudioError>;
    /// Whether playback has reached the end of the source on its own.
    fn is_finished(&self) -> bool;
}

/// No-op output: the state machine runs, but no device is opened.
#[derive(Default)]
pub struct NullOutput;

impl AudioOutput for NullOutput {
    fn start(&mut self, _tone: &'static [u8]) -> (r: Result<(), AudioError>)
        ensures
            r is Ok,
    {
        Ok(())
    }

    fn resume(&mut self) -> (r: Result<(), AudioError>)
        ensures
            r is Ok,
    {
        Ok(())
    }

    fn pause(&mut self) -> (r: Result<(), AudioError>)
        ensures
            r is Ok,
    {
        Ok(())
    }

    fn stop(&mut self) -> (r: Result<(), AudioError>)
        ensures
            r is Ok,
    {
        Ok(())
    }

    fn is_finished(&self) -> (finished: bool)
        ensures
            !finished,
    {
        false
    }
}

/// Where playback stands.
#[derive(Clone, Copy, Debug, PartialEq, Eq, Structural)]
pub enum PlaybackStatus {
    /// Nothing plays; the next play starts from the beginning.
    Stopped,
    /// The output is playing.
    Playing,
    /// The output is paused and keeps its position.
    Paused,
}

/// The playback state machine: it drives the transitions and delegates the
/// sound to an [`AudioOutput`].
pub struct AudioEngine<O: AudioOutput> {
    status: PlaybackStatus,
    output: O,
    tone: &'static [u8],
    /// Every call the engine made on its output, in order, with its answer.
    log: Ghost<Seq<OutputCall>>,
}

/// One call the engine made on its output, with what the output answered.
pub ghost enum OutputCall {
    Start(Seq<u8>, Result<(), AudioError>),
    Resume(Result<(), AudioError>),
    Pause(Result<(), AudioError>),
    Stop(Result<(), AudioError>),
    Finished(bool),
}

/// Whether the engine's result `r` follows the output's answer `a`: a refusal
/// is returned as it is, an acceptance gives `Ok`.
pub open spec fn follows(a: Result<(), AudioError>, r: Result<PlaybackStatus, AudioError>) -> bool {
    match a {
        Ok(_) => r is Ok,
        Err(e) => r == Err::<PlaybackStatus, AudioError>(e),
    }
}

/// `after` is `before` and then `call`.
pub open spec fn then_called(before: Seq<OutputCall>, after: Seq<OutputCall>, call: OutputCall) -> bool {
    after == before.push(call)
}

impl AudioEngine<NullOutput> {
    /// A fresh, stopped engine with a no-op output.
    pub fn new() -> (engine: Self)
        ensures
            engine.status_view() == PlaybackStatus::Stopped,
            engine.tone_view().len() == 0,
    {
        AudioEngine::with_output(NullOutput, &[])
    }
}

impl<O: AudioOutput> AudioEngine<O> {
    /// The engine's current status.
    pub closed spec fn status_view(&self) -> PlaybackStatus {
        self.status
    }

    /// The tone the engine hands its output when playback starts afresh.
    pub closed spec fn tone_view(&self) -> Seq<u8> {
        self.tone@
    }

    /// The output the engine drives.
    pub closed spec fn output_view(&self) -> O {
        self.output
    }

    /// The calls the engine made on its output, in order, with their answers.
    pub closed spec fn plays(&self) -> Seq<OutputCall> {
        self.log@
    }

    /// A fresh, stopped engine driving `output`, which plays `tone` when
    /// playback starts.
    pub fn with_output(output: O, tone: &'static [u8]) -> (engine: Self)
        ensures
            engine.status_view() == PlaybackStatus::Stopped,
            engine.tone_view() == tone@,
            engine.output_view() == output,
            engine.plays().len() == 0,
    {
        AudioEngine { status: PlaybackStatus::Stopped, output, tone, log: Ghost(Seq::empty()) }
    }

    /// The engine's current status.
    pub fn status(&self) -> (status: PlaybackStatus)
        ensures
            status == self.status_view(),
    {
        self.status
    }

    /// If the output finished on its own while the engine still believes it
    /// plays, fall back to `Stopped`.
    fn reconcile(&mut self)
        ensures
            final(self).tone_view() == old(self).tone_view(),
            old(self).status_view() != PlaybackStatus::Playing ==> final(self).status_view()
                == old(self).status_view() && final(self).plays() == old(self).plays(),
            old(self).status_view() == PlaybackStatus::Playing ==> (final(self).status_view()
                == PlaybackStatus::Playing || final(self).status_view() == PlaybackStatus::Stopped)
                && then_called(
                old(self).plays(),
                final(self).plays(),
                OutputCall::Finished(final(self).status_view() == PlaybackStatus::Stopped),
            ),
    {
        if self.status == PlaybackStatus::Playing {
            let finished = self.output.is_finished();
            proof {
                self.log@ = self.log@.push(OutputCall::Finished(finished));
            }
            if finished {
                self.status = PlaybackStatus::Stopped;
            }
        }
    }

    /// Start, or resume, playback; nothing to do while already playing. On
    /// success the engine plays; on a failure of the output it stays where it
    /// was (a finished output having first brought it back to `Stopped`).
    pub fn play(&mut self) -> (r: Result<PlaybackStatus, AudioError>)
        ensures
            final(self).tone_view() == old(self).tone_view(),
            r is Ok <==> final(self).status_view() == PlaybackStatus::Playing,
            r is Ok ==> r == Ok::<PlaybackStatus, AudioError>(PlaybackStatus::Playing),
            r is Err ==> final(self).status_view() == (if old(self).status_view() == PlaybackStatus::Playing {
                PlaybackStatus::Stopped
            } else {
                old(self).status_view()
            }),
            old(self).status_view() == PlaybackStatus::Stopped ==> final(self).plays().len() == old(self).plays().len() + 1
                && final(self).plays().drop_last() == old(self).plays() && (final(self).plays().last() matches OutputCall::Start(t, a)
                && t == old(self).tone_view() && follows(a, r)),
            old(self).status_view() == PlaybackStatus::Paused ==> final(self).plays().len() == old(self).plays().len() + 1
                && final(self).plays().drop_last() == old(self).plays() && (final(self).plays().last() matches OutputCall::Resume(a)
                && follows(a, r)),
            old(self).status_view() == PlaybackStatus::Playing ==> final(self).plays().len() > old(self).plays().len()
                && final(self).plays().take(old(self).plays().len() as int) == old(self).plays() && (final(self).plays()[old(
                self,
            ).plays().len() as int] matches OutputCall::Finished(f) && if f {
                final(self).plays().len() == old(self).plays().len() + 2 && (final(self).plays().last() matches OutputCall::Start(t, a)
                    && t == old(self).tone_view() && follows(a, r))
            } else {
                final(self).plays().len() == old(self).plays().len() + 1 && r is Ok
            }),
    {
        let ghost p0 = self.plays();
        self.reconcile();
        let ghost p1 = self.plays();
        match self.status {
            PlaybackStatus::Playing => {},
            PlaybackStatus::Stopped => {
                let a = self.output.start(self.tone);
                proof {
                    self.log@ = self.log@.push(OutputCall::Start(self.tone@, a));
                    assert(self.plays().drop_last() =~= p1);
                    if old(self).status_view() == PlaybackStatus::Playing {
                        assert(self.plays().take(p0.len() as int) =~= p0);
                        assert(self.plays()[p0.len() as int] == p1.last());
                    }
                }
                if let Err(e) = a {
                    return Err(e);
                }
            },
            PlaybackStatus::Paused => {
                let a = self.output.resume();
                proof {
                    self.log@ = self.log@.push(OutputCall::Resume(a));
                    assert(self.plays().drop_last() =~= p1);
                }
                if let Err(e) = a {
                    return Err(e);
                }
            },
        }
        proof {
            if old(self).status_view() == PlaybackStatus::Playing && self.plays() == p1 {
                assert(self.plays().take(p0.len() as int) =~= p0);
            }
        }
        self.status = PlaybackStatus::Playing;
        Ok(self.status)
    }

    /// Pause playback; nothing to do when nothing plays.
    pub fn pause(&mut self) -> (r: Result<PlaybackStatus, AudioError>)
        ensures
            final(self).tone_view() == old(self).tone_view(),
            r is Ok ==> r == Ok::<PlaybackStatus, AudioError>(final(self).status_view()),
            old(self).status_view() != PlaybackStatus::Playing ==> r == Ok::<
                PlaybackStatus,
                AudioError,
            >(old(self).status_view()) && final(self).status_view() == old(self).status_view(),
            old(self).status_view() == PlaybackStatus::Playing ==> (r is Ok && (final(self).status_view()
                == PlaybackStatus::Paused || final(self).status_view() == PlaybackStatus::Stopped)) || (
            r is Err && final(self).status_view() == PlaybackStatus::Playing),
            old(self).status_view() != PlaybackStatus::Playing ==> final(self).plays() == old(self).plays(),
            old(self).status_view() == PlaybackStatus::Playing ==> final(self).plays().len() > old(self).plays().len()
                && final(self).plays().take(old(self).plays().len() as int) == old(self).plays() && (final(self).plays()[old(
                self,
            ).plays().len() as int] matches OutputCall::Finished(f) && if f {
                final(self).plays().len() == old(self).plays().len() + 1 && r == Ok::<PlaybackStatus, AudioError>(
                    PlaybackStatus::Stopped,
                )
            } else {
                final(self).plays().len() == old(self).plays().len() + 2 && (final(self).plays().last() matches OutputCall::Pause(a)
                    && follows(a, r))
            }),
    {
        let ghost p0 = self.plays();
        self.reconcile();
        let ghost p1 = self.plays();
        if self.status == PlaybackStatus::Playing {
            let a = self.output.pause();
            proof {
                self.log@ = self.log@.push(OutputCall::Pause(a));
                assert(self.plays().take(p0.len() as int) =~= p0);
                assert(self.plays()[p0.len() as int] == p1.last());
            }
            if let Err(e) = a {
                return Err(e);
            }
            self.status = PlaybackStatus::Paused;
        } else {
            proof {
                if old(self).status_view() == PlaybackStatus::Playing {
                    assert(self.plays().take(p0.len() as int) =~= p0);
                }
            }
        }
        Ok(self.status)
    }

    /// Stop playback and reset to the start; nothing to do when stopped. On a
    /// failure of the output the engine stays where it was.
    pub fn stop(&mut self) -> (r: Result<PlaybackStatus, AudioError>)
        ensures
            final(self).tone_view() == old(self).tone_view(),
            old(self).status_view() == PlaybackStatus::Stopped ==> r == Ok::<PlaybackStatus, AudioError>(
                PlaybackStatus::Stopped,
            ),
            r is Ok ==> r == Ok::<PlaybackStatus, AudioError>(PlaybackStatus::Stopped)
                && final(self).status_view() == PlaybackStatus::Stopped,
            r is Err ==> final(self).status_view() == old(self).status_view(),
            old(self).status_view() == PlaybackStatus::Stopped ==> final(self).plays() == old(self).plays(),
            old(self).status_view() != PlaybackStatus::Stopped ==> final(self).plays().len() == old(self).plays().len() + 1
                && final(self).plays().drop_last() == old(self).plays() && (final(self).plays().last() matches OutputCall::Stop(a)
                && follows(a, r)),
    {
        if self.status != PlaybackStatus::Stopped {
            let a = self.output.stop();
            proof {
                self.log@ = self.log@.push(OutputCall::Stop(a));
                assert(self.plays().drop_last() =~= old(self).plays());
            }
            if let Err(e) = a {
                return Err(e);
            }
            self.status = PlaybackStatus::Stopped;
        }
        Ok(self.status)
    }

    /// Reconcile the status with the output, then report it: an output that
    /// finished on its own brings a playing engine back to `Stopped`.
    pub fn poll_state(&mut self) -> (status: PlaybackStatus)
        ensures
            final(self).tone_view() == old(self).tone_view(),
            status == final(self).status_view(),
            old(self).status_view() != PlaybackStatus::Playing ==> status == old(self).status_view(),
            old(self).status_view() == PlaybackStatus::Playing ==> (status == PlaybackStatus::Playing
                || status == PlaybackStatus::Stopped) && then_called(
                old(self).plays(),
                final(self).plays(),
                OutputCall::Finished(status == PlaybackStatus::Stopped),
            ),
            old(self).status_view() != PlaybackStatus::Playing ==> final(self).plays() == old(self).plays(),
    {
        self.reconcile();
        self.status
    }
}

// ─── One reconciliation pass, step by step ─────────────────────────────────

/// A read branch as its id, its pair and its liveness.
pub type ReadView = (u32, (Seq<char>, u32), Option<bool>);

/// The ids of the branches ruled dead (`live == Some(false)`), in order.
pub open spec fn spec_dead_ids(read: Seq<ReadView>) -> Seq<u32>
    decreases read.len(),
{
    if read.len() == 0 {
        seq![]
    } else if read.last().2 == Some(false) {
        spec_dead_ids(read.drop_last()).push(read.last().0)
    } else {
        spec_dead_ids(read.drop_last())
    }
}

/// The branches not ruled dead, in order: unknown liveness keeps a branch.
pub open spec fn spec_kept(read: Seq<ReadView>) -> Seq<ReadView>
    decreases read.len(),
{
    if read.len() == 0 {
        seq![]
    } else if read.last().2 == Some(false) {
        spec_kept(read.drop_last())
    } else {
        spec_kept(read.drop_last()).push(read.last())
    }
}

/// The ids of the branches ruled dead, in the order they were read.
pub fn dead_branch_ids(read: &[LoadedBranch]) -> (ids: Vec<u32>)
    ensures
        ids@ == spec_dead_ids(loaded_views(read@)),
{
    let ghost rv = loaded_views(read@);
    let mut ids: Vec<u32> = Vec::new();
    let mut k: usize = 0;
    while k < read.len()
        invariant
            rv == loaded_views(read@),
            k <= rv.len(),
            ids@ == spec_dead_ids(rv.take(k as int)),
        decreases read.len() - k,
    {
        assert(rv.take(k + 1).drop_last() =~= rv.take(k as int));
        if read[k].live == Some(false) {
            ids.push(read[k].id);
        }
        assert(ids@ =~= spec_dead_ids(rv.take(k + 1)));
        k = k + 1;
    }
    assert(rv.take(rv.len() as int) =~= rv);
    ids
}

/// The branches not ruled dead, in the order they were read.
pub fn kept_branches(read: &[LoadedBranch]) -> (kept: Vec<LoadedBranch>)
    ensures
        loaded_views(kept@) == spec_kept(loaded_views(read@)),
{
    let ghost rv = loaded_views(read@);
    let mut kept: Vec<LoadedBranch> = Vec::new();
    let mut k: usize = 0;
    while k < read.len()
        invariant
            rv == loaded_views(read@),
            k <= rv.len(),
            loaded_views(kept@) == spec_kept(rv.take(k as int)),
        decreases read.len() - k,
    {
        assert(rv.take(k + 1).drop_last() =~= rv.take(k as int));
        if read[k].live != Some(false) {
            kept.push(read[k].clone());
        }
        assert(loaded_views(kept@) =~= spec_kept(rv.take(k + 1)));
        k = k + 1;
    }
    assert(rv.take(rv.len() as int) =~= rv);
    kept
}

/// Whether some branch of `bs` feeds exactly the node `sink`.
pub open spec fn feeds(bs: Seq<(Seq<char>, u32)>, sink: Seq<char>) -> bool {
    exists|k: int| 0 <= k < bs.len() && (#[trigger] bs[k]).0 == sink
}

/// The ids of the kept branches whose node is one the plan unloads, in order.
pub open spec fn spec_unload_ids(kept: Seq<ReadView>, gone: Seq<(Seq<char>, u32)>) -> Seq<u32>
    decreases kept.len(),
{
    if kept.len() == 0 {
        seq![]
    } else if feeds(gone, kept.last().1.0) {
        spec_unload_ids(kept.drop_last(), gone).push(kept.last().0)
    } else {
        spec_unload_ids(kept.drop_last(), gone)
    }
}

/// Whether some branch of `bs` feeds exactly the node `sink`.
fn feeds_node(bs: &[CombineBranch], sink: &str) -> (found: bool)
    ensures
        found == feeds(bviews(bs@), sink@),
{
    let ghost v = bviews(bs@);
    let mut k: usize = 0;
    while k < bs.len()
        invariant
            v == bviews(bs@),
            k <= v.len(),
            forall|j: int| 0 <= j < k ==> (#[trigger] v[j]).0 != sink@,
        decreases bs.len() - k,
    {
        if crate::text::str_eq(bs[k].sink.as_str(), sink) {
            assert(v[k as int].0 == sink@);
            return true;
        }
        k = k + 1;
    }
    false
}

/// The ids of the kept branches feeding a node the plan no longer calls for.
pub fn unload_ids(kept: &[LoadedBranch], gone: &[CombineBranch]) -> (ids: Vec<u32>)
    ensures
        ids@ == spec_unload_ids(loaded_views(kept@), bviews(gone@)),
{
    let ghost kv = loaded_views(kept@);
    let mut ids: Vec<u32> = Vec::new();
    let mut k: usize = 0;
    while k < kept.len()
        invariant
            kv == loaded_views(kept@),
            k <= kv.len(),
            ids@ == spec_unload_ids(kv.take(k as int), bviews(gone@)),
        decreases kept.len() - k,
    {
        assert(kv.take(k + 1).drop_last() =~= kv.take(k as int));
        if feeds_node(gone, kept[k].branch.sink.as_str()) {
            ids.push(kept[k].id);
        }
        assert(ids@ =~= spec_unload_ids(kv.take(k + 1), bviews(gone@)));
        k = k + 1;
    }
    assert(kv.take(kv.len() as int) =~= kv);
    ids
}

/// The retunes one planned delay asks for: each kept branch feeding exactly
/// its node, set to its delay.
pub open spec fn retunes_for(kept: Seq<ReadView>, r: (Seq<char>, u32)) -> Seq<(u32, u32)>
    decreases kept.len(),
{
    if kept.len() == 0 {
        seq![]
    } else if kept.last().1.0 == r.0 {
        retunes_for(kept.drop_last(), r).push((kept.last().0, r.1))
    } else {
        retunes_for(kept.drop_last(), r)
    }
}

/// The retunes the plan asks for, as `(branch id, delay)`, planned delay by
/// planned delay.
pub open spec fn spec_retune_steps(kept: Seq<ReadView>, retunes: Seq<(Seq<char>, u32)>) -> Seq<(u32, u32)>
    decreases retunes.len(),
{
    if retunes.len() == 0 {
        seq![]
    } else {
        spec_retune_steps(kept, retunes.drop_last()) + retunes_for(kept, retunes.last())
    }
}

/// The in-place retunes the plan asks for, as `(branch id, delay)`: for each
/// planned delay in turn, every kept branch feeding exactly its node.
pub fn retune_steps(kept: &[LoadedBranch], retunes: &[CombineBranch]) -> (steps: Vec<(u32, u32)>)
    ensures
        steps@ == spec_retune_steps(loaded_views(kept@), bviews(retunes@)),
{
    let ghost kv = loaded_views(kept@);
    let ghost rv = bviews(retunes@);
    let mut steps: Vec<(u32, u32)> = Vec::new();
    let mut i: usize = 0;
    while i < retunes.len()
        invariant
            kv == loaded_views(kept@),
            rv == bviews(retunes@),
            i <= rv.len(),
            steps@ == spec_retune_steps(kv, rv.take(i as int)),
        decreases retunes.len() - i,
    {
        assert(rv.take(i + 1).drop_last() =~= rv.take(i as int));
        let ghost before = steps@;
        let mut k: usize = 0;
        while k < kept.len()
            invariant
                kv == loaded_views(kept@),
                rv == bviews(retunes@),
                i < rv.len(),
                k <= kv.len(),
                steps@ == before + retunes_for(kv.take(k as int), rv[i as int]),
            decreases kept.len() - k,
        {
            assert(kv.take(k + 1).drop_last() =~= kv.take(k as int));
            if crate::text::str_eq(kept[k].branch.sink.as_str(), retunes[i].sink.as_str()) {
                steps.push((kept[k].id, retunes[i].latency_ms));
            }
            assert(steps@ =~= before + retunes_for(kv.take(k + 1), rv[i as int]));
            k = k + 1;
        }
        assert(kv.take(kv.len() as int) =~= kv);
        i = i + 1;
    }
    assert(rv.take(rv.len() as int) =~= rv);
    steps
}

/// The owed reloads that this very pass did not load again, in order.
pub open spec fn spec_still_owed(due: Seq<Seq<char>>, loaded: Seq<Seq<char>>) -> Seq<Seq<char>>
    decreases due.len(),
{
    if due.len() == 0 {
        seq![]
    } else if loaded.contains(due.last()) {
        spec_still_owed(due.drop_last(), loaded)
    } else {
        spec_still_owed(due.drop_last(), loaded).push(due.last())
    }
}

/// The owed reloads that this very pass did not load again: a branch loaded
/// now waits for its own new gap instead.
pub fn still_owed(due: &[String], loaded: &Vec<String>) -> (owed: Vec<String>)
    ensures
        string_views(owed@) == spec_still_owed(string_views(due@), string_views(loaded@)),
{
    let ghost dv = string_views(due@);
    let mut owed: Vec<String> = Vec::new();
    let mut k: usize = 0;
    while k < due.len()
        invariant
            dv == string_views(due@),
            k <= dv.len(),
            string_views(owed@) == spec_still_owed(dv.take(k as int), string_views(loaded@)),
        decreases due.len() - k,
    {
        assert(dv.take(k + 1).drop_last() =~= dv.take(k as int));
        if !crate::text::contains_str(loaded, due[k].as_str()) {
            owed.push(due[k].clone());
        }
        assert(string_views(owed@) =~= spec_still_owed(dv.take(k + 1), string_views(loaded@)));
        k = k + 1;
    }
    assert(dv.take(dv.len() as int) =~= dv);
    owed
}

/// The planned branches whose confirming reload is owed, in plan order.
pub open spec fn spec_confirming(planned: Seq<(Seq<char>, u32)>, owed: Seq<Seq<char>>) -> Seq<(Seq<char>, u32)>
    decreases planned.len(),
{
    if planned.len() == 0 {
        seq![]
    } else if owed.contains(planned.last().0) {
        spec_confirming(planned.drop_last(), owed).push(planned.last())
    } else {
        spec_confirming(planned.drop_last(), owed)
    }
}

/// The planned branches whose confirming reload is owed, in plan order.
pub fn confirming_branches(planned: &[CombineBranch], owed: &Vec<String>) -> (confirming: Vec<CombineBranch>)
    ensures
        bviews(confirming@) == spec_confirming(bviews(planned@), string_views(owed@)),
{
    let ghost pv = bviews(planned@);
    let mut out: Vec<CombineBranch> = Vec::new();
    let mut k: usize = 0;
    while k < planned.len()
        invariant
            pv == bviews(planned@),
            k <= pv.len(),
            bviews(out@) == spec_confirming(pv.take(k as int), string_views(owed@)),
        decreases planned.len() - k,
    {
        assert(pv.take(k + 1).drop_last() =~= pv.take(k as int));
        if crate::text::contains_str(owed, planned[k].sink.as_str()) {
            out.push(planned[k].clone());
        }
        assert(bviews(out@) =~= spec_confirming(pv.take(k + 1), string_views(owed@)));
        k = k + 1;
    }
    assert(pv.take(pv.len() as int) =~= pv);
    out
}

/// Whether some branch of `planned` names the node `node` by its prefix.
pub open spec fn named_by_some(planned: Seq<(Seq<char>, u32)>, node: Seq<char>) -> bool {
    exists|k: int| 0 <= k < planned.len() && names_node((#[trigger] planned[k]).0, node)
}

/// The ids of the read branches some confirming branch names, in order.
pub open spec fn spec_confirm_unload_ids(read: Seq<ReadView>, confirming: Seq<(Seq<char>, u32)>) -> Seq<u32>
    decreases read.len(),
{
    if read.len() == 0 {
        seq![]
    } else if named_by_some(confirming, read.last().1.0) {
        spec_confirm_unload_ids(read.drop_last(), confirming).push(read.last().0)
    } else {
        spec_confirm_unload_ids(read.drop_last(), confirming)
    }
}

/// The ids of the loaded branches a confirming reload replaces: those whose
/// node some confirming branch's prefix names.
pub fn confirm_unload_ids(read: &[LoadedBranch], confirming: &[CombineBranch]) -> (ids: Vec<u32>)
    ensures
        ids@ == spec_confirm_unload_ids(loaded_views(read@), bviews(confirming@)),
{
    let ghost rv = loaded_views(read@);
    let ghost cv = bviews(confirming@);
    let mut ids: Vec<u32> = Vec::new();
    let mut k: usize = 0;
    while k < read.len()
        invariant
            rv == loaded_views(read@),
            cv == bviews(confirming@),
            k <= rv.len(),
            ids@ == spec_confirm_unload_ids(rv.take(k as int), cv),
        decreases read.len() - k,
    {
        assert(rv.take(k + 1).drop_last() =~= rv.take(k as int));
        let node = chars_of(read[k].branch.sink.as_str());
        let mut named = false;
        let mut j: usize = 0;
        while j < confirming.len()
            invariant
                cv == bviews(confirming@),
                j <= cv.len(),
                node@ == rv[k as int].1.0,
                named == exists|i: int| 0 <= i < j && names_node((#[trigger] cv[i]).0, node@),
            decreases confirming.len() - j,
        {
            let prefix = chars_of(confirming[j].sink.as_str());
            assert(cv[j as int] == bview(confirming@[j as int]));
            if prefix_names_node(&prefix, &node) {
                named = true;
            }
            assert(names_node(cv[j as int].0, node@) ==> names_node(cv[j as int].0, node@));
            j = j + 1;
        }
        if named {
            ids.push(read[k].id);
        }
        assert(ids@ =~= spec_confirm_unload_ids(rv.take(k + 1), cv));
        k = k + 1;
    }
    assert(rv.take(rv.len() as int) =~= rv);
    ids
}

// ─── The router ────────────────────────────────────────────────────────────

/// A name the prefix resolves to is one the prefix names.
pub proof fn lemma_first_named_is_named(names: Seq<Seq<char>>, prefix: Seq<char>)
    ensures
        spec_first_named(names, prefix) matches Some(n) ==> names_node(prefix, n),
{
    if prefix.len() > 0 && !names.contains(prefix) {
        lemma_find_named(names, prefix, 0);
    }
}

/// The message of a target no sink carries.
pub open spec fn no_target_message(target: Seq<char>) -> Seq<char> {
    "no PipeWire sink for target "@ + target
}

/// The message of a branch whose speaker has no sink.
pub open spec fn no_prefix_message(prefix: Seq<char>) -> Seq<char> {
    "no PipeWire sink for prefix "@ + prefix
}

/// Resolve a live sink node name from its `bluez_output.*` prefix (or an exact
/// node name, which resolves to itself). `Ok(None)` when no sink matches; an
/// `Err` is a sink list that could not be read, which a caller must not take
/// for an absent sink. An empty prefix names no node, so it resolves to
/// nothing without the graph being asked. Otherwise the answer is
/// [`sink_named_by_prefix`] over whatever sink list the graph answered, so
/// `Ok(None)` means that list names no node for the prefix.
pub fn find_sink_with_prefix<G: Graph>(graph: &mut G, prefix: &str) -> (r: Result<Option<String>, AudioError>)
    ensures
        prefix@.len() == 0 ==> (r matches Ok(None) && *final(graph) == *old(graph)),
        r matches Ok(Some(n)) ==> names_node(prefix@, n@),
        prefix@.len() > 0 ==> (r matches Ok(found) ==> exists|names: Seq<Seq<char>>|
            opt_string_view(found) == #[trigger] spec_first_named(names, prefix@)),
{
    if prefix.unicode_len() == 0 {
        return Ok(None);
    }
    let sinks = match graph.sinks() {
        Ok(sinks) => sinks,
        Err(e) => return Err(e),
    };
    let found = sink_named_by_prefix(&sinks, prefix);
    proof {
        lemma_first_named_is_named(string_views(sinks@), prefix@);
        assert(opt_string_view(found) == spec_first_named(string_views(sinks@), prefix@));
    }
    Ok(found)
}

/// What a repair pass of the combined sink does once the dead branches are
/// gone, decided from the kept branches and the sink list the graph answered.
#[derive(Debug, Clone, PartialEq, Eq)]
pub struct RepairPlan {
    /// The ids of the kept branches the plan no longer calls for, to unload.
    pub unload: Vec<u32>,
    /// The kept branches at another delay: each id with its planned delay.
    pub retune: Vec<(u32, u32)>,
    /// The planned branches with no kept branch, to load.
    pub load: Vec<CombineBranch>,
    /// The planned branches whose speaker's sink is listed.
    pub reachable: Vec<CombineBranch>,
}

/// The plan's branches whose speaker's sink the list names.
pub open spec fn spec_reachable(planned: Seq<(Seq<char>, u32)>, sinks: Seq<Seq<char>>) -> Seq<(Seq<char>, u32)> {
    planned.filter(|b: (Seq<char>, u32)| spec_first_named(sinks, b.0) is Some)
}

/// The unloads, retunes, loads and reachable branches of a repair pass over
/// the kept branches, against a sink list that names something.
pub open spec fn spec_repair_plan(planned: Seq<(Seq<char>, u32)>, kept: Seq<ReadView>, sinks: Seq<Seq<char>>) -> (
    Seq<u32>,
    Seq<(u32, u32)>,
    Seq<(Seq<char>, u32)>,
    Seq<(Seq<char>, u32)>,
) {
    let reachable = spec_reachable(planned, sinks);
    let r = spec_reconcile(kept.map_values(|v: ReadView| v.1), reachable);
    (spec_unload_ids(kept, r.2), spec_retune_steps(kept, r.1), r.0, reachable)
}

/// Whether a sink-list answer ends a repair pass before it starts: it could
/// not be read, or it names nothing.
pub open spec fn repair_plan_none(sinks: Result<Vec<String>, AudioError>) -> bool {
    match sinks {
        Ok(names) => names@.len() == 0,
        Err(_) => true,
    }
}

/// Decide a repair pass from what the graph answered for its sink list: no
/// pass at all (`None`) when the list could not be read or names nothing,
/// since "cannot tell" must never read as "every speaker is gone"; otherwise
/// the kept branches to unload, those to retune in place, and the planned
/// branches to load.
pub fn repair_plan(spec: &CombineSinkSpec, kept: &[LoadedBranch], sinks: &Result<Vec<String>, AudioError>) -> (plan: Option<RepairPlan>)
    ensures
        match sinks {
            Ok(names) if names@.len() > 0 => plan matches Some(p) && (p.unload@, p.retune@, bviews(p.load@), bviews(
                p.reachable@,
            )) == spec_repair_plan(bviews(spec.branches@), loaded_views(kept@), string_views(names@)),
            _ => plan is None,
        },
{
    let names = match sinks {
        Ok(names) => {
            if names.len() == 0 {
                return None;
            }
            names
        },
        Err(_) => return None,
    };
    let reachable = reachable_branches(&spec.branches, names.as_slice());
    let loaded = branches_of(kept);
    let reconciled = CombineSinkSpec { sink_name: spec.sink_name.clone(), branches: reachable.clone() };
    let plan = reconcile_branches(&loaded, &reconciled);
    let unload = unload_ids(kept, &plan.to_unload);
    let retune = retune_steps(kept, &plan.to_retune);
    proof {
        assert(bviews(reconciled.branches@) == bviews(reachable@));
    }
    Some(RepairPlan { unload, retune, load: plan.to_load, reachable })
}

/// The ids of the read branches feeding exactly the node `node`, in order.
pub open spec fn spec_branch_ids_feeding(read: Seq<ReadView>, node: Seq<char>) -> Seq<u32>
    decreases read.len(),
{
    if read.len() == 0 {
        seq![]
    } else if read.last().1.0 == node {
        spec_branch_ids_feeding(read.drop_last(), node).push(read.last().0)
    } else {
        spec_branch_ids_feeding(read.drop_last(), node)
    }
}

/// The ids of the read branches feeding exactly the node `node`, in order:
/// the branches a retune of that speaker changes the delay of.
pub fn branch_ids_feeding(read: &[LoadedBranch], node: &str) -> (ids: Vec<u32>)
    ensures
        ids@ == spec_branch_ids_feeding(loaded_views(read@), node@),
{
    let ghost rv = loaded_views(read@);
    let mut ids: Vec<u32> = Vec::new();
    let mut k: usize = 0;
    while k < read.len()
        invariant
            rv == loaded_views(read@),
            k <= read@.len(),
            ids@ == spec_branch_ids_feeding(rv.take(k as int), node@),
        decreases read.len() - k,
    {
        assert(rv.take(k + 1).drop_last() =~= rv.take(k as int));
        assert(rv[k as int] == crate::graph::loaded_view(read@[k as int]));
        if crate::text::str_eq(read[k].branch.sink.as_str(), node) {
            ids.push(read[k].id);
        }
        k = k + 1;
    }
    assert(rv.take(rv.len() as int) =~= rv);
    ids
}

/// The branches of read branches, in order.
fn branches_of(read: &[LoadedBranch]) -> (branches: Vec<CombineBranch>)
    ensures
        bviews(branches@) == loaded_views(read@).map_values(|v: ReadView| v.1),
{
    let mut out: Vec<CombineBranch> = Vec::new();
    let mut k: usize = 0;
    while k < read.len()
        invariant
            k <= read@.len(),
            bviews(out@) == loaded_views(read@).take(k as int).map_values(|v: ReadView| v.1),
        decreases read.len() - k,
    {
        let ghost prev = out@;
        let b = read[k].branch.clone();
        out.push(b);
        assert(bviews(out@) =~= bviews(prev).push(bview(read@[k as int].branch)));
        assert(loaded_views(read@).take(k + 1) =~= loaded_views(read@).take(k as int).push(loaded_views(read@)[k as int]));
        assert(bviews(out@) =~= loaded_views(read@).take(k + 1).map_values(|v: ReadView| v.1));
        k = k + 1;
    }
    assert(loaded_views(read@).take(read@.len() as int) =~= loaded_views(read@));
    out
}

/// Append `more` to `list`.
fn extend_strings(list: &mut Vec<String>, more: &Vec<String>)
    ensures
        string_views(final(list)@) == string_views(old(list)@) + string_views(more@),
{
    let mut k: usize = 0;
    while k < more.len()
        invariant
            k <= more@.len(),
            string_views(list@) == string_views(old(list)@) + string_views(more@).take(k as int),
        decreases more.len() - k,
    {
        let ghost prev = list@;
        let m = more[k].clone();
        list.push(m);
        assert(string_views(list@) =~= string_views(prev).push(more@[k as int]@));
        assert(string_views(more@).take(k + 1) =~= string_views(more@).take(k as int).push(more@[k as int]@));
        assert(string_views(list@) =~= string_views(old(list)@) + string_views(more@).take(k + 1));
        k = k + 1;
    }
    assert(string_views(more@).take(more@.len() as int) =~= string_views(more@));
}

/// What resolving `prefix` gives against the sink-list answer `s`: the node
/// the prefix names among the listed sinks, or the refusal naming the prefix
/// when none is named or the list could not be read.
pub open spec fn resolution(s: Result<Seq<Seq<char>>, AudioError>, prefix: Seq<char>) -> Option<Seq<char>> {
    match s {
        Ok(names) => spec_first_named(names, prefix),
        Err(_) => None,
    }
}

/// Whether `r` is what resolving `prefix` against the answer `s` returns.
pub open spec fn resolved_as(s: Result<Seq<Seq<char>>, AudioError>, prefix: Seq<char>, r: Result<String, AudioError>) -> bool {
    match resolution(s, prefix) {
        Some(n) => r matches Ok(x) && x@ == n,
        None => r matches Err(AudioError::PipeWire(m)) && m@ == no_prefix_message(prefix),
    }
}

/// The last call of `calls` past `before`, when it is the only one.
pub open spec fn one_more(before: Seq<GraphCall>, after: Seq<GraphCall>) -> bool {
    after.len() == before.len() + 1 && after.drop_last() == before
}

/// What the graph answered a call: the refusal, if any.
pub open spec fn answer_of(c: GraphCall) -> Result<(), AudioError> {
    match c {
        GraphCall::Sinks(s) => match s {
            Ok(_) => Ok(()),
            Err(e) => Err(e),
        },
        GraphCall::Branches(_, b) => match b {
            Ok(_) => Ok(()),
            Err(e) => Err(e),
        },
        GraphCall::Create(_, a) => a,
        GraphCall::Load(_, _, _, a) => a,
        GraphCall::Unload(_, a) => a,
        GraphCall::SetDelay(_, _, a) => a,
        GraphCall::Teardown(_, a) => a,
        GraphCall::SetDefault(_, a) => a,
    }
}

/// The request `c`, answered `a` (a read keeps its own answer).
pub open spec fn with_answer(c: GraphCall, a: Result<(), AudioError>) -> GraphCall {
    match c {
        GraphCall::Create(n, _) => GraphCall::Create(n, a),
        GraphCall::Load(n, r, ms, _) => GraphCall::Load(n, r, ms, a),
        GraphCall::Unload(id, _) => GraphCall::Unload(id, a),
        GraphCall::SetDelay(id, ms, _) => GraphCall::SetDelay(id, ms, a),
        GraphCall::Teardown(n, _) => GraphCall::Teardown(n, a),
        GraphCall::SetDefault(n, _) => GraphCall::SetDefault(n, a),
        _ => c,
    }
}

/// The unloads of `ids`, in order.
pub open spec fn unload_requests(ids: Seq<u32>) -> Seq<GraphCall> {
    ids.map_values(|id: u32| GraphCall::Unload(id, Ok(())))
}

/// The retunes of `steps`, each an id and its delay, in order.
pub open spec fn retune_requests(steps: Seq<(u32, u32)>) -> Seq<GraphCall> {
    steps.map_values(|st: (u32, u32)| GraphCall::SetDelay(st.0, st.1, Ok(())))
}

/// `calls` issues the requests `wanted` in order, each with whatever the graph
/// answered, and stops at the first refusal: either every request was issued
/// and accepted and `r` is `Ok`, or the last one issued was refused and its
/// refusal is `r`.
pub open spec fn issued_until_refused(wanted: Seq<GraphCall>, calls: Seq<GraphCall>, r: Result<(), AudioError>) -> bool {
    &&& calls.len() <= wanted.len()
    &&& forall|k: int| 0 <= k < calls.len() ==> #[trigger] calls[k] == with_answer(wanted[k], answer_of(calls[k]))
    &&& forall|k: int| 0 <= k < calls.len() - 1 ==> answer_of(#[trigger] calls[k]) is Ok
    &&& match r {
        Ok(()) => calls.len() == wanted.len() && (calls.len() > 0 ==> answer_of(calls.last()) is Ok),
        Err(e) => calls.len() > 0 && answer_of(calls.last()) == Err::<(), AudioError>(e),
    }
}

/// `calls` issues every request of `wanted`, in order, whatever the graph
/// answered each.
pub open spec fn issued_all(wanted: Seq<GraphCall>, calls: Seq<GraphCall>) -> bool {
    &&& calls.len() == wanted.len()
    &&& forall|k: int| 0 <= k < calls.len() ==> #[trigger] calls[k] == with_answer(wanted[k], answer_of(calls[k]))
}

/// The calls made past `before`, when `after` extends it.
pub open spec fn calls_since(before: Seq<GraphCall>, after: Seq<GraphCall>) -> Seq<GraphCall> {
    after.skip(before.len() as int)
}

/// Whether `after` is `before` with more calls after it.
pub open spec fn extends(before: Seq<GraphCall>, after: Seq<GraphCall>) -> bool {
    before.len() <= after.len() && after.take(before.len() as int) == before
}

/// The calls retuning one speaker's branches issue, and what the retune
/// returns, from the answers recorded in `c`: the speaker's prefix resolved
/// against one sink-list read; the combined sink's branches read; then one
/// retune to `latency_ms` per branch feeding the resolved node, in the order
/// read, until one is refused. An empty prefix asks nothing; an empty sink
/// name asks nothing past the resolution.
pub open spec fn retune_log(sink_name: Seq<char>, prefix: Seq<char>, latency_ms: u32, c: Seq<GraphCall>, r: Result<(), AudioError>) -> bool {
    if prefix.len() == 0 {
        &&& c.len() == 0
        &&& r matches Err(AudioError::PipeWire(m)) && m@ == no_prefix_message(prefix)
    } else {
        &&& c.len() >= 1
        &&& c[0] matches GraphCall::Sinks(s) && match resolution(s, prefix) {
            None => {
                &&& c.len() == 1
                &&& r matches Err(AudioError::PipeWire(m)) && m@ == no_prefix_message(prefix)
            },
            Some(node) => if sink_name.len() == 0 {
                &&& c.len() == 1
                &&& r matches Err(AudioError::PipeWire(m)) && m@ == crate::graph_pw::empty_name_message("sink"@)
            } else {
                &&& c.len() >= 2
                &&& c[1] matches GraphCall::Branches(n, b) && n == sink_name && match b {
                    Err(e) => c.len() == 2 && r == Err::<(), AudioError>(e),
                    Ok(read) => issued_until_refused(
                        retune_requests(
                            spec_branch_ids_feeding(read, node).map_values(|id: u32| (id, latency_ms)),
                        ),
                        c.skip(2),
                        r,
                    ),
                }
            },
        }
    }
}

/// The calls loading the branch `b` live from `sink_name` makes, and whether
/// it loaded: an empty prefix asks nothing and fails; any other is resolved
/// against one sink-list read, and only a resolved node gets a load, which
/// decides.
pub open spec fn one_load_log(sink_name: Seq<char>, b: (Seq<char>, u32), g: Seq<GraphCall>, ok: bool) -> bool {
    if b.0.len() == 0 {
        g.len() == 0 && !ok
    } else {
        &&& g.len() >= 1
        &&& g[0] matches GraphCall::Sinks(s) && match resolution(s, b.0) {
            None => g.len() == 1 && !ok,
            Some(n) => {
                &&& g.len() == 2
                &&& g[1] matches GraphCall::Load(sk, rs, ms, a) && sk == sink_name && rs == n && ms == b.1 && ok == (
                a is Ok)
            },
        }
    }
}

/// The groups of calls, one after the other.
pub open spec fn concat_groups(groups: Seq<Seq<GraphCall>>) -> Seq<GraphCall>
    decreases groups.len(),
{
    if groups.len() == 0 {
        seq![]
    } else {
        concat_groups(groups.drop_last()) + groups.last()
    }
}

/// `c` is the calls loading `branches` live from `sink_name` makes, branch
/// after branch, and `outcome` says which branches loaded.
pub open spec fn load_log(sink_name: Seq<char>, branches: Seq<(Seq<char>, u32)>, c: Seq<GraphCall>, outcome: Seq<bool>) -> bool {
    exists|groups: Seq<Seq<GraphCall>>|
        {
            &&& groups.len() == branches.len()
            &&& outcome.len() == branches.len()
            &&& c == #[trigger] concat_groups(groups)
            &&& forall|i: int| 0 <= i < branches.len() ==> one_load_log(sink_name, branches[i], #[trigger] groups[i], outcome[i])
        }
}

/// The names of the branches whose outcome is `true`, in order.
pub open spec fn loaded_names(branches: Seq<(Seq<char>, u32)>, outcome: Seq<bool>) -> Seq<Seq<char>>
    decreases branches.len(),
{
    if branches.len() == 0 || outcome.len() != branches.len() {
        seq![]
    } else {
        let rest = loaded_names(branches.drop_last(), outcome.drop_last());
        if outcome.last() {
            rest.push(branches.last().0)
        } else {
            rest
        }
    }
}

/// [`loaded_sinks`] reads the branches by their views.
proof fn lemma_loaded_names(branches: Seq<CombineBranch>, outcome: Seq<bool>)
    ensures
        loaded_sinks(branches, outcome) == loaded_names(bviews(branches), outcome),
    decreases branches.len(),
{
    if branches.len() > 0 && outcome.len() == branches.len() {
        assert(bviews(branches).drop_last() =~= bviews(branches.drop_last()));
        lemma_loaded_names(branches.drop_last(), outcome.drop_last());
    }
}

/// Whether the graph accepted every call of `c`.
pub open spec fn all_accepted(c: Seq<GraphCall>) -> bool {
    forall|k: int| 0 <= k < c.len() ==> answer_of(#[trigger] c[k]) is Ok
}

/// The calls of a confirmation once the combined sink's branches were read as
/// `read`: the unloads of the branches feeding a confirming speaker until one
/// is refused, then the confirming branches loaded again and the default set
/// once more; the pass succeeds if and only if it was `clean` so far, no
/// confirming load failed and the graph took the default.
pub open spec fn confirm_after_read(
    sink: Seq<char>,
    confirming: Seq<(Seq<char>, u32)>,
    read: Seq<ReadView>,
    c: Seq<GraphCall>,
    r: Result<(), AudioError>,
    clean: bool,
) -> bool {
    exists|c5: Seq<GraphCall>, ru: Result<(), AudioError>|
        #[trigger] issued_until_refused(unload_requests(spec_confirm_unload_ids(read, confirming)), c5, ru)
            && c.take(c5.len() as int) == c5 && match ru {
            Err(e) => c.len() == c5.len() && r == Err::<(), AudioError>(e),
            Ok(_) => exists|c6: Seq<GraphCall>, outcome: Seq<bool>|
                {
                    &&& #[trigger] load_log(sink, confirming, c6, outcome)
                    &&& c.len() == 1 + c5.len() + c6.len()
                    &&& c.skip(c5.len() as int).take(c6.len() as int) == c6
                    &&& c.last() matches GraphCall::SetDefault(n2, a2) && n2 == sink && match a2 {
                        Err(e) => r == Err::<(), AudioError>(e),
                        Ok(_) => (r is Ok <==> clean && count_failed(outcome) == 0),
                    }
                },
        }
}

/// The calls after the combined sink was made the default: when no branch is
/// owed its confirmation, none, and the pass succeeds if and only if it was
/// `clean` so far; otherwise one read of the combined sink's branches and,
/// once read, [`confirm_after_read`].
pub open spec fn confirm_log(
    sink: Seq<char>,
    confirming: Seq<(Seq<char>, u32)>,
    c: Seq<GraphCall>,
    r: Result<(), AudioError>,
    clean: bool,
) -> bool {
    if confirming.len() == 0 {
        c.len() == 0 && (r is Ok <==> clean)
    } else {
        &&& c.len() >= 1
        &&& c[0] matches GraphCall::Branches(n, b) && n == sink && match b {
            Err(e) => c.len() == 1 && r == Err::<(), AudioError>(e),
            Ok(read) => confirm_after_read(sink, confirming, read, c.skip(1), r, clean),
        }
    }
}

/// The calls of a repair pass once the plan is known: the plan's unloads until
/// one is refused; then every retune, whatever the graph answers; the
/// branches to load, live; the combined sink made the default; and then the
/// confirming reloads of the reachable branches still owed one after this
/// pass's loads, from the names `due` at its start. The pass succeeds only if
/// no retune and no load failed.
pub open spec fn repair_log(
    sink: Seq<char>,
    plan: (Seq<u32>, Seq<(u32, u32)>, Seq<(Seq<char>, u32)>, Seq<(Seq<char>, u32)>),
    due: Seq<Seq<char>>,
    c: Seq<GraphCall>,
    r: Result<(), AudioError>,
) -> bool {
    exists|c1: Seq<GraphCall>, ru: Result<(), AudioError>|
        #[trigger] issued_until_refused(unload_requests(plan.0), c1, ru) && c.take(c1.len() as int) == c1 && match ru {
            Err(e) => c.len() == c1.len() && r == Err::<(), AudioError>(e),
            Ok(_) => exists|c2: Seq<GraphCall>, c3: Seq<GraphCall>, outcome: Seq<bool>|
                {
                    &&& #[trigger] issued_all(retune_requests(plan.1), c2)
                    &&& #[trigger] load_log(sink, plan.2, c3, outcome)
                    &&& c.len() >= c1.len() + c2.len() + c3.len() + 1
                    &&& c.skip(c1.len() as int).take(c2.len() as int) == c2
                    &&& c.skip(c1.len() + c2.len() as int).take(c3.len() as int) == c3
                    &&& c[c1.len() + c2.len() + c3.len() as int] matches GraphCall::SetDefault(n, a) && n == sink && match a {
                        Err(e) => c.len() == c1.len() + c2.len() + c3.len() + 1 && r == Err::<(), AudioError>(e),
                        Ok(_) => confirm_log(
                            sink,
                            spec_confirming(plan.3, spec_still_owed(due, loaded_names(plan.2, outcome))),
                            c.skip(c1.len() + c2.len() + c3.len() as int + 1),
                            r,
                            all_accepted(c2) && count_failed(outcome) == 0,
                        ),
                    }
                },
        }
}

/// The calls of a reconciliation once the combined sink's branches were read
/// as `read`: every dead branch unloaded, whatever the graph answers; one read
/// of the sink list; and then, unless that list could not be read or names
/// nothing (which ends the pass with `Ok`), the [`repair_log`] of the plan
/// those answers give, from the names `due` at the start.
pub open spec fn reconcile_after_read(
    sink: Seq<char>,
    planned: Seq<(Seq<char>, u32)>,
    read: Seq<ReadView>,
    due: Seq<Seq<char>>,
    c: Seq<GraphCall>,
    r: Result<(), AudioError>,
) -> bool {
    let d = spec_dead_ids(read);
    &&& c.len() >= d.len() + 1
    &&& issued_all(unload_requests(d), c.take(d.len() as int))
    &&& c[d.len() as int] matches GraphCall::Sinks(s) && match s {
        Err(_) => c.len() == d.len() + 1 && r is Ok,
        Ok(names) => if names.len() == 0 {
            c.len() == d.len() + 1 && r is Ok
        } else {
            repair_log(sink, spec_repair_plan(planned, spec_kept(read), names), due, c.skip(d.len() as int + 1), r)
        },
    }
}

/// The calls of a reconciliation of the combined sink `sink` towards the
/// planned branches: one read of its branches, which ends the pass with its
/// error when it cannot be read, and then [`reconcile_after_read`].
pub open spec fn reconcile_log(
    sink: Seq<char>,
    planned: Seq<(Seq<char>, u32)>,
    due: Seq<Seq<char>>,
    c: Seq<GraphCall>,
    r: Result<(), AudioError>,
) -> bool {
    &&& c.len() >= 1
    &&& c[0] matches GraphCall::Branches(n, b) && n == sink && match b {
        Err(e) => c.len() == 1 && r == Err::<(), AudioError>(e),
        Ok(read) => reconcile_after_read(sink, planned, read, due, c.skip(1), r),
    }
}

/// The calls of a build once the combined sink was created: the planned
/// branches loaded live, then the default set; the build succeeds if and only
/// if the graph took the default and no branch failed.
pub open spec fn build_after_create(sink: Seq<char>, planned: Seq<(Seq<char>, u32)>, c: Seq<GraphCall>, r: Result<(), AudioError>) -> bool {
    exists|c3: Seq<GraphCall>, outcome: Seq<bool>|
        {
            &&& #[trigger] load_log(sink, planned, c3, outcome)
            &&& c.len() == c3.len() + 1
            &&& c.take(c3.len() as int) == c3
            &&& c.last() matches GraphCall::SetDefault(n, a) && n == sink && match a {
                Err(e) => r == Err::<(), AudioError>(e),
                Ok(_) => (r is Ok <==> count_failed(outcome) == 0),
            }
        }
}

/// The calls of a build of the combined sink `sink` from nothing: a teardown of
/// whatever is left of it, the creation of its null sink, and then
/// [`build_after_create`]; a refused teardown or creation ends the build with
/// its error.
pub open spec fn build_log(sink: Seq<char>, planned: Seq<(Seq<char>, u32)>, c: Seq<GraphCall>, r: Result<(), AudioError>) -> bool {
    &&& c.len() >= 1
    &&& c[0] matches GraphCall::Teardown(n, a) && n == sink && match a {
        Err(e) => c.len() == 1 && r == Err::<(), AudioError>(e),
        Ok(_) => {
            &&& c.len() >= 2
            &&& c[1] matches GraphCall::Create(n2, a2) && n2 == sink && match a2 {
                Err(e) => c.len() == 2 && r == Err::<(), AudioError>(e),
                Ok(_) => build_after_create(sink, planned, c.skip(2), r),
            }
        },
    }
}

/// Whether the calls `c` of a reconciliation show a pass that plans no load:
/// its branch read rules no branch dead, and the sink list read next names
/// something and leaves no planned branch to load.
pub open spec fn plans_no_load(planned: Seq<(Seq<char>, u32)>, c: Seq<GraphCall>) -> bool {
    c.len() >= 2 && match (c[0], c[1]) {
        (GraphCall::Branches(_, Ok(read)), GraphCall::Sinks(Ok(names))) => {
            &&& spec_dead_ids(read).len() == 0
            &&& names.len() > 0
            &&& spec_repair_plan(planned, spec_kept(read), names).2.len() == 0
        },
        _ => false,
    }
}

/// Whether the calls `c` of a routing pass found the combined sink `sink`
/// listed and reconciled it with no load planned ([`plans_no_load`]).
pub open spec fn reconciles_without_loading(sink: Seq<char>, planned: Seq<(Seq<char>, u32)>, c: Seq<GraphCall>) -> bool {
    &&& c.len() >= 1
    &&& match c[0] {
        GraphCall::Sinks(s) => lookup_answer(s, sink) matches Ok(Some(_)),
        _ => false,
    }
    &&& plans_no_load(planned, c.skip(1))
}

/// The calls of routing to the combined sink `sink` once the graph answered
/// whether it lists it (`found`): an unreadable list is the error and nothing
/// is called; a listed sink is reconciled ([`reconcile_log`]) and a missing one
/// built ([`build_log`]).
pub open spec fn route_log(
    sink: Seq<char>,
    planned: Seq<(Seq<char>, u32)>,
    due: Seq<Seq<char>>,
    found: Result<Option<Seq<char>>, AudioError>,
    c: Seq<GraphCall>,
    r: Result<(), AudioError>,
) -> bool {
    match found {
        Err(e) => c.len() == 0 && r == Err::<(), AudioError>(e),
        Ok(Some(_)) => reconcile_log(sink, planned, due, c, r),
        Ok(None) => build_log(sink, planned, c, r),
    }
}

/// What looking `sink` up in the sink-list answer `s` found.
pub open spec fn lookup_answer(s: Result<Seq<Seq<char>>, AudioError>, sink: Seq<char>) -> Result<Option<Seq<char>>, AudioError> {
    match s {
        Ok(names) => Ok(spec_first_named(names, sink)),
        Err(e) => Err(e),
    }
}

/// The view of a lookup result.
pub open spec fn found_view(found: Result<Option<String>, AudioError>) -> Result<Option<Seq<char>>, AudioError> {
    match found {
        Ok(f) => Ok(opt_string_view(f)),
        Err(e) => Err(e),
    }
}

/// The calls of routing to the combined sink `sink`: one sink-list read to
/// look it up, then [`route_log`] on what it found.
pub open spec fn route_pass_log(
    sink: Seq<char>,
    planned: Seq<(Seq<char>, u32)>,
    due: Seq<Seq<char>>,
    c: Seq<GraphCall>,
    r: Result<(), AudioError>,
) -> bool {
    &&& c.len() >= 1
    &&& c[0] matches GraphCall::Sinks(s) && route_log(sink, planned, due, lookup_answer(s, sink), c.skip(1), r)
}

/// Whether no call of `c` tears a combined sink down or creates one.
pub open spec fn keeps_null_sink(c: Seq<GraphCall>) -> bool {
    forall|k: int| 0 <= k < c.len() ==> !(#[trigger] c[k] is Teardown) && !(c[k] is Create)
}

/// Calls whose every stretch keeps the null sink keep it.
proof fn lemma_keeps_split(c: Seq<GraphCall>, n: int)
    requires
        0 <= n <= c.len(),
        keeps_null_sink(c.take(n)),
        keeps_null_sink(c.skip(n)),
    ensures
        keeps_null_sink(c),
{
    assert forall|k: int| 0 <= k < c.len() implies !(#[trigger] c[k] is Teardown) && !(c[k] is Create) by {
        if k < n {
            assert(c.take(n)[k] == c[k]);
        } else {
            assert(c.skip(n)[k - n] == c[k]);
        }
    }
}

/// Unloads, retunes and loads never tear down or create a combined sink.
proof fn lemma_unloads_keep(ids: Seq<u32>, c: Seq<GraphCall>, r: Result<(), AudioError>)
    requires
        issued_until_refused(unload_requests(ids), c, r) || issued_all(unload_requests(ids), c),
    ensures
        keeps_null_sink(c),
{
    assert forall|k: int| 0 <= k < c.len() implies !(#[trigger] c[k] is Teardown) && !(c[k] is Create) by {
        assert(c[k] == with_answer(unload_requests(ids)[k], answer_of(c[k])));
    }
}

/// Retunes never tear down or create a combined sink.
proof fn lemma_retunes_keep(steps: Seq<(u32, u32)>, c: Seq<GraphCall>)
    requires
        issued_all(retune_requests(steps), c),
    ensures
        keeps_null_sink(c),
{
    assert forall|k: int| 0 <= k < c.len() implies !(#[trigger] c[k] is Teardown) && !(c[k] is Create) by {
        assert(c[k] == with_answer(retune_requests(steps)[k], answer_of(c[k])));
    }
}

/// Loading branches live never tears down or creates a combined sink.
proof fn lemma_loads_keep(sink: Seq<char>, branches: Seq<(Seq<char>, u32)>, c: Seq<GraphCall>, outcome: Seq<bool>)
    requires
        load_log(sink, branches, c, outcome),
    ensures
        keeps_null_sink(c),
{
    let groups = choose|groups: Seq<Seq<GraphCall>>|
        {
            &&& groups.len() == branches.len()
            &&& outcome.len() == branches.len()
            &&& c == #[trigger] concat_groups(groups)
            &&& forall|i: int| 0 <= i < branches.len() ==> one_load_log(sink, branches[i], #[trigger] groups[i], outcome[i])
        };
    lemma_groups_keep(sink, branches, groups, outcome);
}

/// Groups of one-branch load calls never tear down or create a combined sink.
proof fn lemma_groups_keep(sink: Seq<char>, branches: Seq<(Seq<char>, u32)>, groups: Seq<Seq<GraphCall>>, outcome: Seq<bool>)
    requires
        groups.len() == branches.len(),
        outcome.len() == branches.len(),
        forall|i: int| 0 <= i < branches.len() ==> one_load_log(sink, branches[i], #[trigger] groups[i], outcome[i]),
    ensures
        keeps_null_sink(concat_groups(groups)),
    decreases groups.len(),
{
    if groups.len() > 0 {
        let n = (groups.len() - 1) as int;
        assert forall|i: int| 0 <= i < n implies one_load_log(sink, branches.drop_last()[i], #[trigger] groups.drop_last()[i], outcome.drop_last()[i]) by {
            assert(groups.drop_last()[i] == groups[i]);
        }
        lemma_groups_keep(sink, branches.drop_last(), groups.drop_last(), outcome.drop_last());
        let c = concat_groups(groups);
        let front = concat_groups(groups.drop_last());
        let g = groups.last();
        assert(one_load_log(sink, branches[n], groups[n], outcome[n]));
        assert(c.take(front.len() as int) =~= front);
        assert(c.skip(front.len() as int) =~= g);
        assert forall|k: int| 0 <= k < g.len() implies !(#[trigger] g[k] is Teardown) && !(g[k] is Create) by {
            if k == 1 {
                assert(g[1] is Load);
            }
        }
        lemma_keeps_split(c, front.len() as int);
    }
}

/// A confirmation's calls never tear down or create a combined sink.
proof fn lemma_confirm_keeps(sink: Seq<char>, confirming: Seq<(Seq<char>, u32)>, c: Seq<GraphCall>, r: Result<(), AudioError>, clean: bool)
    requires
        confirm_log(sink, confirming, c, r, clean),
    ensures
        keeps_null_sink(c),
{
    if confirming.len() > 0 {
        let b = c[0]->Branches_1;
        if let Ok(read) = b {
            let t = c.skip(1);
            assert(confirm_after_read(sink, confirming, read, t, r, clean));
            let (c5, ru) = choose|c5: Seq<GraphCall>, ru: Result<(), AudioError>|
                #[trigger] issued_until_refused(unload_requests(spec_confirm_unload_ids(read, confirming)), c5, ru)
                    && t.take(c5.len() as int) == c5 && match ru {
                    Err(e) => t.len() == c5.len() && r == Err::<(), AudioError>(e),
                    Ok(_) => exists|c6: Seq<GraphCall>, outcome: Seq<bool>|
                        {
                            &&& #[trigger] load_log(sink, confirming, c6, outcome)
                            &&& t.len() == 1 + c5.len() + c6.len()
                            &&& t.skip(c5.len() as int).take(c6.len() as int) == c6
                            &&& t.last() matches GraphCall::SetDefault(n2, a2) && n2 == sink && match a2 {
                                Err(e) => r == Err::<(), AudioError>(e),
                                Ok(_) => (r is Ok <==> clean && count_failed(outcome) == 0),
                            }
                        },
                };
            lemma_unloads_keep(spec_confirm_unload_ids(read, confirming), c5, ru);
            if ru is Ok {
                let (c6, outcome) = choose|c6: Seq<GraphCall>, outcome: Seq<bool>|
                    {
                        &&& #[trigger] load_log(sink, confirming, c6, outcome)
                        &&& t.len() == 1 + c5.len() + c6.len()
                        &&& t.skip(c5.len() as int).take(c6.len() as int) == c6
                        &&& t.last() matches GraphCall::SetDefault(n2, a2) && n2 == sink && match a2 {
                            Err(e) => r == Err::<(), AudioError>(e),
                            Ok(_) => (r is Ok <==> clean && count_failed(outcome) == 0),
                        }
                    };
                lemma_loads_keep(sink, confirming, c6, outcome);
                let u = t.skip(c5.len() as int);
                assert(u.take(c6.len() as int) == c6);
                assert(u.skip(c6.len() as int) =~= seq![t.last()]);
                assert(keeps_null_sink(u.skip(c6.len() as int)));
                lemma_keeps_split(u, c6.len() as int);
                lemma_keeps_split(t, c5.len() as int);
            } else {
                assert(t.take(c5.len() as int) =~= t);
            }
            assert(c.take(1) =~= seq![c[0]]);
            lemma_keeps_split(c, 1);
        } else {
            assert(c.take(1) =~= seq![c[0]]);
        }
    }
}

/// A repair pass's calls never tear down or create a combined sink.
proof fn lemma_repair_keeps(
    sink: Seq<char>,
    plan: (Seq<u32>, Seq<(u32, u32)>, Seq<(Seq<char>, u32)>, Seq<(Seq<char>, u32)>),
    due: Seq<Seq<char>>,
    c: Seq<GraphCall>,
    r: Result<(), AudioError>,
)
    requires
        repair_log(sink, plan, due, c, r),
    ensures
        keeps_null_sink(c),
{
    let (c1, ru) = choose|c1: Seq<GraphCall>, ru: Result<(), AudioError>|
        #[trigger] issued_until_refused(unload_requests(plan.0), c1, ru) && c.take(c1.len() as int) == c1 && match ru {
            Err(e) => c.len() == c1.len() && r == Err::<(), AudioError>(e),
            Ok(_) => exists|c2: Seq<GraphCall>, c3: Seq<GraphCall>, outcome: Seq<bool>|
                {
                    &&& #[trigger] issued_all(retune_requests(plan.1), c2)
                    &&& #[trigger] load_log(sink, plan.2, c3, outcome)
                    &&& c.len() >= c1.len() + c2.len() + c3.len() + 1
                    &&& c.skip(c1.len() as int).take(c2.len() as int) == c2
                    &&& c.skip(c1.len() + c2.len() as int).take(c3.len() as int) == c3
                    &&& c[c1.len() + c2.len() + c3.len() as int] matches GraphCall::SetDefault(n, a) && n == sink && match a {
                        Err(e) => c.len() == c1.len() + c2.len() + c3.len() + 1 && r == Err::<(), AudioError>(e),
                        Ok(_) => confirm_log(
                            sink,
                            spec_confirming(plan.3, spec_still_owed(due, loaded_names(plan.2, outcome))),
                            c.skip(c1.len() + c2.len() + c3.len() as int + 1),
                            r,
                            all_accepted(c2) && count_failed(outcome) == 0,
                        ),
                    }
                },
        };
    lemma_unloads_keep(plan.0, c1, ru);
    if ru is Err {
        assert(c =~= c1) by {
            assert(c.take(c1.len() as int) =~= c);
        }
    } else {
        let (c2, c3, outcome) = choose|c2: Seq<GraphCall>, c3: Seq<GraphCall>, outcome: Seq<bool>|
            {
                &&& #[trigger] issued_all(retune_requests(plan.1), c2)
                &&& #[trigger] load_log(sink, plan.2, c3, outcome)
                &&& c.len() >= c1.len() + c2.len() + c3.len() + 1
                &&& c.skip(c1.len() as int).take(c2.len() as int) == c2
                &&& c.skip(c1.len() + c2.len() as int).take(c3.len() as int) == c3
                &&& c[c1.len() + c2.len() + c3.len() as int] matches GraphCall::SetDefault(n, a) && n == sink && match a {
                    Err(e) => c.len() == c1.len() + c2.len() + c3.len() + 1 && r == Err::<(), AudioError>(e),
                    Ok(_) => confirm_log(
                        sink,
                        spec_confirming(plan.3, spec_still_owed(due, loaded_names(plan.2, outcome))),
                        c.skip(c1.len() + c2.len() + c3.len() as int + 1),
                        r,
                        all_accepted(c2) && count_failed(outcome) == 0,
                    ),
                }
            };
        lemma_retunes_keep(plan.1, c2);
        lemma_loads_keep(sink, plan.2, c3, outcome);
        let n3 = c1.len() + c2.len() + c3.len();
        let tail = c.skip(n3 as int + 1);
        let a = c[n3 as int]->SetDefault_1;
        if a is Ok {
            lemma_confirm_keeps(
                sink,
                spec_confirming(plan.3, spec_still_owed(due, loaded_names(plan.2, outcome))),
                tail,
                r,
                all_accepted(c2) && count_failed(outcome) == 0,
            );
        } else {
            assert(tail.len() == 0);
        }
        let u3 = c.skip(c1.len() + c2.len() as int);
        assert(u3.skip(c3.len() as int).take(1) =~= seq![c[n3 as int]]);
        assert(u3.skip(c3.len() as int).skip(1) =~= tail);
        lemma_keeps_split(u3.skip(c3.len() as int), 1);
        lemma_keeps_split(u3, c3.len() as int);
        let u2 = c.skip(c1.len() as int);
        assert(u2.skip(c2.len() as int) =~= u3);
        lemma_keeps_split(u2, c2.len() as int);
        lemma_keeps_split(c, c1.len() as int);
    }
}

/// Retuning a speaker only reads and retunes: it never loads, unloads, tears
/// down or creates anything, nor changes the default sink, so whatever feeds
/// the combined sink keeps streaming.
pub proof fn law_retuning_only_reads_and_retunes(
    sink_name: Seq<char>,
    prefix: Seq<char>,
    latency_ms: u32,
    c: Seq<GraphCall>,
    r: Result<(), AudioError>,
)
    requires
        retune_log(sink_name, prefix, latency_ms, c, r),
    ensures
        forall|k: int| 0 <= k < c.len() ==> (#[trigger] c[k] is Sinks) || c[k] is Branches || c[k] is SetDelay,
{
    assert forall|k: int| 0 <= k < c.len() implies (#[trigger] c[k] is Sinks) || c[k] is Branches || c[k] is SetDelay by {
        if k >= 2 {
            let read = c[1]->Branches_1->Ok_0;
            let node = resolution(c[0]->Sinks_0, prefix)->Some_0;
            let wanted = retune_requests(spec_branch_ids_feeding(read, node).map_values(|id: u32| (id, latency_ms)));
            assert(c.skip(2)[k - 2] == c[k]);
            assert(c.skip(2)[k - 2] == with_answer(wanted[k - 2], answer_of(c.skip(2)[k - 2])));
        }
    }
}

/// No branch read live, or not known yet, is ruled dead.
proof fn lemma_no_dead_branches(read: Seq<ReadView>)
    requires
        forall|k: int| 0 <= k < read.len() ==> (#[trigger] read[k]).2 != Some(false),
    ensures
        spec_dead_ids(read) == Seq::<u32>::empty(),
        spec_kept(read) == read,
    decreases read.len(),
{
    if read.len() > 0 {
        let rest = read.drop_last();
        assert forall|k: int| 0 <= k < rest.len() implies (#[trigger] rest[k]).2 != Some(false) by {
            assert(rest[k] == read[k]);
        }
        lemma_no_dead_branches(rest);
        assert(read.last() == read[read.len() - 1]);
        assert(rest.push(read.last()) =~= read);
    }
}

/// A plan whose every speaker the sink list names is reachable as a whole.
proof fn lemma_all_reachable(planned: Seq<(Seq<char>, u32)>, names: Seq<Seq<char>>)
    requires
        forall|i: int| 0 <= i < planned.len() ==> spec_first_named(names, (#[trigger] planned[i]).0) is Some,
    ensures
        spec_reachable(planned, names) == planned,
    decreases planned.len(),
{
    reveal(Seq::filter);
    if planned.len() > 0 {
        let rest = planned.drop_last();
        assert forall|i: int| 0 <= i < rest.len() implies spec_first_named(names, (#[trigger] rest[i]).0) is Some by {
            assert(rest[i] == planned[i]);
        }
        lemma_all_reachable(rest, names);
        assert(planned.last() == planned[planned.len() - 1]);
        assert(rest.push(planned.last()) =~= planned);
    }
}

/// Nothing to unload asks for no unload.
proof fn lemma_no_unload_ids(kept: Seq<ReadView>)
    ensures
        spec_unload_ids(kept, Seq::empty()) == Seq::<u32>::empty(),
    decreases kept.len(),
{
    if kept.len() > 0 {
        lemma_no_unload_ids(kept.drop_last());
    }
}

/// Nothing owed confirms nothing.
proof fn lemma_nothing_owed_confirms_nothing(planned: Seq<(Seq<char>, u32)>)
    ensures
        spec_confirming(planned, Seq::empty()) == Seq::<(Seq<char>, u32)>::empty(),
    decreases planned.len(),
{
    if planned.len() > 0 {
        lemma_nothing_owed_confirms_nothing(planned.drop_last());
    }
}

/// A pass over a steady graph only makes the combined sink the default again.
/// When the sink list names the combined sink, no confirming reload is owed,
/// every branch read back is live (or not known yet) and carries the node and
/// delay of the planned branch in its place, no planned branch names another
/// one's node, and the second sink list names every planned speaker, then the
/// pass reads the sinks, the branches and the sinks again, and its one change
/// is a single `set default` of the combined sink: the pass succeeds exactly
/// when the graph takes it, and otherwise answers the graph's refusal. Such a
/// pass plans no load, so it arms no confirming reload
/// ([`AudioRouter::route_for_targets`]), and the next steady pass owes none
/// either: a steady graph stays quiet however many passes are made.
pub proof fn law_a_steady_graph_is_only_made_the_default_again(
    sink: Seq<char>,
    planned: Seq<(Seq<char>, u32)>,
    listed: Seq<Seq<char>>,
    read: Seq<ReadView>,
    names: Seq<Seq<char>>,
    c: Seq<GraphCall>,
    r: Result<(), AudioError>,
)
    requires
        route_pass_log(sink, planned, Seq::empty(), c, r),
        c.len() >= 3,
        c[0] == GraphCall::Sinks(Ok(listed)),
        spec_first_named(listed, sink) is Some,
        c[1] == GraphCall::Branches(sink, Ok(read)),
        c[2] == GraphCall::Sinks(Ok(names)),
        names.len() > 0,
        forall|k: int| 0 <= k < read.len() ==> (#[trigger] read[k]).2 != Some(false),
        read.len() == planned.len(),
        forall|i: int| 0 <= i < planned.len() ==> names_node(#[trigger] planned[i].0, read[i].1.0),
        forall|i: int| 0 <= i < planned.len() ==> (#[trigger] planned[i]).1 == read[i].1.1,
        forall|i: int, j: int|
            0 <= i < planned.len() && 0 <= j < read.len() && i != j ==> !names_node(
                #[trigger] planned[i].0,
                #[trigger] read[j].1.0,
            ),
        forall|i: int| 0 <= i < planned.len() ==> spec_first_named(names, (#[trigger] planned[i]).0) is Some,
    ensures
        c.len() == 4,
        c[3] matches GraphCall::SetDefault(n, a) && n == sink && (r is Ok <==> a is Ok) && (a is Err ==> r == a),
        reconciles_without_loading(sink, planned, c),
{
    let t = c.skip(1);
    assert(t[0] == c[1]);
    assert(reconcile_log(sink, planned, Seq::empty(), t, r));
    lemma_no_dead_branches(read);
    let u = t.skip(1);
    assert(u[0] == c[2]);
    assert(reconcile_after_read(sink, planned, read, Seq::empty(), u, r));
    let kv = read.map_values(|v: ReadView| v.1);
    assert forall|i: int| 0 <= i < planned.len() implies names_node(#[trigger] planned[i].0, kv[i].0) by {
        assert(kv[i] == read[i].1);
    }
    assert forall|i: int| 0 <= i < planned.len() implies (#[trigger] planned[i]).1 == kv[i].1 by {
        assert(kv[i] == read[i].1);
    }
    assert forall|i: int, j: int|
        0 <= i < planned.len() && 0 <= j < kv.len() && i != j implies !names_node(
            #[trigger] planned[i].0,
            #[trigger] kv[j].0,
        ) by {
        assert(kv[j] == read[j].1);
    }
    law_a_graph_loaded_from_the_plan_is_left_alone(kv, planned);
    lemma_all_reachable(planned, names);
    let rc = spec_reconcile(kv, planned);
    assert(rc.0 =~= Seq::<(Seq<char>, u32)>::empty());
    assert(rc.1 =~= Seq::<(Seq<char>, u32)>::empty());
    assert(rc.2 =~= Seq::<(Seq<char>, u32)>::empty());
    lemma_no_unload_ids(read);
    let plan = spec_repair_plan(planned, spec_kept(read), names);
    assert(plan.0 =~= Seq::<u32>::empty());
    assert(plan.1 =~= Seq::<(u32, u32)>::empty());
    assert(plan.2 =~= Seq::<(Seq<char>, u32)>::empty());
    assert(plan.3 == planned);
    let w = u.skip(1);
    assert(u.skip(0) =~= u);
    assert(repair_log(sink, plan, Seq::empty(), w, r));
    let (c1, ru) = choose|c1: Seq<GraphCall>, ru: Result<(), AudioError>|
        #[trigger] issued_until_refused(unload_requests(plan.0), c1, ru) && w.take(c1.len() as int) == c1 && match ru {
            Err(e) => w.len() == c1.len() && r == Err::<(), AudioError>(e),
            Ok(_) => exists|c2: Seq<GraphCall>, c3: Seq<GraphCall>, outcome: Seq<bool>|
                {
                    &&& #[trigger] issued_all(retune_requests(plan.1), c2)
                    &&& #[trigger] load_log(sink, plan.2, c3, outcome)
                    &&& w.len() >= c1.len() + c2.len() + c3.len() + 1
                    &&& w.skip(c1.len() as int).take(c2.len() as int) == c2
                    &&& w.skip(c1.len() + c2.len() as int).take(c3.len() as int) == c3
                    &&& w[c1.len() + c2.len() + c3.len() as int] matches GraphCall::SetDefault(n, a) && n == sink && match a {
                        Err(e) => w.len() == c1.len() + c2.len() + c3.len() + 1 && r == Err::<(), AudioError>(e),
                        Ok(_) => confirm_log(
                            sink,
                            spec_confirming(plan.3, spec_still_owed(Seq::empty(), loaded_names(plan.2, outcome))),
                            w.skip(c1.len() + c2.len() + c3.len() as int + 1),
                            r,
                            all_accepted(c2) && count_failed(outcome) == 0,
                        ),
                    }
                },
        };
    assert(unload_requests(plan.0).len() == 0);
    assert(c1.len() == 0);
    assert(ru is Ok);
    let (c2, c3, outcome) = choose|c2: Seq<GraphCall>, c3: Seq<GraphCall>, outcome: Seq<bool>|
        {
            &&& #[trigger] issued_all(retune_requests(plan.1), c2)
            &&& #[trigger] load_log(sink, plan.2, c3, outcome)
            &&& w.len() >= c1.len() + c2.len() + c3.len() + 1
            &&& w.skip(c1.len() as int).take(c2.len() as int) == c2
            &&& w.skip(c1.len() + c2.len() as int).take(c3.len() as int) == c3
            &&& w[c1.len() + c2.len() + c3.len() as int] matches GraphCall::SetDefault(n, a) && n == sink && match a {
                Err(e) => w.len() == c1.len() + c2.len() + c3.len() + 1 && r == Err::<(), AudioError>(e),
                Ok(_) => confirm_log(
                    sink,
                    spec_confirming(plan.3, spec_still_owed(Seq::empty(), loaded_names(plan.2, outcome))),
                    w.skip(c1.len() + c2.len() + c3.len() as int + 1),
                    r,
                    all_accepted(c2) && count_failed(outcome) == 0,
                ),
            }
        };
    assert(retune_requests(plan.1).len() == 0);
    assert(c2.len() == 0);
    let groups = choose|groups: Seq<Seq<GraphCall>>|
        {
            &&& groups.len() == plan.2.len()
            &&& outcome.len() == plan.2.len()
            &&& c3 == #[trigger] concat_groups(groups)
            &&& forall|i: int| 0 <= i < plan.2.len() ==> one_load_log(sink, plan.2[i], #[trigger] groups[i], outcome[i])
        };
    assert(groups.len() == 0);
    assert(c3.len() == 0);
    assert(outcome.len() == 0);
    lemma_nothing_owed_confirms_nothing(planned);
    assert(all_accepted(c2));
    assert(count_failed(outcome) == 0);
    assert(w[0] == c[3]);
    assert(spec_still_owed(Seq::empty(), loaded_names(plan.2, outcome)) == Seq::<Seq<char>>::empty());
    assert(t[1] == c[2]);
    assert(plans_no_load(planned, t));
    if let GraphCall::SetDefault(_, a) = w[0] {
        if a is Ok {
            assert(confirm_log(sink, Seq::empty(), w.skip(1), r, true));
            assert(r is Ok);
        } else {
            assert(r == a);
        }
    }
}

/// A pass that plans no load keeps an empty register empty, so the next pass
/// owes no confirming reload: with nothing armed, the register a steady pass
/// leaves ([`AudioRouter::route_for_targets`]) is still empty and owes nothing
/// at any later time.
pub proof fn law_a_quiet_pass_keeps_the_register_empty(
    armed: Seq<(Seq<char>, u64)>,
    after: Seq<(Seq<char>, u64)>,
    now: u64,
    later: u64,
)
    requires
        armed.len() == 0,
        after == armed || after == waiting(armed, now),
    ensures
        after.len() == 0,
        owed_names(after, later) == Seq::<Seq<char>>::empty(),
{
    reveal(Seq::filter);
    assert(armed =~= Seq::<(Seq<char>, u64)>::empty());
}

/// Reconciling a combined sink never tears it down nor creates one: its null
/// sink, which the player streams into, stays whatever the graph answers, and
/// only its branches and the default sink change.
pub proof fn law_reconciling_never_touches_the_null_sink(
    sink: Seq<char>,
    planned: Seq<(Seq<char>, u32)>,
    due: Seq<Seq<char>>,
    c: Seq<GraphCall>,
    r: Result<(), AudioError>,
)
    requires
        reconcile_log(sink, planned, due, c, r),
    ensures
        forall|k: int| 0 <= k < c.len() ==> !(#[trigger] c[k] is Teardown) && !(c[k] is Create),
{
    let b = c[0]->Branches_1;
    assert(c.take(1) =~= seq![c[0]]);
    if let Ok(read) = b {
        let t = c.skip(1);
        let d = spec_dead_ids(read);
        lemma_unloads_keep(d, t.take(d.len() as int), Ok(()));
        let rest = t.skip(d.len() as int + 1);
        let s = t[d.len() as int]->Sinks_0;
        if let Ok(names) = s {
            if names.len() > 0 {
                lemma_repair_keeps(sink, spec_repair_plan(planned, spec_kept(read), names), due, rest, r);
            }
        }
        let u = t.skip(d.len() as int);
        assert(u.take(1) =~= seq![t[d.len() as int]]);
        assert(u.skip(1) =~= rest);
        lemma_keeps_split(u, 1);
        lemma_keeps_split(t, d.len() as int);
        lemma_keeps_split(c, 1);
    }
}

/// The names still owed a confirmation are owed ones this pass did not load.
proof fn lemma_still_owed_members(due: Seq<Seq<char>>, loaded: Seq<Seq<char>>)
    ensures
        forall|k: int|
            0 <= k < spec_still_owed(due, loaded).len() ==> due.contains(#[trigger] spec_still_owed(due, loaded)[k])
                && !loaded.contains(spec_still_owed(due, loaded)[k]),
    decreases due.len(),
{
    if due.len() > 0 {
        lemma_still_owed_members(due.drop_last(), loaded);
        let rest = spec_still_owed(due.drop_last(), loaded);
        let o = spec_still_owed(due, loaded);
        assert forall|k: int| 0 <= k < o.len() implies due.contains(#[trigger] o[k]) && !loaded.contains(o[k]) by {
            if k < rest.len() {
                assert(o[k] == rest[k]);
                let j = choose|j: int| 0 <= j < due.drop_last().len() && due.drop_last()[j] == rest[k];
                assert(due[j] == rest[k]);
            } else {
                assert(o[k] == due.last());
                assert(due[due.len() - 1] == due.last());
            }
        }
    }
}

/// A branch is confirmed only when its reload was owed at the start of the
/// pass, and never in the pass that loaded it: every confirming branch is a
/// reachable one whose speaker was due and was not loaded in this pass.
pub proof fn law_a_branch_is_never_confirmed_in_the_pass_that_loaded_it(
    reachable: Seq<(Seq<char>, u32)>,
    due: Seq<Seq<char>>,
    loaded: Seq<Seq<char>>,
)
    ensures
        forall|k: int|
            0 <= k < spec_confirming(reachable, spec_still_owed(due, loaded)).len() ==> {
                let b = #[trigger] spec_confirming(reachable, spec_still_owed(due, loaded))[k];
                reachable.contains(b) && due.contains(b.0) && !loaded.contains(b.0)
            },
{
    let owed = spec_still_owed(due, loaded);
    lemma_still_owed_members(due, loaded);
    lemma_confirming_members(reachable, owed);
    let conf = spec_confirming(reachable, owed);
    assert forall|k: int| 0 <= k < conf.len() implies {
        let b = #[trigger] conf[k];
        reachable.contains(b) && due.contains(b.0) && !loaded.contains(b.0)
    } by {
        let b = conf[k];
        let j = choose|j: int| 0 <= j < owed.len() && owed[j] == b.0;
        assert(due.contains(owed[j]) && !loaded.contains(owed[j]));
    }
}

/// The confirming branches are reachable branches whose speaker is owed.
proof fn lemma_confirming_members(reachable: Seq<(Seq<char>, u32)>, owed: Seq<Seq<char>>)
    ensures
        forall|k: int|
            0 <= k < spec_confirming(reachable, owed).len() ==> reachable.contains(#[trigger] spec_confirming(reachable, owed)[k])
                && owed.contains(spec_confirming(reachable, owed)[k].0),
    decreases reachable.len(),
{
    if reachable.len() > 0 {
        lemma_confirming_members(reachable.drop_last(), owed);
        let rest = spec_confirming(reachable.drop_last(), owed);
        let cf = spec_confirming(reachable, owed);
        assert forall|k: int| 0 <= k < cf.len() implies reachable.contains(#[trigger] cf[k]) && owed.contains(cf[k].0) by {
            if k < rest.len() {
                assert(cf[k] == rest[k]);
                let j = choose|j: int| 0 <= j < reachable.drop_last().len() && reachable.drop_last()[j] == rest[k];
                assert(reachable[j] == rest[k]);
            } else {
                assert(cf[k] == reachable.last());
                assert(reachable[reachable.len() - 1] == reachable.last());
            }
        }
    }
}

/// A repair pass whose unloads were all accepted, laid out stretch by stretch.
proof fn lemma_repair_log_intro(
    sink: Seq<char>,
    plan: (Seq<u32>, Seq<(u32, u32)>, Seq<(Seq<char>, u32)>, Seq<(Seq<char>, u32)>),
    due: Seq<Seq<char>>,
    c1: Seq<GraphCall>,
    c2: Seq<GraphCall>,
    c3: Seq<GraphCall>,
    outcome: Seq<bool>,
    a: Result<(), AudioError>,
    tail: Seq<GraphCall>,
    r: Result<(), AudioError>,
)
    requires
        issued_until_refused(unload_requests(plan.0), c1, Ok(())),
        issued_all(retune_requests(plan.1), c2),
        load_log(sink, plan.2, c3, outcome),
        a is Err ==> tail.len() == 0 && r == a,
        a is Ok ==> confirm_log(
            sink,
            spec_confirming(plan.3, spec_still_owed(due, loaded_names(plan.2, outcome))),
            tail,
            r,
            all_accepted(c2) && count_failed(outcome) == 0,
        ),
    ensures
        repair_log(sink, plan, due, c1 + c2 + c3 + seq![GraphCall::SetDefault(sink, a)] + tail, r),
{
    let c = c1 + c2 + c3 + seq![GraphCall::SetDefault(sink, a)] + tail;
    assert(c.take(c1.len() as int) =~= c1);
    assert(c.skip(c1.len() as int).take(c2.len() as int) =~= c2);
    assert(c.skip(c1.len() + c2.len() as int).take(c3.len() as int) =~= c3);
    assert(c[c1.len() + c2.len() + c3.len() as int] == GraphCall::SetDefault(sink, a));
    assert(c.skip(c1.len() + c2.len() + c3.len() as int + 1) =~= tail);
    let ru: Result<(), AudioError> = Ok(());
    assert(issued_until_refused(unload_requests(plan.0), c1, ru));
}

/// What a repair pass whose calls are `c` leaves in the confirmation register
/// that held `old`: the register is unchanged when the pass's unloads stopped
/// at a refusal or the graph refused the default; otherwise the reloads owed
/// at `now` are handed out and each branch the call record shows loaded (its
/// load accepted) is armed at `now`.
pub open spec fn repair_arms(
    sink: Seq<char>,
    plan: (Seq<u32>, Seq<(u32, u32)>, Seq<(Seq<char>, u32)>, Seq<(Seq<char>, u32)>),
    old: Seq<(Seq<char>, u64)>,
    now: u64,
    c: Seq<GraphCall>,
    new: Seq<(Seq<char>, u64)>,
) -> bool {
    exists|c1: Seq<GraphCall>, ru: Result<(), AudioError>|
        #[trigger] issued_until_refused(unload_requests(plan.0), c1, ru) && c.take(c1.len() as int) == c1 && match ru {
            Err(_) => c.len() == c1.len() && new == old,
            Ok(_) => exists|c2: Seq<GraphCall>, c3: Seq<GraphCall>, outcome: Seq<bool>|
                {
                    &&& #[trigger] issued_all(retune_requests(plan.1), c2)
                    &&& #[trigger] load_log(sink, plan.2, c3, outcome)
                    &&& c.len() >= c1.len() + c2.len() + c3.len() + 1
                    &&& c.skip(c1.len() as int).take(c2.len() as int) == c2
                    &&& c.skip(c1.len() + c2.len() as int).take(c3.len() as int) == c3
                    &&& c[c1.len() + c2.len() + c3.len() as int] matches GraphCall::SetDefault(_, a) && if a is Ok {
                        new == spec_arm(waiting(old, now), loaded_names(plan.2, outcome), now)
                    } else {
                        new == old
                    }
                },
        }
}

/// What a reconciliation whose calls are `c` leaves in the register that held
/// `old`: the register is unchanged when the branch list could not be read,
/// or the sink list read after the dead branches could not be read or names
/// nothing; otherwise it is what the repair pass leaves ([`repair_arms`]).
pub open spec fn reconcile_arms(
    sink: Seq<char>,
    planned: Seq<(Seq<char>, u32)>,
    old: Seq<(Seq<char>, u64)>,
    now: u64,
    c: Seq<GraphCall>,
    new: Seq<(Seq<char>, u64)>,
) -> bool {
    c.len() >= 1 && match c[0] {
        GraphCall::Branches(_, b) => match b {
            Err(_) => new == old,
            Ok(read) => {
                let d = spec_dead_ids(read).len() as int;
                c.len() >= d + 2 && match c[d + 1] {
                    GraphCall::Sinks(s) => match s {
                        Ok(names) => if names.len() > 0 {
                            repair_arms(sink, spec_repair_plan(planned, spec_kept(read), names), old, now, c.skip(d + 2), new)
                        } else {
                            new == old
                        },
                        Err(_) => new == old,
                    },
                    _ => false,
                }
            },
        },
        _ => false,
    }
}

/// What a build whose calls are `c` leaves in the register that held `old`:
/// the register is unchanged when the teardown or the creation was refused;
/// otherwise everything armed before is dropped and each branch the call
/// record shows loaded (its load accepted) is armed at `now`.
pub open spec fn build_arms(
    sink: Seq<char>,
    planned: Seq<(Seq<char>, u32)>,
    old: Seq<(Seq<char>, u64)>,
    now: u64,
    c: Seq<GraphCall>,
    new: Seq<(Seq<char>, u64)>,
) -> bool {
    c.len() >= 1 && match c[0] {
        GraphCall::Teardown(_, a) => match a {
            Err(_) => new == old,
            Ok(_) => c.len() >= 2 && match c[1] {
                GraphCall::Create(_, a2) => match a2 {
                    Err(_) => new == old,
                    Ok(_) => exists|c3: Seq<GraphCall>, outcome: Seq<bool>|
                        #[trigger] load_log(sink, planned, c3, outcome) && c.skip(2).take(c3.len() as int) == c3
                            && new == spec_arm(Seq::<(Seq<char>, u64)>::empty(), loaded_names(planned, outcome), now),
                },
                _ => false,
            },
        },
        _ => false,
    }
}

/// What routing to the combined sink leaves in the register that held `old`,
/// once the graph answered whether it lists the sink (`found`): unchanged when
/// the list could not be read; a listed sink leaves what its reconciliation
/// leaves ([`reconcile_arms`]), a missing one what its build leaves
/// ([`build_arms`]).
pub open spec fn route_arms(
    sink: Seq<char>,
    planned: Seq<(Seq<char>, u32)>,
    old: Seq<(Seq<char>, u64)>,
    now: u64,
    found: Result<Option<Seq<char>>, AudioError>,
    c: Seq<GraphCall>,
    new: Seq<(Seq<char>, u64)>,
) -> bool {
    match found {
        Err(_) => new == old,
        Ok(Some(_)) => reconcile_arms(sink, planned, old, now, c, new),
        Ok(None) => build_arms(sink, planned, old, now, c, new),
    }
}

/// What a routing pass whose calls are `c` leaves in the register that held
/// `old`: one sink-list read to look the combined sink up, then
/// [`route_arms`] on what it found.
pub open spec fn route_pass_arms(
    sink: Seq<char>,
    planned: Seq<(Seq<char>, u32)>,
    old: Seq<(Seq<char>, u64)>,
    now: u64,
    c: Seq<GraphCall>,
    new: Seq<(Seq<char>, u64)>,
) -> bool {
    c.len() >= 1 && match c[0] {
        GraphCall::Sinks(s) => route_arms(sink, planned, old, now, lookup_answer(s, sink), c.skip(1), new),
        _ => false,
    }
}

/// The register a repair pass leaves, from the calls it made.
proof fn lemma_repair_arms_intro(
    sink: Seq<char>,
    plan: (Seq<u32>, Seq<(u32, u32)>, Seq<(Seq<char>, u32)>, Seq<(Seq<char>, u32)>),
    old: Seq<(Seq<char>, u64)>,
    now: u64,
    c1: Seq<GraphCall>,
    c2: Seq<GraphCall>,
    c3: Seq<GraphCall>,
    outcome: Seq<bool>,
    a: Result<(), AudioError>,
    tail: Seq<GraphCall>,
    new: Seq<(Seq<char>, u64)>,
)
    requires
        issued_until_refused(unload_requests(plan.0), c1, Ok(())),
        issued_all(retune_requests(plan.1), c2),
        load_log(sink, plan.2, c3, outcome),
        a is Ok ==> new == spec_arm(waiting(old, now), loaded_names(plan.2, outcome), now),
        a is Err ==> new == old,
    ensures
        repair_arms(sink, plan, old, now, c1 + c2 + c3 + seq![GraphCall::SetDefault(sink, a)] + tail, new),
{
    let c = c1 + c2 + c3 + seq![GraphCall::SetDefault(sink, a)] + tail;
    assert(c.take(c1.len() as int) =~= c1);
    assert(c.skip(c1.len() as int).take(c2.len() as int) =~= c2);
    assert(c.skip(c1.len() + c2.len() as int).take(c3.len() as int) =~= c3);
    assert(c[c1.len() + c2.len() + c3.len() as int] == GraphCall::SetDefault(sink, a));
    let ru: Result<(), AudioError> = Ok(());
    assert(issued_until_refused(unload_requests(plan.0), c1, ru));
}

/// A repair pass whose unloads stopped at a refusal leaves the register alone.
proof fn lemma_repair_arms_refused(
    sink: Seq<char>,
    plan: (Seq<u32>, Seq<(u32, u32)>, Seq<(Seq<char>, u32)>, Seq<(Seq<char>, u32)>),
    old: Seq<(Seq<char>, u64)>,
    now: u64,
    c1: Seq<GraphCall>,
    e: AudioError,
)
    requires
        issued_until_refused(unload_requests(plan.0), c1, Err(e)),
    ensures
        repair_arms(sink, plan, old, now, c1, old),
{
    assert(c1.take(c1.len() as int) =~= c1);
}

/// A repair pass whose unloads stopped at a refusal.
proof fn lemma_repair_log_refused(
    sink: Seq<char>,
    plan: (Seq<u32>, Seq<(u32, u32)>, Seq<(Seq<char>, u32)>, Seq<(Seq<char>, u32)>),
    due: Seq<Seq<char>>,
    c1: Seq<GraphCall>,
    e: AudioError,
)
    requires
        issued_until_refused(unload_requests(plan.0), c1, Err(e)),
    ensures
        repair_log(sink, plan, due, c1, Err(e)),
{
    assert(c1.take(c1.len() as int) =~= c1);
}

/// Confirmation calls that stopped at an unreadable branch list.
proof fn lemma_confirm_read_refused(sink: Seq<char>, confirming: Seq<(Seq<char>, u32)>, e: AudioError, clean: bool)
    requires
        confirming.len() > 0,
    ensures
        confirm_log(sink, confirming, seq![GraphCall::Branches(sink, Err(e))], Err(e), clean),
{
}

/// Confirmation calls that stopped at a refused unload.
proof fn lemma_confirm_unload_refused(
    sink: Seq<char>,
    confirming: Seq<(Seq<char>, u32)>,
    read: Seq<ReadView>,
    c5: Seq<GraphCall>,
    e: AudioError,
    clean: bool,
)
    requires
        confirming.len() > 0,
        issued_until_refused(unload_requests(spec_confirm_unload_ids(read, confirming)), c5, Err(e)),
    ensures
        confirm_log(sink, confirming, seq![GraphCall::Branches(sink, Ok(read))] + c5, Err(e), clean),
{
    let c = seq![GraphCall::Branches(sink, Ok(read))] + c5;
    assert(c.skip(1) =~= c5);
    assert(c5.take(c5.len() as int) =~= c5);
    assert(confirm_after_read(sink, confirming, read, c5, Err(e), clean));
    assert(c[0] == GraphCall::Branches(sink, Ok(read)));
}

/// Confirmation calls that ran to the end.
proof fn lemma_confirm_done(
    sink: Seq<char>,
    confirming: Seq<(Seq<char>, u32)>,
    read: Seq<ReadView>,
    c5: Seq<GraphCall>,
    c6: Seq<GraphCall>,
    outcome: Seq<bool>,
    a: Result<(), AudioError>,
    r: Result<(), AudioError>,
    clean: bool,
)
    requires
        confirming.len() > 0,
        issued_until_refused(unload_requests(spec_confirm_unload_ids(read, confirming)), c5, Ok(())),
        load_log(sink, confirming, c6, outcome),
        a is Err ==> r == a,
        a is Ok ==> (r is Ok <==> clean && count_failed(outcome) == 0),
    ensures
        confirm_log(
            sink,
            confirming,
            seq![GraphCall::Branches(sink, Ok(read))] + c5 + c6 + seq![GraphCall::SetDefault(sink, a)],
            r,
            clean,
        ),
{
    let c = seq![GraphCall::Branches(sink, Ok(read))] + c5 + c6 + seq![GraphCall::SetDefault(sink, a)];
    let t = c5 + c6 + seq![GraphCall::SetDefault(sink, a)];
    assert(c.skip(1) =~= t);
    assert(t.take(c5.len() as int) =~= c5);
    assert(t.skip(c5.len() as int).take(c6.len() as int) =~= c6);
    assert(t.last() == GraphCall::SetDefault(sink, a));
    let ru: Result<(), AudioError> = Ok(());
    assert(issued_until_refused(unload_requests(spec_confirm_unload_ids(read, confirming)), c5, ru));
    assert(confirm_after_read(sink, confirming, read, t, r, clean));
    assert(c[0] == GraphCall::Branches(sink, Ok(read)));
}

/// Calls made in two stretches are the first stretch, then the second.
proof fn lemma_since_split(a: Seq<GraphCall>, b: Seq<GraphCall>, c: Seq<GraphCall>)
    requires
        extends(a, b),
        extends(b, c),
    ensures
        extends(a, c),
        calls_since(a, c) == calls_since(a, b) + calls_since(b, c),
{
    assert(c.take(a.len() as int) =~= b.take(a.len() as int)) by {
        assert forall|i: int| 0 <= i < a.len() implies c.take(a.len() as int)[i] == b.take(a.len() as int)[i] by {
            assert(c[i] == c.take(b.len() as int)[i]);
        }
    }
    assert forall|i: int| 0 <= i < calls_since(a, b).len() implies calls_since(a, c)[i] == calls_since(a, b)[i] by {
        assert(c[a.len() + i] == c.take(b.len() as int)[a.len() + i]);
    }
    assert(calls_since(a, c) =~= calls_since(a, b) + calls_since(b, c));
}

/// The routing logic, driven through a [`Graph`]. It owns the confirmation
/// register the reconciliation carries from one pass to the next, so two
/// routers never see each other's history, and it records every call it makes
/// on the graph with the answer it got ([`AudioRouter::calls`]): the contracts
/// of the routing passes say, over that record, exactly which calls a pass
/// makes given what the graph answered. Times are milliseconds.
pub struct AudioRouter<G: Graph> {
    graph: G,
    confirmation: ConfirmationRegister,
    /// Every call the router made on the graph, in order, with its answer.
    log: Ghost<Seq<GraphCall>>,
}

/// One call the router made on the graph, with what the graph answered: the
/// sink names and the branches read by their views.
pub ghost enum GraphCall {
    Sinks(Result<Seq<Seq<char>>, AudioError>),
    Branches(Seq<char>, Result<Seq<ReadView>, AudioError>),
    Create(Seq<char>, Result<(), AudioError>),
    Load(Seq<char>, Seq<char>, u32, Result<(), AudioError>),
    Unload(u32, Result<(), AudioError>),
    SetDelay(u32, u32, Result<(), AudioError>),
    Teardown(Seq<char>, Result<(), AudioError>),
    SetDefault(Seq<char>, Result<(), AudioError>),
}

/// A sink-list answer by its names.
pub open spec fn sinks_view(r: Result<Vec<String>, AudioError>) -> Result<Seq<Seq<char>>, AudioError> {
    match r {
        Ok(v) => Ok(string_views(v@)),
        Err(e) => Err(e),
    }
}

/// A branch-list answer by its views.
pub open spec fn branches_view(r: Result<Vec<LoadedBranch>, AudioError>) -> Result<Seq<ReadView>, AudioError> {
    match r {
        Ok(v) => Ok(loaded_views(v@)),
        Err(e) => Err(e),
    }
}

impl<G: Graph> AudioRouter<G> {
    /// The graph the router drives.
    pub closed spec fn graph_state(&self) -> G {
        self.graph
    }

    /// The confirming reloads armed, and when.
    pub closed spec fn armed(&self) -> Seq<(Seq<char>, u64)> {
        self.confirmation@
    }

    /// The calls the router made on the graph, in order, with their answers.
    pub closed spec fn calls(&self) -> Seq<GraphCall> {
        self.log@
    }

    /// A router over `graph`, with nothing armed and no call made.
    pub fn new(graph: G) -> (router: Self)
        ensures
            router.graph_state() == graph,
            router.armed().len() == 0,
            router.calls().len() == 0,
    {
        AudioRouter { graph, confirmation: ConfirmationRegister::new(), log: Ghost(Seq::empty()) }
    }

    /// Ask the graph for its sinks, and record the call.
    fn g_sinks(&mut self) -> (r: Result<Vec<String>, AudioError>)
        ensures
            final(self).calls() == old(self).calls().push(GraphCall::Sinks(sinks_view(r))),
            final(self).armed() == old(self).armed(),
    {
        let r = self.graph.sinks();
        proof {
            self.log@ = self.log@.push(GraphCall::Sinks(sinks_view(r)));
        }
        r
    }

    /// Ask the graph for the branches of `sink_name`, and record the call.
    fn g_branches(&mut self, sink_name: &str) -> (r: Result<Vec<LoadedBranch>, AudioError>)
        requires
            sink_name@.len() > 0,
        ensures
            final(self).calls() == old(self).calls().push(GraphCall::Branches(sink_name@, branches_view(r))),
            final(self).armed() == old(self).armed(),
    {
        let r = self.graph.branches(sink_name);
        proof {
            self.log@ = self.log@.push(GraphCall::Branches(sink_name@, branches_view(r)));
        }
        r
    }

    /// Create the combined sink, and record the call.
    fn g_create(&mut self, sink_name: &str) -> (r: Result<(), AudioError>)
        requires
            sink_name@.len() > 0,
        ensures
            final(self).calls() == old(self).calls().push(GraphCall::Create(sink_name@, r)),
            final(self).armed() == old(self).armed(),
    {
        let r = self.graph.create_combined_sink(sink_name);
        proof {
            self.log@ = self.log@.push(GraphCall::Create(sink_name@, r));
        }
        r
    }

    /// Load a branch, and record the call.
    fn g_load(&mut self, sink_name: &str, real_sink: &str, latency_ms: u32) -> (r: Result<(), AudioError>)
        requires
            sink_name@.len() > 0,
            real_sink@.len() > 0,
        ensures
            final(self).calls() == old(self).calls().push(GraphCall::Load(sink_name@, real_sink@, latency_ms, r)),
            final(self).armed() == old(self).armed(),
    {
        let r = self.graph.load_branch(sink_name, real_sink, latency_ms);
        proof {
            self.log@ = self.log@.push(GraphCall::Load(sink_name@, real_sink@, latency_ms, r));
        }
        r
    }

    /// Unload a branch, and record the call.
    fn g_unload(&mut self, id: u32) -> (r: Result<(), AudioError>)
        ensures
            final(self).calls() == old(self).calls().push(GraphCall::Unload(id, r)),
            final(self).armed() == old(self).armed(),
    {
        let r = self.graph.unload_branch(id);
        proof {
            self.log@ = self.log@.push(GraphCall::Unload(id, r));
        }
        r
    }

    /// Retune a branch, and record the call.
    fn g_set_delay(&mut self, id: u32, delay_ms: u32) -> (r: Result<(), AudioError>)
        ensures
            final(self).calls() == old(self).calls().push(GraphCall::SetDelay(id, delay_ms, r)),
            final(self).armed() == old(self).armed(),
    {
        let r = self.graph.set_branch_delay(id, delay_ms);
        proof {
            self.log@ = self.log@.push(GraphCall::SetDelay(id, delay_ms, r));
        }
        r
    }

    /// Tear the combined sink down, and record the call.
    fn g_teardown(&mut self, sink_name: &str) -> (r: Result<(), AudioError>)
        requires
            sink_name@.len() > 0,
        ensures
            final(self).calls() == old(self).calls().push(GraphCall::Teardown(sink_name@, r)),
            final(self).armed() == old(self).armed(),
    {
        let r = self.graph.teardown(sink_name);
        proof {
            self.log@ = self.log@.push(GraphCall::Teardown(sink_name@, r));
        }
        r
    }

    /// Make `sink` the default sink, and record the call.
    fn g_set_default(&mut self, sink: &str) -> (r: Result<(), AudioError>)
        requires
            sink@.len() > 0,
        ensures
            final(self).calls() == old(self).calls().push(GraphCall::SetDefault(sink@, r)),
            final(self).armed() == old(self).armed(),
    {
        let r = self.graph.set_default_sink(sink);
        proof {
            self.log@ = self.log@.push(GraphCall::SetDefault(sink@, r));
        }
        r
    }

    /// The graph the router drives.
    pub fn graph(&self) -> (graph: &G)
        ensures
            *graph == self.graph_state(),
    {
        &self.graph
    }

    /// The graph the router drives, for the reads and writes that are not
    /// routing (a sink's volume).
    pub fn graph_mut(&mut self) -> (graph: &mut G)
        ensures
            *graph == old(self).graph_state(),
            final(self).graph_state() == *final(graph),
            final(self).armed() == old(self).armed(),
            final(self).calls() == old(self).calls(),
    {
        &mut self.graph
    }

    /// Unload the branches `ids` in order, stopping at the first refusal.
    fn unload_all(&mut self, ids: &Vec<u32>) -> (r: Result<(), AudioError>)
        ensures
            extends(old(self).calls(), final(self).calls()),
            issued_until_refused(unload_requests(ids@), calls_since(old(self).calls(), final(self).calls()), r),
            final(self).armed() == old(self).armed(),
    {
        let ghost start = self.calls();
        let ghost wanted = unload_requests(ids@);
        assert(self.calls().take(start.len() as int) =~= start);
        let mut k: usize = 0;
        while k < ids.len()
            invariant
                k <= ids@.len(),
                start == old(self).calls(),
                wanted == unload_requests(ids@),
                self.armed() == old(self).armed(),
                self.calls().len() == start.len() + k,
                self.calls().take(start.len() as int) == start,
                forall|j: int| 0 <= j < k ==> #[trigger] self.calls()[start.len() as int + j] == wanted[j],
            decreases ids.len() - k,
        {
            let ghost prev = self.calls();
            let done = self.g_unload(ids[k]);
            assert(self.calls().take(start.len() as int) =~= start) by {
                assert(self.calls().take(start.len() as int) =~= prev.take(start.len() as int));
            }
            assert(wanted[k as int] == GraphCall::Unload(ids@[k as int], Ok(())));
            match done {
                Ok(u) => {
                    assert(done == Ok::<(), AudioError>(u));
                    assert forall|j: int| 0 <= j < k + 1 implies #[trigger] self.calls()[start.len() as int + j]
                        == wanted[j] by {
                        if j < k {
                            assert(self.calls()[start.len() as int + j] == prev[start.len() as int + j]);
                        }
                    }
                },
                Err(e) => {
                    proof {
                        let c = calls_since(start, self.calls());
                        assert forall|j: int| 0 <= j < c.len() implies #[trigger] c[j] == with_answer(
                            wanted[j],
                            answer_of(c[j]),
                        ) by {
                            assert(c[j] == self.calls()[start.len() as int + j]);
                            if j < k {
                                assert(c[j] == prev[start.len() as int + j]);
                            }
                        }
                        assert forall|j: int| 0 <= j < c.len() - 1 implies answer_of(#[trigger] c[j]) is Ok by {
                            assert(c[j] == prev[start.len() as int + j]);
                        }
                        assert(c.last() == self.calls().last());
                    }
                    return Err(e);
                },
            }
            k = k + 1;
        }
        proof {
            let c = calls_since(start, self.calls());
            assert forall|j: int| 0 <= j < c.len() implies #[trigger] c[j] == with_answer(wanted[j], answer_of(c[j])) by {
                assert(c[j] == self.calls()[start.len() as int + j]);
            }
            assert forall|j: int| 0 <= j < c.len() implies answer_of(#[trigger] c[j]) is Ok by {
                assert(c[j] == self.calls()[start.len() as int + j]);
            }
            if c.len() > 0 {
                assert(c.last() == c[c.len() - 1]);
            }
        }
        Ok(())
    }

    /// Unload each branch of `ids` in order, whatever the graph answers.
    fn unload_each(&mut self, ids: &Vec<u32>)
        ensures
            extends(old(self).calls(), final(self).calls()),
            issued_all(unload_requests(ids@), calls_since(old(self).calls(), final(self).calls())),
            final(self).armed() == old(self).armed(),
    {
        let ghost start = self.calls();
        let ghost wanted = unload_requests(ids@);
        assert(self.calls().take(start.len() as int) =~= start);
        let mut k: usize = 0;
        while k < ids.len()
            invariant
                k <= ids@.len(),
                start == old(self).calls(),
                wanted == unload_requests(ids@),
                self.armed() == old(self).armed(),
                self.calls().len() == start.len() + k,
                self.calls().take(start.len() as int) == start,
                forall|j: int|
                    0 <= j < k ==> #[trigger] self.calls()[start.len() as int + j] == with_answer(
                        wanted[j],
                        answer_of(self.calls()[start.len() as int + j]),
                    ),
            decreases ids.len() - k,
        {
            let ghost prev = self.calls();
            let _ = self.g_unload(ids[k]);
            assert(self.calls().take(start.len() as int) =~= start) by {
                assert(self.calls().take(start.len() as int) =~= prev.take(start.len() as int));
            }
            assert(wanted[k as int] == GraphCall::Unload(ids@[k as int], Ok(())));
            assert forall|j: int| 0 <= j < k implies #[trigger] self.calls()[start.len() as int + j] == prev[start.len() as int + j] by {}
            k = k + 1;
        }
        proof {
            let c = calls_since(start, self.calls());
            assert forall|j: int| 0 <= j < c.len() implies #[trigger] c[j] == with_answer(wanted[j], answer_of(c[j])) by {
                assert(c[j] == self.calls()[start.len() as int + j]);
            }
        }
    }

    /// Retune each branch of `steps` to its delay, whatever the graph answers:
    /// the messages of the refusals come back, in order.
    fn retune_all(&mut self, steps: &Vec<(u32, u32)>) -> (failures: Vec<String>)
        ensures
            extends(old(self).calls(), final(self).calls()),
            issued_all(retune_requests(steps@), calls_since(old(self).calls(), final(self).calls())),
            failures@.len() == 0 <==> all_accepted(calls_since(old(self).calls(), final(self).calls())),
            final(self).armed() == old(self).armed(),
    {
        let ghost start = self.calls();
        let ghost wanted = retune_requests(steps@);
        assert(self.calls().take(start.len() as int) =~= start);
        let mut failures: Vec<String> = Vec::new();
        let mut k: usize = 0;
        while k < steps.len()
            invariant
                k <= steps@.len(),
                start == old(self).calls(),
                wanted == retune_requests(steps@),
                self.armed() == old(self).armed(),
                self.calls().len() == start.len() + k,
                self.calls().take(start.len() as int) == start,
                forall|j: int|
                    0 <= j < k ==> #[trigger] self.calls()[start.len() as int + j] == with_answer(
                        wanted[j],
                        answer_of(self.calls()[start.len() as int + j]),
                    ),
                failures@.len() == 0 <==> forall|j: int| 0 <= j < k ==> answer_of(#[trigger] self.calls()[start.len() as int + j]) is Ok,
            decreases steps.len() - k,
        {
            let ghost prev = self.calls();
            let (id, delay_ms) = steps[k];
            let done = self.g_set_delay(id, delay_ms);
            assert(self.calls().take(start.len() as int) =~= start) by {
                assert(self.calls().take(start.len() as int) =~= prev.take(start.len() as int));
            }
            assert(wanted[k as int] == GraphCall::SetDelay(id, delay_ms, Ok(())));
            assert forall|j: int| 0 <= j < k implies #[trigger] self.calls()[start.len() as int + j] == prev[start.len() as int + j] by {}
            assert(self.calls()[start.len() as int + k] == GraphCall::SetDelay(id, delay_ms, done));
            let ghost was_clean = forall|j: int| 0 <= j < k ==> answer_of(#[trigger] prev[start.len() as int + j]) is Ok;
            assert(was_clean <==> failures@.len() == 0) by {
                if was_clean {
                    assert forall|j: int| 0 <= j < k implies answer_of(#[trigger] self.calls()[start.len() as int + j]) is Ok by {
                        assert(self.calls()[start.len() as int + j] == prev[start.len() as int + j]);
                    }
                }
                if forall|j: int| 0 <= j < k ==> answer_of(#[trigger] self.calls()[start.len() as int + j]) is Ok {
                    assert forall|j: int| 0 <= j < k implies answer_of(#[trigger] prev[start.len() as int + j]) is Ok by {
                        assert(self.calls()[start.len() as int + j] == prev[start.len() as int + j]);
                    }
                }
            }
            match done {
                Ok(_) => {},
                Err(err) => {
                    failures.push(err.to_string());
                },
            }
            proof {
                let now_clean = forall|j: int| 0 <= j < k + 1 ==> answer_of(#[trigger] self.calls()[start.len() as int + j]) is Ok;
                if now_clean {
                    assert(answer_of(self.calls()[start.len() as int + k]) is Ok);
                    assert forall|j: int| 0 <= j < k implies answer_of(#[trigger] prev[start.len() as int + j]) is Ok by {
                        assert(self.calls()[start.len() as int + j] == prev[start.len() as int + j]);
                    }
                    assert(done is Ok);
                }
                if was_clean && done is Ok {
                    assert forall|j: int| 0 <= j < k + 1 implies answer_of(#[trigger] self.calls()[start.len() as int + j]) is Ok by {
                        if j < k {
                            assert(self.calls()[start.len() as int + j] == prev[start.len() as int + j]);
                        }
                    }
                }
            }
            k = k + 1;
        }
        proof {
            let c = calls_since(start, self.calls());
            assert forall|j: int| 0 <= j < c.len() implies #[trigger] c[j] == with_answer(wanted[j], answer_of(c[j])) by {
                assert(c[j] == self.calls()[start.len() as int + j]);
            }
            if forall|j: int| 0 <= j < k ==> answer_of(#[trigger] self.calls()[start.len() as int + j]) is Ok {
                assert forall|j: int| 0 <= j < c.len() implies answer_of(#[trigger] c[j]) is Ok by {
                    assert(c[j] == self.calls()[start.len() as int + j]);
                }
            }
            if all_accepted(c) {
                assert forall|j: int| 0 <= j < k implies answer_of(#[trigger] self.calls()[start.len() as int + j]) is Ok by {
                    assert(c[j] == self.calls()[start.len() as int + j]);
                }
            }
        }
        failures
    }

    /// Resolve `prefix` among the sinks the graph lists; an empty prefix names
    /// nothing and asks nothing.
    fn find_sink(&mut self, prefix: &str) -> (r: Result<Option<String>, AudioError>)
        ensures
            prefix@.len() == 0 ==> (r matches Ok(None) && final(self).graph_state() == old(self).graph_state()
                && final(self).calls() == old(self).calls()),
            prefix@.len() > 0 ==> one_more(old(self).calls(), final(self).calls()) && (final(self).calls().last() matches GraphCall::Sinks(s) && match s {
                Ok(names) => r matches Ok(found) && opt_string_view(found) == spec_first_named(names, prefix@),
                Err(e) => r == Err::<Option<String>, AudioError>(e),
            }),
            r matches Ok(Some(n)) ==> names_node(prefix@, n@),
            final(self).armed() == old(self).armed(),
    {
        if prefix.unicode_len() == 0 {
            return Ok(None);
        }
        let answer = self.g_sinks();
        assert(self.calls().drop_last() =~= old(self).calls());
        let sinks = match answer {
            Ok(sinks) => sinks,
            Err(e) => return Err(e),
        };
        let found = sink_named_by_prefix(&sinks, prefix);
        proof {
            lemma_first_named_is_named(string_views(sinks@), prefix@);
        }
        Ok(found)
    }

    /// Resolve a branch's prefix to the live node name, erring rather than
    /// sending audio elsewhere when the speaker's sink has vanished.
    fn resolve_sink(&mut self, branch: &CombineBranch) -> (r: Result<String, AudioError>)
        ensures
            branch.sink@.len() == 0 ==> (r matches Err(AudioError::PipeWire(m)) && m@ == no_prefix_message(
                branch.sink@,
            ) && final(self).graph_state() == old(self).graph_state() && final(self).calls() == old(self).calls()),
            branch.sink@.len() > 0 ==> one_more(old(self).calls(), final(self).calls()) && (final(self).calls().last() matches GraphCall::Sinks(s)
                && resolved_as(s, branch.sink@, r)),
            r matches Ok(n) ==> names_node(branch.sink@, n@) && n@.len() > 0,
            final(self).armed() == old(self).armed(),
    {
        match self.find_sink(branch.sink.as_str()) {
            Ok(Some(n)) => Ok(n),
            _ => {
                let mut m = String::from_str("no PipeWire sink for prefix ");
                m.append(branch.sink.as_str());
                Err(AudioError::PipeWire(m))
            },
        }
    }

    /// Attempt every branch against the graph, resolving each prefix to its
    /// node and loading a delay branch from `sink_name`'s monitor into it. A
    /// branch that fails never stops the ones after it.
    fn load_planned_branches_live(&mut self, sink_name: &str, branches: &[CombineBranch]) -> (report: BranchLoadReport)
        requires
            sink_name@.len() > 0,
        ensures
            extends(old(self).calls(), final(self).calls()),
            exists|outcome: Seq<bool>|
                {
                    &&& outcome.len() == branches@.len()
                    &&& string_views(report.loaded@) == loaded_sinks(branches@, outcome)
                    &&& report.failures@.len() == count_failed(outcome)
                    &&& load_log(sink_name@, bviews(branches@), calls_since(old(self).calls(), final(self).calls()), outcome)
                },
            final(self).armed() == old(self).armed(),
    {
        let mut report = BranchLoadReport { loaded: Vec::new(), failures: Vec::new() };
        let ghost mut outcome: Seq<bool> = seq![];
        let ghost start = self.calls();
        let ghost mut groups: Seq<Seq<GraphCall>> = seq![];
        let mut i: usize = 0;
        assert(calls_since(start, self.calls()) =~= Seq::<GraphCall>::empty());
        assert(self.calls().take(start.len() as int) =~= start);
        assert(bviews(branches@).take(0) =~= Seq::<(Seq<char>, u32)>::empty());
        while i < branches.len()
            invariant
                sink_name@.len() > 0,
                0 <= i <= branches@.len(),
                outcome.len() == i,
                string_views(report.loaded@) == loaded_sinks(branches@.take(i as int), outcome),
                report.failures@.len() == count_failed(outcome),
                self.armed() == old(self).armed(),
                start == old(self).calls(),
                extends(start, self.calls()),
                groups.len() == i,
                calls_since(start, self.calls()) == concat_groups(groups),
                forall|j: int| 0 <= j < i ==> one_load_log(sink_name@, bview(branches@[j]), #[trigger] groups[j], outcome[j]),
            decreases branches.len() - i,
        {
            let branch = &branches[i];
            proof {
                assert(branches@.take(i + 1).drop_last() =~= branches@.take(i as int));
                assert(branches@.take(i + 1).last() == *branch);
            }
            let ghost before = self.calls();
            let ok = match self.resolve_sink(branch) {
                Ok(node) => match self.g_load(sink_name, node.as_str(), branch.latency_ms) {
                    Ok(()) => {
                        report.loaded.push(branch.sink.clone());
                        true
                    },
                    Err(err) => {
                        report.failures.push(err.to_string());
                        false
                    },
                },
                Err(err) => {
                    report.failures.push(err.to_string());
                    false
                },
            };
            proof {
                let c = calls_since(start, before);
                let g = self.calls().skip(before.len() as int);
                assert(one_load_log(sink_name@, bview(*branch), g, ok)) by {
                    if branch.sink@.len() > 0 {
                        assert(g[0] == self.calls()[before.len() as int]);
                        if g.len() == 2 {
                            assert(g[1] == self.calls()[before.len() as int + 1]);
                        }
                    }
                }
                let c2 = calls_since(start, self.calls());
                let next_groups = groups.push(g);
                assert(next_groups.drop_last() =~= groups);
                assert(c2 =~= c + g);
                assert(self.calls().take(start.len() as int) =~= start) by {
                    assert(self.calls().take(start.len() as int) =~= before.take(start.len() as int));
                }
                let next = outcome.push(ok);
                assert(next.drop_last() =~= outcome);
                assert forall|j: int| 0 <= j < i + 1 implies one_load_log(sink_name@, bview(branches@[j]), #[trigger] next_groups[j], next[j]) by {
                    if j < i {
                        assert(next_groups[j] == groups[j]);
                    }
                }
                groups = next_groups;
                outcome = next;
            }
            assert(string_views(report.loaded@) =~= loaded_sinks(branches@.take(i + 1), outcome));
            i = i + 1;
        }
        assert(branches@.take(branches@.len() as int) =~= branches@);
        assert forall|j: int| 0 <= j < branches@.len() implies one_load_log(sink_name@, bviews(branches@)[j], #[trigger] groups[j], outcome[j]) by {}
        assert(load_log(sink_name@, bviews(branches@), calls_since(old(self).calls(), self.calls()), outcome));
        report
    }

    /// Apply the routing a selection calls for: every non-empty selection goes
    /// through the combined sink, so the target never moves when a speaker is
    /// added or dropped. An empty selection is refused before the graph is
    /// asked anything; any other makes the calls [`route_pass_log`] lays out.
    pub fn route_for_targets(&mut self, speakers: &[SpeakerTarget], now: u64) -> (r: Result<(), AudioError>)
        ensures
            speakers@.len() == 0 ==> (r matches Err(AudioError::NoSpeakerConnected) && final(self).graph_state()
                == old(self).graph_state() && final(self).armed() == old(self).armed()),
            final(self).armed() == old(self).armed() || (exists|loaded: Seq<Seq<char>>|
                final(self).armed() == #[trigger] spec_arm(waiting(old(self).armed(), now), loaded, now)) || (
            exists|loaded: Seq<Seq<char>>|
                final(self).armed() == #[trigger] spec_arm(Seq::<(Seq<char>, u64)>::empty(), loaded, now)),
            extends(old(self).calls(), final(self).calls()),
            speakers@.len() == 0 ==> final(self).calls() == old(self).calls(),
            speakers@.len() > 0 ==> route_pass_log(
                "blue2th_combined"@,
                planned_branches(speakers@),
                owed_names(old(self).armed(), now),
                calls_since(old(self).calls(), final(self).calls()),
                r,
            ),
            reconciles_without_loading("blue2th_combined"@, planned_branches(speakers@), calls_since(old(self).calls(), final(self).calls()))
                ==> (final(self).armed() == old(self).armed() || final(self).armed() == waiting(old(self).armed(), now)),
            speakers@.len() > 0 ==> route_pass_arms(
                "blue2th_combined"@,
                planned_branches(speakers@),
                old(self).armed(),
                now,
                calls_since(old(self).calls(), final(self).calls()),
                final(self).armed(),
            ),
    {
        proof {
            assert(self.calls().take(self.calls().len() as int) =~= self.calls());
        }
        if speakers.len() == 0 {
            return Err(AudioError::NoSpeakerConnected);
        }
        let spec = combine_sink_plan(speakers);
        proof {
            reveal_strlit("blue2th_combined");
        }
        self.route_to_combined(&spec, now)
    }

    /// Route playback to the combined sink of `spec`: reconciled in place when
    /// it is already up, so a selection change never unloads the null sink the
    /// player streams into; built from nothing otherwise. A sink list that
    /// cannot be read is "cannot tell", never "the sink does not exist": the
    /// error goes back and the graph is left alone.
    fn route_to_combined(&mut self, spec: &CombineSinkSpec, now: u64) -> (r: Result<(), AudioError>)
        requires
            spec.sink_name@.len() > 0,
        ensures
            final(self).armed() == old(self).armed() || (exists|loaded: Seq<Seq<char>>|
                final(self).armed() == #[trigger] spec_arm(waiting(old(self).armed(), now), loaded, now)) || (
            exists|loaded: Seq<Seq<char>>|
                final(self).armed() == #[trigger] spec_arm(Seq::<(Seq<char>, u64)>::empty(), loaded, now)),
            extends(old(self).calls(), final(self).calls()),
            route_pass_log(
                spec.sink_name@,
                bviews(spec.branches@),
                owed_names(old(self).armed(), now),
                calls_since(old(self).calls(), final(self).calls()),
                r,
            ),
            reconciles_without_loading(spec.sink_name@, bviews(spec.branches@), calls_since(old(self).calls(), final(self).calls()))
                ==> (final(self).armed() == old(self).armed() || final(self).armed() == waiting(old(self).armed(), now)),
            route_pass_arms(
                spec.sink_name@,
                bviews(spec.branches@),
                old(self).armed(),
                now,
                calls_since(old(self).calls(), final(self).calls()),
                final(self).armed(),
            ),
    {
        let ghost s0 = self.calls();
        let found = self.find_sink(spec.sink_name.as_str());
        let ghost s1 = self.calls();
        proof {
            assert(s1.take(s0.len() as int) =~= s0);
            assert(calls_since(s0, s1) =~= seq![s1.last()]);
        }
        let r = self.route_with_found(spec, found, now);
        proof {
            let s2 = self.calls();
            lemma_since_split(s0, s1, s2);
            let c = calls_since(s0, s2);
            assert(c =~= seq![s1.last()] + calls_since(s1, s2));
            assert(c.skip(1) =~= calls_since(s1, s2));
            assert(c[0] == s1.last());
        }
        r
    }

    /// Route to the combined sink of `spec`, given whether the graph lists it:
    /// a listing that could not be read is returned as the error, with nothing
    /// touched; a listed sink is reconciled in place, so its null sink stays;
    /// a missing one is built from nothing.
    pub fn route_with_found(&mut self, spec: &CombineSinkSpec, found: Result<Option<String>, AudioError>, now: u64) -> (r: Result<(), AudioError>)
        requires
            spec.sink_name@.len() > 0,
        ensures
            found matches Err(e) ==> r == Err::<(), AudioError>(e) && final(self).graph_state() == old(
                self,
            ).graph_state() && final(self).armed() == old(self).armed(),
            found matches Ok(Some(_)) ==> final(self).armed() == old(self).armed() || exists|loaded: Seq<Seq<char>>|
                final(self).armed() == #[trigger] spec_arm(waiting(old(self).armed(), now), loaded, now),
            found matches Ok(None) ==> (final(self).armed() == old(self).armed() || exists|loaded: Seq<Seq<char>>|
                final(self).armed() == #[trigger] spec_arm(Seq::<(Seq<char>, u64)>::empty(), loaded, now)) && (r is Ok
                ==> final(self).armed() == spec_arm(
                Seq::<(Seq<char>, u64)>::empty(),
                planned_sinks(spec.branches@),
                now,
            )),
            extends(old(self).calls(), final(self).calls()),
            route_log(
                spec.sink_name@,
                bviews(spec.branches@),
                owed_names(old(self).armed(), now),
                found_view(found),
                calls_since(old(self).calls(), final(self).calls()),
                r,
            ),
            (found matches Ok(Some(_)) && plans_no_load(bviews(spec.branches@), calls_since(old(self).calls(), final(self).calls())))
                ==> (final(self).armed() == old(self).armed() || final(self).armed() == waiting(old(self).armed(), now)),
            route_arms(
                spec.sink_name@,
                bviews(spec.branches@),
                old(self).armed(),
                now,
                found_view(found),
                calls_since(old(self).calls(), final(self).calls()),
                final(self).armed(),
            ),
    {
        proof {
            assert(self.calls().take(self.calls().len() as int) =~= self.calls());
            assert(calls_since(self.calls(), self.calls()) =~= Seq::<GraphCall>::empty());
        }
        match found {
            Err(e) => Err(e),
            Ok(Some(_)) => self.reconcile_combined(spec, now),
            Ok(None) => self.build_combined(spec, now),
        }
    }

    /// Build the combined sink from nothing: tear any leftover down, create the
    /// shared null sink, load one delay branch per speaker, arm each loaded
    /// branch's confirming reload in place of everything armed before, and make
    /// the combined sink the default — even when a branch failed, so the
    /// speakers that did load are fed while the next pass retries the others.
    fn build_combined(&mut self, spec: &CombineSinkSpec, now: u64) -> (r: Result<(), AudioError>)
        requires
            spec.sink_name@.len() > 0,
        ensures
            final(self).armed() == old(self).armed() || (exists|loaded: Seq<Seq<char>>|
                final(self).armed() == #[trigger] spec_arm(Seq::<(Seq<char>, u64)>::empty(), loaded, now)),
            r is Ok ==> final(self).armed() == spec_arm(
                Seq::<(Seq<char>, u64)>::empty(),
                planned_sinks(spec.branches@),
                now,
            ),
            extends(old(self).calls(), final(self).calls()),
            build_log(spec.sink_name@, bviews(spec.branches@), calls_since(old(self).calls(), final(self).calls()), r),
            build_arms(
                spec.sink_name@,
                bviews(spec.branches@),
                old(self).armed(),
                now,
                calls_since(old(self).calls(), final(self).calls()),
                final(self).armed(),
            ),
    {
        let ghost s0 = self.calls();
        let ghost sk = spec.sink_name@;
        let torn = self.g_teardown(spec.sink_name.as_str());
        proof {
            assert(self.calls().take(s0.len() as int) =~= s0);
            assert(calls_since(s0, self.calls()) =~= seq![GraphCall::Teardown(sk, torn)]);
        }
        match torn {
            Ok(()) => {},
            Err(e) => return Err(e),
        }
        let ghost s1 = self.calls();
        let created = self.g_create(spec.sink_name.as_str());
        proof {
            assert(self.calls().take(s1.len() as int) =~= s1);
            lemma_since_split(s0, s1, self.calls());
            assert(calls_since(s0, self.calls()) =~= seq![GraphCall::Teardown(sk, torn), GraphCall::Create(sk, created)]);
        }
        match created {
            Ok(()) => {},
            Err(e) => return Err(e),
        }
        let ghost s2 = self.calls();
        let report = self.load_planned_branches_live(spec.sink_name.as_str(), &spec.branches);
        let ghost s3 = self.calls();
        let ghost c3 = calls_since(s2, s3);
        let ghost outcome = choose|outcome: Seq<bool>|
            {
                &&& outcome.len() == spec.branches@.len()
                &&& string_views(report.loaded@) == loaded_sinks(spec.branches@, outcome)
                &&& report.failures@.len() == count_failed(outcome)
                &&& load_log(sk, bviews(spec.branches@), c3, outcome)
            };
        self.confirmation.clear();
        self.confirmation.arm(&report.loaded, now);
        assert(self.armed() == spec_arm(Seq::<(Seq<char>, u64)>::empty(), string_views(report.loaded@), now));
        let set = self.g_set_default(spec.sink_name.as_str());
        proof {
            let s4 = self.calls();
            assert(s4.take(s3.len() as int) =~= s3);
            lemma_since_split(s0, s2, s3);
            lemma_since_split(s0, s3, s4);
            let c = calls_since(s0, s4);
            let t = c.skip(2);
            assert(c =~= seq![GraphCall::Teardown(sk, torn), GraphCall::Create(sk, created)] + c3 + seq![
                GraphCall::SetDefault(sk, set),
            ]);
            assert(t =~= c3 + seq![GraphCall::SetDefault(sk, set)]);
            assert(t.take(c3.len() as int) =~= c3);
            assert(c[0] == GraphCall::Teardown(sk, torn));
            assert(c[1] == GraphCall::Create(sk, created));
            lemma_loaded_names(spec.branches@, outcome);
            assert(build_arms(sk, bviews(spec.branches@), old(self).armed(), now, c, self.armed()));
        }
        match set {
            Ok(()) => {},
            Err(e) => {
                proof {
                    let t = calls_since(s0, self.calls()).skip(2);
                    assert(build_after_create(sk, bviews(spec.branches@), t, Err(e)));
                }
                return Err(e);
            },
        }
        proof {
            if report.failures@.len() == 0 {
                let outcome = choose|outcome: Seq<bool>|
                    {
                        &&& outcome.len() == spec.branches@.len()
                        &&& string_views(report.loaded@) == loaded_sinks(spec.branches@, outcome)
                        &&& report.failures@.len() == count_failed(outcome)
                    };
                lemma_nothing_failed_loads_the_plan(spec.branches@, outcome);
            }
        }
        let done = report.into_result();
        proof {
            let t = calls_since(s0, self.calls()).skip(2);
            assert(build_after_create(sk, bviews(spec.branches@), t, done));
        }
        done
    }

    /// Bring an already-loaded combined sink in line with the plan without
    /// ever touching its null sink: dead branches go, unwanted ones go, a
    /// branch at another delay is retuned in place and a missing one is
    /// loaded — in that order, each speaker alone. A sink list that cannot be
    /// read, or names nothing, ends the pass before any live branch is
    /// unloaded. Every branch loaded is reloaded once more on the first pass at
    /// least [`CONFIRM_GAP`] later, and never in the pass that loaded it. The
    /// calls it makes are exactly those [`reconcile_log`] lays out.
    pub fn reconcile_combined(&mut self, spec: &CombineSinkSpec, now: u64) -> (r: Result<(), AudioError>)
        ensures
            spec.sink_name@.len() == 0 ==> (r is Err && final(self).graph_state() == old(self).graph_state()
                && final(self).armed() == old(self).armed() && final(self).calls() == old(self).calls()),
            extends(old(self).calls(), final(self).calls()),
            spec.sink_name@.len() > 0 ==> reconcile_log(
                spec.sink_name@,
                bviews(spec.branches@),
                owed_names(old(self).armed(), now),
                calls_since(old(self).calls(), final(self).calls()),
                r,
            ),
            final(self).armed() == old(self).armed() || exists|loaded: Seq<Seq<char>>|
                final(self).armed() == #[trigger] spec_arm(waiting(old(self).armed(), now), loaded, now),
            plans_no_load(bviews(spec.branches@), calls_since(old(self).calls(), final(self).calls())) ==> (
            final(self).armed() == old(self).armed() || final(self).armed() == waiting(old(self).armed(), now)),
            spec.sink_name@.len() > 0 ==> reconcile_arms(
                spec.sink_name@,
                bviews(spec.branches@),
                old(self).armed(),
                now,
                calls_since(old(self).calls(), final(self).calls()),
                final(self).armed(),
            ),
    {
        let ghost s0 = self.calls();
        assert(s0.take(s0.len() as int) =~= s0);
        match crate::graph_pw::named("sink", spec.sink_name.as_str()) {
            Ok(()) => {},
            Err(e) => return Err(e),
        }
        let sink_name = spec.sink_name.as_str();
        let ghost sk = sink_name@;
        let answer = self.g_branches(sink_name);
        let ghost s1 = self.calls();
        proof {
            assert(s1.take(s0.len() as int) =~= s0);
            assert(calls_since(s0, s1) =~= seq![GraphCall::Branches(sk, branches_view(answer))]);
        }
        let listed = match answer {
            Ok(listed) => listed,
            Err(e) => return Err(e),
        };
        let ghost rv = loaded_views(listed@);
        // A dead branch reads as absent below; it goes first, so the speaker
        // never has two branches feeding it. Best-effort: one that is already
        // gone is no error.
        let dead = dead_branch_ids(&listed);
        self.unload_each(&dead);
        let ghost s2 = self.calls();
        // Unknown liveness keeps a branch.
        let kept = kept_branches(&listed);
        let sinks = self.g_sinks();
        let ghost s3 = self.calls();
        proof {
            assert(s3.take(s2.len() as int) =~= s2);
            assert(calls_since(s2, s3) =~= seq![GraphCall::Sinks(sinks_view(sinks))]);
            lemma_since_split(s0, s1, s2);
            lemma_since_split(s0, s2, s3);
        }
        let ghost armed0 = self.armed();
        let r = self.repair_from_sinks(spec, &kept, sinks, now);
        proof {
            let s4 = self.calls();
            lemma_since_split(s0, s3, s4);
            let d = spec_dead_ids(rv);
            let c = calls_since(s0, s4);
            let t = c.skip(1);
            let cd = calls_since(s1, s2);
            let rest = calls_since(s3, s4);
            assert(c =~= seq![GraphCall::Branches(sk, Ok(rv))] + cd + seq![GraphCall::Sinks(sinks_view(sinks))] + rest);
            assert(t =~= cd + seq![GraphCall::Sinks(sinks_view(sinks))] + rest);
            assert(t.take(d.len() as int) =~= cd);
            assert(t[d.len() as int] == GraphCall::Sinks(sinks_view(sinks)));
            assert(t.skip(d.len() as int + 1) =~= rest);
            assert(c[0] == GraphCall::Branches(sk, Ok(rv)));
            assert(reconcile_after_read(sk, bviews(spec.branches@), rv, owed_names(old(self).armed(), now), t, r));
            assert(c.skip(d.len() + 2int) =~= rest);
            assert(c[d.len() + 1int] == GraphCall::Sinks(sinks_view(sinks)));
            if plans_no_load(bviews(spec.branches@), c) {
                assert(d.len() == 0);
                assert(c[1] == t[0]);
                assert(c[1] == GraphCall::Sinks(sinks_view(sinks)));
                assert(armed0 == old(self).armed());
            }
        }
        r
    }

    /// The rest of a repair pass, once the dead branches are gone, from the
    /// sink list the graph answered: a list that could not be read, or names
    /// nothing, ends the pass with `Ok` and no call on the graph at all.
    /// Otherwise [`repair_plan`] decides, and the pass issues exactly its
    /// unloads, then its retunes, then its loads, then makes the combined sink
    /// the default, and finally reloads once each loaded branch whose
    /// confirmation is owed — never one loaded in this very pass.
    #[verifier::rlimit(60)]
    pub fn repair_from_sinks(
        &mut self,
        spec: &CombineSinkSpec,
        kept: &[LoadedBranch],
        sinks: Result<Vec<String>, AudioError>,
        now: u64,
    ) -> (r: Result<(), AudioError>)
        requires
            spec.sink_name@.len() > 0,
        ensures
            repair_plan_none(sinks) ==> r is Ok && final(self).graph_state() == old(self).graph_state()
                && final(self).armed() == old(self).armed() && final(self).calls() == old(self).calls(),
            extends(old(self).calls(), final(self).calls()),
            sinks matches Ok(names) ==> (names@.len() > 0 ==> repair_log(
                spec.sink_name@,
                spec_repair_plan(bviews(spec.branches@), loaded_views(kept@), string_views(names@)),
                owed_names(old(self).armed(), now),
                calls_since(old(self).calls(), final(self).calls()),
                r,
            )),
            final(self).armed() == old(self).armed() || exists|loaded: Seq<Seq<char>>|
                final(self).armed() == #[trigger] spec_arm(waiting(old(self).armed(), now), loaded, now),
            sinks matches Ok(names) ==> (names@.len() > 0 ==> repair_arms(
                spec.sink_name@,
                spec_repair_plan(bviews(spec.branches@), loaded_views(kept@), string_views(names@)),
                old(self).armed(),
                now,
                calls_since(old(self).calls(), final(self).calls()),
                final(self).armed(),
            )),
            (sinks matches Ok(names) && names@.len() > 0 && spec_repair_plan(
                bviews(spec.branches@),
                loaded_views(kept@),
                string_views(names@),
            ).2.len() == 0) ==> (final(self).armed() == old(self).armed() || final(self).armed() == waiting(
                old(self).armed(),
                now,
            )),
    {
        let ghost s0 = self.calls();
        assert(s0.take(s0.len() as int) =~= s0);
        let plan = match repair_plan(spec, kept, &sinks) {
            Some(plan) => plan,
            None => return Ok(()),
        };
        assert(!repair_plan_none(sinks));
        let ghost pv = (plan.unload@, plan.retune@, bviews(plan.load@), bviews(plan.reachable@));
        let ghost due0 = owed_names(old(self).armed(), now);
        let sink_name = spec.sink_name.as_str();
        let ghost sk = sink_name@;
        let unloaded = self.unload_all(&plan.unload);
        let ghost s1 = self.calls();
        let ghost c1 = calls_since(s0, s1);
        match unloaded {
            Ok(()) => {},
            Err(e) => {
                proof {
                    lemma_repair_log_refused(sk, pv, due0, c1, e);
                    lemma_repair_arms_refused(sk, pv, old(self).armed(), now, c1, e);
                }
                return Err(e);
            },
        }
        let mut failures = self.retune_all(&plan.retune);
        let ghost s2 = self.calls();
        let ghost c2 = calls_since(s1, s2);
        let report = self.load_planned_branches_live(sink_name, &plan.load);
        let ghost s3 = self.calls();
        let ghost c3 = calls_since(s2, s3);
        let ghost outcome = choose|outcome: Seq<bool>|
            {
                &&& outcome.len() == plan.load@.len()
                &&& string_views(report.loaded@) == loaded_sinks(plan.load@, outcome)
                &&& report.failures@.len() == count_failed(outcome)
                &&& load_log(sink_name@, bviews(plan.load@), c3, outcome)
            };
        proof {
            lemma_loaded_names(plan.load@, outcome);
        }
        extend_strings(&mut failures, &report.failures);
        let set = self.g_set_default(sink_name);
        let ghost s4 = self.calls();
        proof {
            lemma_since_split(s0, s1, s2);
            lemma_since_split(s0, s2, s3);
            assert(extends(s3, s4)) by {
                assert(s4.take(s3.len() as int) =~= s3);
            }
            lemma_since_split(s0, s3, s4);
            assert(calls_since(s3, s4) =~= seq![GraphCall::SetDefault(sk, set)]);
            assert(calls_since(s0, s4) =~= c1 + c2 + c3 + seq![GraphCall::SetDefault(sk, set)]);
        }
        let ghost head = c1 + c2 + c3 + seq![GraphCall::SetDefault(sk, set)];
        match set {
            Ok(()) => {},
            Err(e) => {
                proof {
                    assert(head + Seq::<GraphCall>::empty() =~= head);
                    lemma_repair_log_intro(sk, pv, due0, c1, c2, c3, outcome, set, Seq::<GraphCall>::empty(), set);
                    lemma_repair_arms_intro(sk, pv, old(self).armed(), now, c1, c2, c3, outcome, set, Seq::<GraphCall>::empty(), self.armed());
                }
                return Err(e);
            },
        }
        // What is owed is learnt before this pass's loads are armed, so a
        // branch is never confirmed in the pass that loaded it.
        let due = self.confirmation.take_due(now);
        let owed = still_owed(&due, &report.loaded);
        self.confirmation.arm(&report.loaded, now);
        assert(self.armed() == spec_arm(waiting(old(self).armed(), now), string_views(report.loaded@), now));
        proof {
            if pv.2.len() == 0 {
                assert(string_views(report.loaded@) =~= Seq::<Seq<char>>::empty());
            }
        }
        let confirming = confirming_branches(&plan.reachable, &owed);
        let ghost cv = bviews(confirming@);
        let ghost clean = all_accepted(c2) && count_failed(outcome) == 0;
        assert(cv == spec_confirming(pv.3, spec_still_owed(due0, loaded_names(pv.2, outcome))));
        assert(failures@.len() == 0 <==> clean) by {
            assert(string_views(failures@).len() == failures@.len());
            assert(string_views(report.failures@).len() == report.failures@.len());
        }
        if confirming.len() == 0 {
            let done = BranchLoadReport { loaded: report.loaded, failures }.into_result();
            proof {
                assert(head + Seq::<GraphCall>::empty() =~= head);
                lemma_repair_log_intro(sk, pv, due0, c1, c2, c3, outcome, set, Seq::<GraphCall>::empty(), done);
                lemma_repair_arms_intro(sk, pv, old(self).armed(), now, c1, c2, c3, outcome, set, Seq::<GraphCall>::empty(), self.armed());
            }
            return done;
        }
        // The measured remedy: reload each owed branch once, touching no other,
        // and arm no confirmation for that reload.
        let answer = self.g_branches(sink_name);
        let ghost s5 = self.calls();
        proof {
            assert(extends(s4, s5)) by {
                assert(s5.take(s4.len() as int) =~= s4);
            }
            lemma_since_split(s0, s4, s5);
            assert(calls_since(s4, s5) =~= seq![GraphCall::Branches(sk, branches_view(answer))]);
        }
        let read = match answer {
            Ok(read) => read,
            Err(e) => {
                proof {
                    lemma_confirm_read_refused(sk, cv, e, clean);
                    lemma_repair_log_intro(
                        sk,
                        pv,
                        due0,
                        c1,
                        c2,
                        c3,
                        outcome,
                        set,
                        seq![GraphCall::Branches(sk, Err(e))],
                        Err(e),
                    );
                    lemma_repair_arms_intro(sk, pv, old(self).armed(), now, c1, c2, c3, outcome, set, seq![GraphCall::Branches(sk, Err(e))], self.armed());
                }
                return Err(e);
            },
        };
        let ghost rv = loaded_views(read@);
        let replaced = confirm_unload_ids(&read, &confirming);
        let unloaded_again = self.unload_all(&replaced);
        let ghost s6 = self.calls();
        let ghost c5 = calls_since(s5, s6);
        proof {
            lemma_since_split(s0, s5, s6);
        }
        match unloaded_again {
            Ok(()) => {},
            Err(e) => {
                proof {
                    lemma_confirm_unload_refused(sk, cv, rv, c5, e, clean);
                    let tail = seq![GraphCall::Branches(sk, Ok(rv))] + c5;
                    lemma_repair_log_intro(sk, pv, due0, c1, c2, c3, outcome, set, tail, Err(e));
                    lemma_repair_arms_intro(sk, pv, old(self).armed(), now, c1, c2, c3, outcome, set, tail, self.armed());
                    assert(calls_since(s0, s6) =~= head + tail);
                }
                return Err(e);
            },
        }
        let second = self.load_planned_branches_live(sink_name, &confirming);
        let ghost s7 = self.calls();
        let ghost c6 = calls_since(s6, s7);
        let ghost outcome2 = choose|outcome: Seq<bool>|
            {
                &&& outcome.len() == confirming@.len()
                &&& string_views(second.loaded@) == loaded_sinks(confirming@, outcome)
                &&& second.failures@.len() == count_failed(outcome)
                &&& load_log(sink_name@, bviews(confirming@), c6, outcome)
            };
        let ghost before_second = failures@.len();
        extend_strings(&mut failures, &second.failures);
        let set_again = self.g_set_default(sink_name);
        let ghost s8 = self.calls();
        proof {
            lemma_since_split(s0, s6, s7);
            assert(extends(s7, s8)) by {
                assert(s8.take(s7.len() as int) =~= s7);
            }
            lemma_since_split(s0, s7, s8);
            assert(calls_since(s7, s8) =~= seq![GraphCall::SetDefault(sk, set_again)]);
        }
        let done = match set_again {
            Ok(()) => BranchLoadReport { loaded: second.loaded, failures }.into_result(),
            Err(e) => Err(e),
        };
        proof {
            assert(failures@.len() == 0 <==> clean && count_failed(outcome2) == 0) by {
                assert(string_views(failures@).len() == failures@.len());
                assert(string_views(second.failures@).len() == second.failures@.len());
            }
            lemma_confirm_done(sk, cv, rv, c5, c6, outcome2, set_again, done, clean);
            let tail = seq![GraphCall::Branches(sk, Ok(rv))] + c5 + c6 + seq![GraphCall::SetDefault(sk, set_again)];
            lemma_repair_log_intro(sk, pv, due0, c1, c2, c3, outcome, set, tail, done);
            lemma_repair_arms_intro(sk, pv, old(self).armed(), now, c1, c2, c3, outcome, set, tail, self.armed());
            assert(calls_since(s0, s8) =~= head + tail);
        }
        done
    }
}

impl<G: Graph> AudioRouter<G> {
    /// Change one speaker's delay in place: the new value is set on the delay
    /// node of each branch feeding that speaker's node, and nothing is
    /// unloaded or loaded, so whatever feeds the combined sink keeps streaming.
    /// A speaker whose sink is listed but carries no branch is not an error
    /// (its branch loads with the new offset on the next reconciliation); a
    /// speaker whose sink is absent, or an empty sink name, is.
    pub fn retune_branch(&mut self, sink_name: &str, branch: &CombineBranch) -> (r: Result<(), AudioError>)
        ensures
            branch.sink@.len() == 0 ==> (r matches Err(AudioError::PipeWire(m)) && m@ == no_prefix_message(
                branch.sink@,
            ) && final(self).graph_state() == old(self).graph_state()),
            extends(old(self).calls(), final(self).calls()),
            retune_log(sink_name@, branch.sink@, branch.latency_ms, calls_since(old(self).calls(), final(self).calls()), r),
            final(self).armed() == old(self).armed(),
    {
        let ghost start = self.calls();
        let resolved = self.resolve_sink(branch);
        assert(self.calls().take(start.len() as int) =~= start);
        let ghost c0 = calls_since(start, self.calls());
        assert(branch.sink@.len() > 0 ==> c0 =~= seq![self.calls().last()]);
        let node = match resolved {
            Ok(node) => node,
            Err(e) => return Err(e),
        };
        match crate::graph_pw::named("sink", sink_name) {
            Ok(()) => {},
            Err(e) => return Err(e),
        }
        let ghost before_read = self.calls();
        let answer = self.g_branches(sink_name);
        let ghost base = self.calls();
        assert(base.take(start.len() as int) =~= start);
        assert(calls_since(start, base) =~= c0.push(base.last()));
        let read = match answer {
            Ok(read) => read,
            Err(e) => return Err(e),
        };
        let ids = branch_ids_feeding(&read, node.as_str());
        let ghost wanted = retune_requests(ids@.map_values(|id: u32| (id, branch.latency_ms)));
        let ghost head = calls_since(start, base);
        assert(head[0] == c0[0]);
        assert forall|j: int| 0 <= j < ids@.len() implies #[trigger] wanted[j] == GraphCall::SetDelay(
            ids@[j],
            branch.latency_ms,
            Ok(()),
        ) by {}
        let mut k: usize = 0;
        while k < ids.len()
            invariant
                branch.sink@.len() > 0,
                sink_name@.len() > 0,
                self.armed() == old(self).armed(),
                k <= ids@.len(),
                wanted == retune_requests(ids@.map_values(|id: u32| (id, branch.latency_ms))),
                wanted.len() == ids@.len(),
                forall|j: int|
                    0 <= j < ids@.len() ==> #[trigger] wanted[j] == GraphCall::SetDelay(ids@[j], branch.latency_ms, Ok(())),
                ids@ == spec_branch_ids_feeding(loaded_views(read@), node@),
                start == old(self).calls(),
                base.len() == start.len() + 2,
                head == calls_since(start, base),
                head[0] matches GraphCall::Sinks(s) && resolution(s, branch.sink@) == Some(node@),
                head[1] == GraphCall::Branches(sink_name@, Ok(loaded_views(read@))),
                base.take(start.len() as int) == start,
                self.calls().len() == base.len() + k,
                self.calls().take(base.len() as int) == base,
                forall|j: int| 0 <= j < k ==> #[trigger] self.calls()[base.len() as int + j] == wanted[j],
            decreases ids.len() - k,
        {
            let ghost prev = self.calls();
            let done = self.g_set_delay(ids[k], branch.latency_ms);
            assert(self.calls().take(base.len() as int) =~= base) by {
                assert(self.calls().take(base.len() as int) =~= prev.take(base.len() as int));
            }
            assert forall|j: int| 0 <= j < k implies #[trigger] self.calls()[base.len() as int + j] == wanted[j] by {
                assert(self.calls()[base.len() as int + j] == prev[base.len() as int + j]);
            }
            assert(self.calls()[base.len() + k] == GraphCall::SetDelay(ids@[k as int], branch.latency_ms, done));
            match done {
                Ok(u) => {
                    assert(done == Ok::<(), AudioError>(u));
                    assert forall|j: int| 0 <= j < k + 1 implies #[trigger] self.calls()[base.len() as int + j]
                        == wanted[j] by {
                        if j == k {
                            assert(self.calls()[base.len() as int + j] == self.calls()[base.len() + k]);
                            assert(wanted[j] == GraphCall::SetDelay(ids@[j], branch.latency_ms, Ok(())));
                            assert(self.calls()[base.len() as int + j] == GraphCall::SetDelay(ids@[j], branch.latency_ms, Ok(())));
                        } else {
                            assert(self.calls()[base.len() as int + j] == prev[base.len() as int + j]);
                        }
                    }
                },
                Err(e) => {
                    proof {
                        let c = calls_since(start, self.calls());
                        assert(self.calls().take(start.len() as int) =~= start) by {
                            assert(self.calls().take(start.len() as int) =~= base.take(start.len() as int));
                        }
                        let rest = c.skip(2);
                        assert(rest =~= self.calls().skip(base.len() as int));
                        assert(c[0] == head[0]) by {
                            assert(c[0] == self.calls()[start.len() as int]);
                            assert(base[start.len() as int] == head[0]);
                        }
                        assert(c[1] == head[1]) by {
                            assert(c[1] == self.calls()[start.len() as int + 1]);
                            assert(base[start.len() as int + 1] == head[1]);
                        }
                        assert forall|j: int| 0 <= j < rest.len() implies #[trigger] rest[j] == with_answer(
                            wanted[j],
                            answer_of(rest[j]),
                        ) by {
                            assert(rest[j] == self.calls()[base.len() as int + j]);
                        }
                        assert forall|j: int| 0 <= j < rest.len() - 1 implies answer_of(#[trigger] rest[j]) is Ok by {
                            assert(rest[j] == self.calls()[base.len() as int + j]);
                        }
                    }
                    return Err(e);
                },
            }
            k = k + 1;
        }
        proof {
            let c = calls_since(start, self.calls());
            assert(self.calls().take(start.len() as int) =~= start) by {
                assert(self.calls().take(start.len() as int) =~= base.take(start.len() as int));
            }
            let rest = c.skip(2);
            assert(rest =~= self.calls().skip(base.len() as int));
            assert(c[0] == head[0]) by {
                assert(c[0] == self.calls()[start.len() as int]);
                assert(base[start.len() as int] == head[0]);
            }
            assert(c[1] == head[1]) by {
                assert(c[1] == self.calls()[start.len() as int + 1]);
                assert(base[start.len() as int + 1] == head[1]);
            }
            assert forall|j: int| 0 <= j < rest.len() implies #[trigger] rest[j] == with_answer(
                wanted[j],
                answer_of(rest[j]),
            ) by {
                assert(rest[j] == self.calls()[base.len() as int + j]);
            }
            assert forall|j: int| 0 <= j < rest.len() - 1 implies answer_of(#[trigger] rest[j]) is Ok by {
                assert(rest[j] == self.calls()[base.len() as int + j]);
            }
            if rest.len() > 0 {
                assert(rest.last() == self.calls()[base.len() as int + rest.len() - 1]);
            }
            assert forall|j: int| 0 <= j < rest.len() implies answer_of(#[trigger] rest[j]) is Ok by {
                assert(rest[j] == self.calls()[base.len() as int + j]);
            }
            assert(issued_until_refused(wanted, rest, Ok(())));
        }
        Ok(())
    }

    /// Tear down the combined sink `sink_name`: the null sink and every branch
    /// belonging to it. An empty name is refused before it reaches the graph.
    pub fn teardown(&mut self, sink_name: &str) -> (r: Result<(), AudioError>)
        ensures
            sink_name@.len() == 0 ==> (r matches Err(AudioError::PipeWire(m)) && m@ == crate::graph_pw::empty_name_message(
                "sink"@,
            ) && final(self).graph_state() == old(self).graph_state() && final(self).calls() == old(self).calls()),
            sink_name@.len() > 0 ==> final(self).calls() == old(self).calls().push(GraphCall::Teardown(sink_name@, r)),
            final(self).armed() == old(self).armed(),
    {
        match crate::graph_pw::named("sink", sink_name) {
            Ok(()) => {},
            Err(e) => return Err(e),
        }
        self.g_teardown(sink_name)
    }

    /// Whether the combined sink `sink_name` is loaded, i.e. whether the graph
    /// can be reconciled in place rather than built. An unreadable graph, and
    /// an empty name, answer `false`.
    pub fn combined_sink_exists(&mut self, sink_name: &str) -> (exists: bool)
        ensures
            sink_name@.len() == 0 ==> !exists && final(self).graph_state() == old(self).graph_state()
                && final(self).calls() == old(self).calls(),
            sink_name@.len() > 0 ==> one_more(old(self).calls(), final(self).calls()) && (final(self).calls().last() matches GraphCall::Sinks(s)
                && exists == (resolution(s, sink_name@) is Some)),
            final(self).armed() == old(self).armed(),
    {
        match self.find_sink(sink_name) {
            Ok(Some(_)) => true,
            _ => false,
        }
    }

    /// Resolve a playback target — a `bluez_output.*` prefix or an exact node
    /// name — to the live node name to hand a player: a name the target names.
    /// Errs rather than falling back to the default sink, so a vanished speaker
    /// or an empty target is reported instead of sending audio elsewhere.
    pub fn resolve_target_sink(&mut self, target: &str) -> (r: Result<String, AudioError>)
        ensures
            r matches Ok(n) ==> names_node(target@, n@),
            r matches Err(e) ==> (e matches AudioError::PipeWire(m) && m@ == no_target_message(target@)),
            target@.len() == 0 ==> r is Err && final(self).graph_state() == old(self).graph_state()
                && final(self).calls() == old(self).calls(),
            target@.len() > 0 ==> one_more(old(self).calls(), final(self).calls()) && (final(self).calls().last() matches GraphCall::Sinks(s)
                && match resolution(s, target@) {
                Some(n) => r matches Ok(x) && x@ == n,
                None => r is Err,
            }),
            final(self).armed() == old(self).armed(),
    {
        match self.find_sink(target) {
            Ok(Some(n)) => Ok(n),
            _ => {
                let mut m = String::from_str("no PipeWire sink for target ");
                m.append(target);
                Err(AudioError::PipeWire(m))
            },
        }
    }
}

} // verus!
