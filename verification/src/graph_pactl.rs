//! The readings of the audio graph as `pactl` prints it: the parsers of its
//! listings, and the description of each invocation. Spawning `pactl` is the
//! caller's; everything here is pure.

use crate::audio::{bview, bviews, AudioError, CombineBranch};
use crate::graph::LoadedBranch;
use crate::split::{lines, lines_exec, slice_chars, split_on, split_pieces, words, words_exec, Sep};
use crate::text::{
    all_digits, chars_eq, chars_of, contains_chars, contains_seq, decimal_digits,
    find_char, find_from, is_digit, parse_digits, parse_u32, push_decimal, skip_spaces,
    spec_parse_u32, string_of, string_of_range, strip_plus, trim, trim_end_index,
};
use vstd::prelude::*;

verus! {

/// The audio graph as `pactl` sees it. Stateless: every reading is taken afresh.
#[derive(Debug, Default)]
pub struct PactlGraph;

impl PactlGraph {
    /// A graph over the `pactl` found on the `PATH`.
    pub fn new() -> (graph: Self)
        ensures
            graph == PactlGraph,
    {
        PactlGraph
    }
}

/// PulseAudio's invalid sink index: what a loopback's playback stream reports
/// once the node it was pinned to is gone.
pub const INVALID_SINK_INDEX: u32 = 4_294_967_295;

/// Whether `s` starts with `p`.
pub open spec fn starts_with(s: Seq<char>, p: Seq<char>) -> bool {
    p.len() <= s.len() && s.take(p.len() as int) == p
}

/// The rest of the first word at or after `i` that starts with `p`.
pub open spec fn first_with_prefix(words: Seq<Seq<char>>, p: Seq<char>, i: int) -> Option<Seq<char>>
    decreases words.len() - i,
{
    if i < 0 || i >= words.len() {
        None
    } else if starts_with(words[i], p) {
        Some(words[i].skip(p.len() as int))
    } else {
        first_with_prefix(words, p, i + 1)
    }
}

/// The argument that marks a loopback fed by `sink_name`'s monitor.
pub open spec fn source_token(sink_name: Seq<char>) -> Seq<char> {
    "source="@ + sink_name + ".monitor"@
}

/// What one line of `pactl list short modules` says about the combined sink
/// `sink_name`: a module id and the branch it carries, when the line is a
/// `module-loopback` whose arguments hold `source=<sink_name>.monitor` as a
/// whole word, a `sink=` naming a node, and a `latency_msec=` that parses.
pub open spec fn spec_module_line(line: Seq<char>, sink_name: Seq<char>) -> Option<(u32, (Seq<char>, u32))> {
    let cols = split_on(line, Sep::Char('\t'));
    if cols.len() < 3 {
        None
    } else {
        match spec_parse_u32(cols[0]) {
            None => None,
            Some(id) => {
                let args = words(cols[2]);
                if cols[1] != "module-loopback"@ || !args.contains(source_token(sink_name)) {
                    None
                } else {
                    match first_with_prefix(args, "sink="@, 0) {
                        None => None,
                        Some(sink) => if sink.len() == 0 {
                            None
                        } else {
                            match first_with_prefix(args, "latency_msec="@, 0) {
                                None => None,
                                Some(l) => match spec_parse_u32(l) {
                                    None => None,
                                    Some(latency) => Some((id, (sink, latency))),
                                },
                            }
                        },
                    }
                }
            },
        }
    }
}

/// Every loopback branch loaded for `sink_name`, in listing order, with the id
/// of the module carrying it.
pub open spec fn spec_branch_modules(ls: Seq<Seq<char>>, sink_name: Seq<char>) -> Seq<(u32, (Seq<char>, u32))>
    decreases ls.len(),
{
    if ls.len() == 0 {
        seq![]
    } else {
        let rest = spec_branch_modules(ls.drop_last(), sink_name);
        match spec_module_line(ls.last(), sink_name) {
            Some(m) => rest.push(m),
            None => rest,
        }
    }
}

/// The rest of the first word of `ws` starting with `p`, by index.
fn first_with_prefix_exec(ws: &Vec<Vec<char>>, p: &Vec<char>) -> (rest: Option<Vec<char>>)
    ensures
        match rest {
            Some(r) => first_with_prefix(ws@.map_values(|w: Vec<char>| w@), p@, 0) == Some(r@),
            None => first_with_prefix(ws@.map_values(|w: Vec<char>| w@), p@, 0) is None,
        },
{
    let ghost wv = ws@.map_values(|w: Vec<char>| w@);
    let mut i: usize = 0;
    while i < ws.len()
        invariant
            wv == ws@.map_values(|w: Vec<char>| w@),
            0 <= i <= ws@.len(),
            first_with_prefix(wv, p@, 0) == first_with_prefix(wv, p@, i as int),
        decreases ws.len() - i,
    {
        let w = &ws[i];
        assert(wv[i as int] == w@);
        if p.len() <= w.len() && chars_eq(&slice_chars(w, 0, p.len()), p) {
            assert(w@.take(p@.len() as int) =~= w@.subrange(0, p@.len() as int));
            let r = slice_chars(w, p.len(), w.len());
            assert(r@ =~= w@.skip(p@.len() as int));
            return Some(r);
        }
        proof {
            if p@.len() <= w@.len() {
                assert(w@.take(p@.len() as int) =~= w@.subrange(0, p@.len() as int));
            }
        }
        i = i + 1;
    }
    None
}

/// Whether some word of `ws` is exactly `t`.
fn has_word(ws: &Vec<Vec<char>>, t: &Vec<char>) -> (found: bool)
    ensures
        found == ws@.map_values(|w: Vec<char>| w@).contains(t@),
{
    let ghost wv = ws@.map_values(|w: Vec<char>| w@);
    let mut i: usize = 0;
    while i < ws.len()
        invariant
            wv == ws@.map_values(|w: Vec<char>| w@),
            0 <= i <= ws@.len(),
            forall|k: int| 0 <= k < i ==> wv[k] != t@,
        decreases ws.len() - i,
    {
        if chars_eq(&ws[i], t) {
            assert(wv[i as int] == t@);
            return true;
        }
        i = i + 1;
    }
    false
}

/// The characters of a string literal.
fn literal(s: &str) -> (v: Vec<char>)
    ensures
        v@ == s@,
{
    chars_of(s)
}

/// What one line says about `sink_name`'s branches.
fn module_line(line: &Vec<char>, sink_name: &Vec<char>) -> (m: Option<(u32, CombineBranch)>)
    ensures
        match m {
            Some((id, b)) => spec_module_line(line@, sink_name@) == Some((id, bview(b))),
            None => spec_module_line(line@, sink_name@) is None,
        },
{
    let cols = split_pieces(line, Sep::Char('\t'), 0, line.len());
    let ghost cv = cols@.map_values(|c: Vec<char>| c@);
    assert(line@.subrange(0, line@.len() as int) =~= line@);
    if cols.len() < 3 {
        return None;
    }
    assert(cv[0] == cols@[0]@ && cv[1] == cols@[1]@ && cv[2] == cols@[2]@);
    let id = match parse_u32(&cols[0], 0, cols[0].len()) {
        None => {
            assert(cols@[0]@.subrange(0, cols@[0]@.len() as int) =~= cols@[0]@);
            return None;
        },
        Some(id) => id,
    };
    assert(cols@[0]@.subrange(0, cols@[0]@.len() as int) =~= cols@[0]@);
    let args = words_exec(&cols[2], 0, cols[2].len());
    assert(cols@[2]@.subrange(0, cols@[2]@.len() as int) =~= cols@[2]@);
    let mut token = literal("source=");
    let mut k: usize = 0;
    while k < sink_name.len()
        invariant
            0 <= k <= sink_name@.len(),
            token@ == "source="@ + sink_name@.take(k as int),
        decreases sink_name.len() - k,
    {
        token.push(sink_name[k]);
        assert(token@ =~= "source="@ + sink_name@.take(k + 1));
        k = k + 1;
    }
    assert(sink_name@.take(sink_name@.len() as int) =~= sink_name@);
    let suffix = literal(".monitor");
    let mut j: usize = 0;
    let ghost base = token@;
    while j < suffix.len()
        invariant
            0 <= j <= suffix@.len(),
            suffix@ == ".monitor"@,
            token@ == base + suffix@.take(j as int),
        decreases suffix.len() - j,
    {
        token.push(suffix[j]);
        assert(token@ =~= base + suffix@.take(j + 1));
        j = j + 1;
    }
    assert(suffix@.take(suffix@.len() as int) =~= suffix@);
    assert(token@ =~= source_token(sink_name@));
    if !chars_eq(&cols[1], &literal("module-loopback")) || !has_word(&args, &token) {
        return None;
    }
    let sink = match first_with_prefix_exec(&args, &literal("sink=")) {
        None => return None,
        Some(s) => s,
    };
    if sink.len() == 0 {
        return None;
    }
    let latency_text = match first_with_prefix_exec(&args, &literal("latency_msec=")) {
        None => return None,
        Some(l) => l,
    };
    let latency = match parse_u32(&latency_text, 0, latency_text.len()) {
        None => {
            assert(latency_text@.subrange(0, latency_text@.len() as int) =~= latency_text@);
            return None;
        },
        Some(l) => l,
    };
    assert(latency_text@.subrange(0, latency_text@.len() as int) =~= latency_text@);
    Some((id, CombineBranch { sink: string_of(&sink), latency_ms: latency }))
}

/// The modules of the lines of `ls`, with the branches they carry.
fn branch_modules_of_lines(ls: &Vec<Vec<char>>, sink_name: &Vec<char>) -> (out: Vec<(u32, CombineBranch)>)
    ensures
        out@.map_values(|m: (u32, CombineBranch)| (m.0, bview(m.1))) == spec_branch_modules(
            ls@.map_values(|l: Vec<char>| l@),
            sink_name@,
        ),
{
    let ghost lv = ls@.map_values(|l: Vec<char>| l@);
    let mut out: Vec<(u32, CombineBranch)> = Vec::new();
    let mut i: usize = 0;
    while i < ls.len()
        invariant
            lv == ls@.map_values(|l: Vec<char>| l@),
            0 <= i <= ls@.len(),
            out@.map_values(|m: (u32, CombineBranch)| (m.0, bview(m.1))) == spec_branch_modules(
                lv.take(i as int),
                sink_name@,
            ),
        decreases ls.len() - i,
    {
        proof {
            assert(lv.take(i + 1).drop_last() =~= lv.take(i as int));
            assert(lv.take(i + 1).last() == ls@[i as int]@);
        }
        match module_line(&ls[i], sink_name) {
            Some(m) => {
                let ghost prev = out@;
                out.push(m);
                assert(out@ == prev.push(m));
                assert(out@.map_values(|m: (u32, CombineBranch)| (m.0, bview(m.1))) =~= spec_branch_modules(
                    lv.take(i + 1),
                    sink_name@,
                ));
            },
            None => {
                assert(spec_branch_modules(lv.take(i + 1), sink_name@) == spec_branch_modules(
                    lv.take(i as int),
                    sink_name@,
                ));
            },
        }
        i = i + 1;
    }
    assert(lv.take(lv.len() as int) =~= lv);
    out
}

/// Every loopback branch loaded for `sink_name` in the text `pactl list short
/// modules` printed, with the id of its module.
fn branch_modules(listing: &str, sink_name: &str) -> (out: Vec<(u32, CombineBranch)>)
    ensures
        out@.map_values(|m: (u32, CombineBranch)| (m.0, bview(m.1))) == spec_branch_modules(
            lines(listing@),
            sink_name@,
        ),
{
    let ls = lines_exec(&chars_of(listing));
    branch_modules_of_lines(&ls, &chars_of(sink_name))
}

/// One playback stream as `pactl list sink-inputs` reports it.
#[derive(Debug, Clone, Copy, PartialEq, Eq)]
pub struct SinkInputStream {
    /// The `Owner Module:` field.
    pub owner_module: u32,
    /// The `Sink:` field: PulseAudio's index of the sink this stream feeds.
    pub sink: u32,
}

/// Whether a module is feeding a speaker: one of its streams sits on a real sink.
pub open spec fn spec_module_is_live(streams: Seq<SinkInputStream>, module_id: u32) -> bool {
    exists|i: int|
        0 <= i < streams.len() && (#[trigger] streams[i]).owner_module == module_id && streams[i].sink
            != INVALID_SINK_INDEX
}

/// Whether a loaded `module-loopback` is actually feeding a speaker: it has a
/// playback stream, and that stream sits on a real sink.
pub fn module_is_live(streams: &[SinkInputStream], module_id: u32) -> (live: bool)
    ensures
        live == spec_module_is_live(streams@, module_id),
{
    let mut i: usize = 0;
    while i < streams.len()
        invariant
            0 <= i <= streams@.len(),
            forall|k: int|
                0 <= k < i ==> !((#[trigger] streams@[k]).owner_module == module_id && streams@[k].sink
                    != INVALID_SINK_INDEX),
        decreases streams.len() - i,
    {
        if streams[i].owner_module == module_id && streams[i].sink != INVALID_SINK_INDEX {
            return true;
        }
        i = i + 1;
    }
    false
}

/// The view of an optional borrowed stream list.
pub open spec fn live_view(live: Option<&[SinkInputStream]>) -> Option<Seq<SinkInputStream>> {
    match live {
        Some(s) => Some(s@),
        None => None,
    }
}

/// Whether a branch module passes the liveness filter: always when liveness is
/// unknown, else only when its module is live.
pub open spec fn keeps(live: Option<Seq<SinkInputStream>>, m: (u32, (Seq<char>, u32))) -> bool {
    match live {
        None => true,
        Some(streams) => spec_module_is_live(streams, m.0),
    }
}

/// The branches of `mods` that pass the liveness filter.
pub open spec fn kept_branches(mods: Seq<(u32, (Seq<char>, u32))>, live: Option<Seq<SinkInputStream>>) -> Seq<(Seq<char>, u32)>
    decreases mods.len(),
{
    if mods.len() == 0 {
        seq![]
    } else {
        let rest = kept_branches(mods.drop_last(), live);
        if keeps(live, mods.last()) {
            rest.push(mods.last().1)
        } else {
            rest
        }
    }
}

/// The loopback branches currently loaded for the combined sink `sink_name`,
/// read out of `pactl list short modules`: one per `module-loopback` fed by
/// `<sink_name>.monitor`, with the node it feeds and its `latency_msec`. With
/// a liveness reading, only the branches whose module is live are kept.
pub fn loaded_branches(listing: &str, sink_name: &str, live: Option<&[SinkInputStream]>) -> (branches: Vec<CombineBranch>)
    ensures
        bviews(branches@) == kept_branches(spec_branch_modules(lines(listing@), sink_name@), live_view(live)),
{
    let mods = branch_modules(listing, sink_name);
    let ghost mv = mods@.map_values(|m: (u32, CombineBranch)| (m.0, bview(m.1)));
    let mut out: Vec<CombineBranch> = Vec::new();
    let mut i: usize = 0;
    while i < mods.len()
        invariant
            mv == mods@.map_values(|m: (u32, CombineBranch)| (m.0, bview(m.1))),
            0 <= i <= mods@.len(),
            bviews(out@) == kept_branches(mv.take(i as int), live_view(live)),
        decreases mods.len() - i,
    {
        proof {
            assert(mv.take(i + 1).drop_last() =~= mv.take(i as int));
            assert(mv.take(i + 1).last() == mv[i as int]);
        }
        let (id, b) = &mods[i];
        let keep = match live {
            None => true,
            Some(streams) => module_is_live(streams, *id),
        };
        if keep {
            let ghost prev = out@;
            let c = b.clone();
            out.push(c);
            assert(out@ == prev.push(c));
            assert(bviews(out@) =~= kept_branches(mv.take(i + 1), live_view(live)));
        }
        i = i + 1;
    }
    assert(mv.take(mv.len() as int) =~= mv);
    out
}

/// The module ids of `mods` whose module is not live.
pub open spec fn dead_ids(mods: Seq<(u32, (Seq<char>, u32))>, streams: Seq<SinkInputStream>) -> Seq<u32>
    decreases mods.len(),
{
    if mods.len() == 0 {
        seq![]
    } else {
        let rest = dead_ids(mods.drop_last(), streams);
        if spec_module_is_live(streams, mods.last().0) {
            rest
        } else {
            rest.push(mods.last().0)
        }
    }
}

/// The module ids of the loopbacks loaded for `sink_name` that are loaded but
/// dead: listed, yet feeding nothing. Empty when liveness could not be read.
pub fn dead_branch_modules(listing: &str, sink_name: &str, live: Option<&[SinkInputStream]>) -> (ids: Vec<u32>)
    ensures
        ids@ == match live_view(live) {
            None => seq![],
            Some(streams) => dead_ids(spec_branch_modules(lines(listing@), sink_name@), streams),
        },
{
    let streams = match live {
        None => return Vec::new(),
        Some(s) => s,
    };
    let mods = branch_modules(listing, sink_name);
    let ghost mv = mods@.map_values(|m: (u32, CombineBranch)| (m.0, bview(m.1)));
    let mut out: Vec<u32> = Vec::new();
    let mut i: usize = 0;
    while i < mods.len()
        invariant
            mv == mods@.map_values(|m: (u32, CombineBranch)| (m.0, bview(m.1))),
            0 <= i <= mods@.len(),
            out@ == dead_ids(mv.take(i as int), streams@),
        decreases mods.len() - i,
    {
        proof {
            assert(mv.take(i + 1).drop_last() =~= mv.take(i as int));
            assert(mv.take(i + 1).last() == mv[i as int]);
        }
        let id = mods[i].0;
        if !module_is_live(streams, id) {
            out.push(id);
        }
        i = i + 1;
    }
    assert(mv.take(mv.len() as int) =~= mv);
    out
}

/// The three-valued liveness of a module: `None` when unknown.
pub open spec fn liveness_of(live: Option<Seq<SinkInputStream>>, id: u32) -> Option<bool> {
    match live {
        None => None,
        Some(streams) => Some(spec_module_is_live(streams, id)),
    }
}

/// A loaded branch as a triple of its id, its branch and its liveness.
pub open spec fn lview(b: LoadedBranch) -> (u32, (Seq<char>, u32), Option<bool>) {
    (b.id, bview(b.branch), b.live)
}

/// What the router is handed: every loopback loaded for `sink_name` with its
/// module id and a three-valued liveness: live, dead, or `None` for every
/// branch when the sink-input listing could not be read.
pub fn loaded_branches_with_liveness(listing: &str, sink_name: &str, live: Option<&[SinkInputStream]>) -> (read: Vec<LoadedBranch>)
    ensures
        read@.map_values(|b: LoadedBranch| lview(b)) == spec_branch_modules(lines(listing@), sink_name@).map_values(
            |m: (u32, (Seq<char>, u32))| (m.0, m.1, liveness_of(live_view(live), m.0)),
        ),
{
    let mods = branch_modules(listing, sink_name);
    let ghost mv = mods@.map_values(|m: (u32, CombineBranch)| (m.0, bview(m.1)));
    let ghost f = |m: (u32, (Seq<char>, u32))| (m.0, m.1, liveness_of(live_view(live), m.0));
    let mut out: Vec<LoadedBranch> = Vec::new();
    let mut i: usize = 0;
    while i < mods.len()
        invariant
            mv == mods@.map_values(|m: (u32, CombineBranch)| (m.0, bview(m.1))),
            f == (|m: (u32, (Seq<char>, u32))| (m.0, m.1, liveness_of(live_view(live), m.0))),
            0 <= i <= mods@.len(),
            out@.len() == i,
            forall|k: int| 0 <= k < i ==> lview(#[trigger] out@[k]) == f(mv[k]),
        decreases mods.len() - i,
    {
        let (id, b) = &mods[i];
        let state = match live {
            None => None,
            Some(streams) => Some(module_is_live(streams, *id)),
        };
        let ghost prev = out@;
        let entry = LoadedBranch { id: *id, branch: b.clone(), live: state };
        out.push(entry);
        assert(out@ == prev.push(entry));
        assert(mv[i as int] == (mods@[i as int].0, bview(mods@[i as int].1)));
        i = i + 1;
    }
    assert(out@.map_values(|b: LoadedBranch| lview(b)) =~= mv.map_values(f));
    out
}

/// What a line of `pactl list sink-inputs` does to the parse: a block header
/// closes the previous stream, and the two labelled fields are read.
pub ghost struct SinkInputState {
    pub streams: Seq<SinkInputStream>,
    pub owner: Option<u32>,
    pub sink: Option<u32>,
}

/// The state once the stream being read is closed: it is kept only when both
/// fields were read, and both are forgotten either way.
pub open spec fn flush(st: SinkInputState) -> SinkInputState {
    match (st.owner, st.sink) {
        (Some(o), Some(s)) => SinkInputState {
            streams: st.streams.push(SinkInputStream { owner_module: o, sink: s }),
            owner: None,
            sink: None,
        },
        _ => SinkInputState { streams: st.streams, owner: None, sink: None },
    }
}

/// The value after a label, trimmed and parsed.
pub open spec fn field_value(field: Seq<char>, label: Seq<char>) -> Option<u32> {
    spec_parse_u32(trim(field.skip(label.len() as int)))
}

/// One line's effect on the parse, after trimming it.
pub open spec fn sink_input_step(st: SinkInputState, line: Seq<char>) -> SinkInputState {
    let field = trim(line);
    if starts_with(field, "Sink Input #"@) {
        flush(st)
    } else if starts_with(field, "Owner Module:"@) {
        SinkInputState { owner: field_value(field, "Owner Module:"@), ..st }
    } else if starts_with(field, "Sink:"@) {
        SinkInputState { sink: field_value(field, "Sink:"@), ..st }
    } else {
        st
    }
}

/// The parse state after the lines `ls`.
pub open spec fn sink_input_run(ls: Seq<Seq<char>>) -> SinkInputState
    decreases ls.len(),
{
    if ls.len() == 0 {
        SinkInputState { streams: seq![], owner: None, sink: None }
    } else {
        sink_input_step(sink_input_run(ls.drop_last()), ls.last())
    }
}

/// The streams a `pactl list sink-inputs` listing reports as owned by a module.
pub open spec fn spec_parse_sink_inputs(listing: Seq<char>) -> Seq<SinkInputStream> {
    flush(sink_input_run(lines(listing))).streams
}

/// Whether `v` starts with the characters of `p`.
fn starts_with_exec(v: &Vec<char>, p: &Vec<char>) -> (b: bool)
    ensures
        b == starts_with(v@, p@),
{
    if p.len() > v.len() {
        return false;
    }
    let head = slice_chars(v, 0, p.len());
    assert(head@ =~= v@.take(p@.len() as int));
    chars_eq(&head, p)
}

/// The trimmed value after `label` at the start of `field`, parsed.
fn read_field(field: &Vec<char>, label_len: usize) -> (n: Option<u32>)
    requires
        label_len <= field@.len(),
    ensures
        n == spec_parse_u32(trim(field@.skip(label_len as int))),
{
    let start = skip_spaces(field, label_len);
    let end = trim_end_index(field, start, field.len());
    assert(field@.skip(start as int) =~= field@.subrange(start as int, field@.len() as int));
    parse_u32(field, start, end)
}

/// Read the text `pactl list sink-inputs` prints into one entry per stream
/// that belongs to a module. Anything that does not parse is skipped.
pub fn parse_sink_inputs(listing: &str) -> (streams: Vec<SinkInputStream>)
    ensures
        streams@ == spec_parse_sink_inputs(listing@),
{
    let ls = lines_exec(&chars_of(listing));
    let ghost lv = ls@.map_values(|l: Vec<char>| l@);
    let header = literal("Sink Input #");
    let owner_label = literal("Owner Module:");
    let sink_label = literal("Sink:");
    let mut streams: Vec<SinkInputStream> = Vec::new();
    let mut owner: Option<u32> = None;
    let mut sink: Option<u32> = None;
    let mut i: usize = 0;
    while i < ls.len()
        invariant
            lv == ls@.map_values(|l: Vec<char>| l@),
            header@ == "Sink Input #"@,
            owner_label@ == "Owner Module:"@,
            sink_label@ == "Sink:"@,
            0 <= i <= ls@.len(),
            sink_input_run(lv.take(i as int)) == (SinkInputState { streams: streams@, owner, sink }),
        decreases ls.len() - i,
    {
        proof {
            assert(lv.take(i + 1).drop_last() =~= lv.take(i as int));
            assert(lv.take(i + 1).last() == ls@[i as int]@);
        }
        let line = &ls[i];
        let start = skip_spaces(line, 0);
        let end = trim_end_index(line, start, line.len());
        let field = slice_chars(line, start, end);
        proof {
            assert(line@.skip(0) =~= line@);
            assert(line@.skip(start as int) =~= line@.subrange(start as int, line@.len() as int));
            assert(field@ == trim(line@));
        }
        if starts_with_exec(&field, &header) {
            match (owner, sink) {
                (Some(o), Some(s)) => streams.push(SinkInputStream { owner_module: o, sink: s }),
                _ => {},
            }
            owner = None;
            sink = None;
        } else if starts_with_exec(&field, &owner_label) {
            owner = read_field(&field, owner_label.len());
        } else if starts_with_exec(&field, &sink_label) {
            sink = read_field(&field, sink_label.len());
        }
        i = i + 1;
    }
    assert(lv.take(lv.len() as int) =~= lv);
    match (owner, sink) {
        (Some(o), Some(s)) => streams.push(SinkInputStream { owner_module: o, sink: s }),
        _ => {},
    }
    streams
}

/// What a sink-input listing lets us conclude about liveness: the streams when
/// it could be read, `None` when it yields none, which is a failed `pactl`
/// rather than a graph where every branch is dead.
pub fn sink_input_liveness(listing: &str) -> (live: Option<Vec<SinkInputStream>>)
    ensures
        match live {
            Some(streams) => streams@ == spec_parse_sink_inputs(listing@) && streams@.len() > 0,
            None => spec_parse_sink_inputs(listing@).len() == 0,
        },
{
    let streams = parse_sink_inputs(listing);
    if streams.len() == 0 {
        return None;
    }
    Some(streams)
}

/// A `pactl` invocation described as data.
#[derive(Debug, Clone, PartialEq, Eq)]
pub struct PactlCommand {
    /// The program to run.
    pub program: String,
    /// The arguments, in order.
    pub args: Vec<String>,
    /// Environment variables set on top of the inherited environment.
    pub env: Vec<(String, String)>,
}

/// The views of borrowed strings.
pub open spec fn str_views(list: Seq<&str>) -> Seq<Seq<char>> {
    list.map_values(|s: &str| s@)
}

/// Describe a `pactl` invocation carrying `args`, forcing `LC_ALL=C` so that
/// the listings the parsers read are never translated. The program and the
/// arguments travel untouched.
pub fn build_pactl_command(args: &[&str]) -> (cmd: PactlCommand)
    ensures
        cmd.program@ == "pactl"@,
        cmd.args@.len() == args@.len(),
        forall|j: int| 0 <= j < args@.len() ==> (#[trigger] cmd.args@[j])@ == args@[j]@,
        cmd.env@.len() == 1,
        cmd.env@[0].0@ == "LC_ALL"@,
        cmd.env@[0].1@ == "C"@,
{
    let mut owned: Vec<String> = Vec::new();
    let mut i: usize = 0;
    while i < args.len()
        invariant
            0 <= i <= args@.len(),
            owned@.len() == i,
            forall|j: int| 0 <= j < i ==> (#[trigger] owned@[j])@ == args@[j]@,
        decreases args.len() - i,
    {
        let a = args[i].to_owned();
        owned.push(a);
        i = i + 1;
    }
    let mut env: Vec<(String, String)> = Vec::new();
    env.push((String::from_str("LC_ALL"), String::from_str("C")));
    PactlCommand { program: String::from_str("pactl"), args: owned, env }
}

/// No line matches an empty list of patterns, nor a list holding an empty
/// pattern anywhere in it.
pub proof fn law_an_empty_pattern_matches_no_line(line: Seq<char>, patterns: Seq<Seq<char>>)
    ensures
        !spec_module_line_matches(line, Seq::empty()),
        (exists|i: int| 0 <= i < patterns.len() && (#[trigger] patterns[i]).len() == 0) ==> !spec_module_line_matches(
            line,
            patterns,
        ),
{
}

/// Whether a module line carries every one of `patterns`, and there is at
/// least one. An empty pattern matches no line.
pub open spec fn spec_module_line_matches(line: Seq<char>, patterns: Seq<Seq<char>>) -> bool {
    patterns.len() > 0 && forall|i: int|
        0 <= i < patterns.len() ==> (#[trigger] patterns[i]).len() > 0 && contains_seq(line, patterns[i])
}

/// Whether a module line carries every one of `patterns`, and there is at
/// least one. An empty pattern is a substring of every line, so it matches none.
pub fn module_line_matches(line: &str, patterns: &[&str]) -> (m: bool)
    ensures
        m == spec_module_line_matches(line@, str_views(patterns@)),
{
    let ghost pv = str_views(patterns@);
    if patterns.len() == 0 {
        return false;
    }
    let lv = chars_of(line);
    let mut i: usize = 0;
    while i < patterns.len()
        invariant
            pv == str_views(patterns@),
            0 <= i <= patterns@.len(),
            lv@ == line@,
            forall|k: int| 0 <= k < i ==> (#[trigger] pv[k]).len() > 0 && contains_seq(line@, pv[k]),
        decreases patterns.len() - i,
    {
        let p = chars_of(patterns[i]);
        assert(pv[i as int] == p@);
        if p.len() == 0 || !contains_chars(&lv, &p) {
            return false;
        }
        i = i + 1;
    }
    true
}

/// The ids, as `pactl` printed them, of the modules whose line of a
/// `pactl list short modules` table matches `patterns`: the first
/// tab-separated column of each such line, in order.
pub open spec fn spec_modules_to_unload(ls: Seq<Seq<char>>, patterns: Seq<Seq<char>>) -> Seq<Seq<char>>
    decreases ls.len(),
{
    if ls.len() == 0 {
        seq![]
    } else {
        let rest = spec_modules_to_unload(ls.drop_last(), patterns);
        if spec_module_line_matches(ls.last(), patterns) {
            rest.push(split_on(ls.last(), Sep::Char('\t'))[0])
        } else {
            rest
        }
    }
}

/// The ids of the modules a listing's lines matching `patterns` name, which
/// an unload by pattern removes. An empty pattern, or none at all, matches no
/// line, so nothing is unloaded for it.
pub fn modules_to_unload(listing: &str, patterns: &[&str]) -> (ids: Vec<String>)
    ensures
        ids@.map_values(|s: String| s@) == spec_modules_to_unload(lines(listing@), str_views(patterns@)),
{
    let ls = lines_exec(&chars_of(listing));
    let ghost lv = ls@.map_values(|l: Vec<char>| l@);
    let ghost pv = str_views(patterns@);
    let mut ids: Vec<String> = Vec::new();
    let mut i: usize = 0;
    while i < ls.len()
        invariant
            lv == ls@.map_values(|l: Vec<char>| l@),
            pv == str_views(patterns@),
            0 <= i <= ls@.len(),
            ids@.map_values(|s: String| s@) == spec_modules_to_unload(lv.take(i as int), pv),
        decreases ls.len() - i,
    {
        proof {
            assert(lv.take(i + 1).drop_last() =~= lv.take(i as int));
            assert(lv.take(i + 1).last() == ls@[i as int]@);
        }
        let line = string_of(&ls[i]);
        if module_line_matches(line.as_str(), patterns) {
            let cols = split_pieces(&ls[i], Sep::Char('\t'), 0, ls[i].len());
            proof {
                assert(ls@[i as int]@.subrange(0, ls@[i as int]@.len() as int) =~= ls@[i as int]@);
                crate::split::lemma_split_nonempty(ls@[i as int]@, Sep::Char('\t'));
            }
            let id = string_of(&cols[0]);
            let ghost prev = ids@;
            ids.push(id);
            assert(ids@ == prev.push(id));
            assert(ids@.map_values(|s: String| s@) =~= spec_modules_to_unload(lv.take(i + 1), pv));
        }
        i = i + 1;
    }
    assert(lv.take(lv.len() as int) =~= lv);
    ids
}

/// The arguments of the `module-null-sink` load creating the combined sink
/// `sink_name`.
pub open spec fn spec_null_sink_module_args(sink_name: Seq<char>) -> Seq<Seq<char>> {
    seq!["module-null-sink"@, "sink_name="@ + sink_name, "sink_properties=node.description="@ + sink_name]
}

/// The arguments of the `module-null-sink` load creating the combined sink
/// `sink_name`, described by its own name.
pub fn null_sink_module_args(sink_name: &str) -> (args: Vec<String>)
    ensures
        args@.map_values(|s: String| s@) == spec_null_sink_module_args(sink_name@),
{
    let mut name_arg = String::from_str("sink_name=");
    name_arg.append(sink_name);
    let mut props_arg = String::from_str("sink_properties=node.description=");
    props_arg.append(sink_name);
    let args = vec![String::from_str("module-null-sink"), name_arg, props_arg];
    assert(args@.map_values(|s: String| s@) =~= spec_null_sink_module_args(sink_name@));
    args
}

/// The arguments of the `module-loopback` load of one branch: from the
/// combined sink's monitor into `real_sink`, at `latency_ms`, both ends pinned
/// so that a default-sink change cannot drag the branch off its speaker.
pub open spec fn spec_loopback_module_args(sink_name: Seq<char>, real_sink: Seq<char>, latency_ms: u32) -> Seq<Seq<char>> {
    seq![
        "module-loopback"@,
        source_token(sink_name),
        "sink="@ + real_sink,
        "latency_msec="@ + decimal_digits(latency_ms as nat),
        "source_dont_move=true"@,
        "sink_dont_move=true"@,
    ]
}

/// The arguments of the `module-loopback` load of one branch.
pub fn loopback_module_args(sink_name: &str, real_sink: &str, latency_ms: u32) -> (args: Vec<String>)
    ensures
        args@.map_values(|s: String| s@) == spec_loopback_module_args(sink_name@, real_sink@, latency_ms),
{
    let mut source = String::from_str("source=");
    source.append(sink_name);
    source.append(".monitor");
    let mut sink = String::from_str("sink=");
    sink.append(real_sink);
    let mut latency = String::from_str("latency_msec=");
    push_decimal(&mut latency, latency_ms);
    let args = vec![
        String::from_str("module-loopback"),
        source,
        sink,
        latency,
        String::from_str("source_dont_move=true"),
        String::from_str("sink_dont_move=true"),
    ];
    assert(args@.map_values(|s: String| s@) =~= spec_loopback_module_args(sink_name@, real_sink@, latency_ms));
    args
}

/// The start of the run of decimal digits ending just before `k` in `s`.
pub open spec fn digit_run_start(s: Seq<char>, k: int) -> int
    decreases k,
{
    if k > 0 && is_digit(s[k - 1]) {
        digit_run_start(s, k - 1)
    } else {
        k
    }
}

/// The percentage `pactl get-sink-volume` prints first: the run of digits
/// just before the first `%`, read as a `u32`. `None` when there is no `%`,
/// no digit before it, or a number too large.
pub open spec fn spec_first_percent(text: Seq<char>) -> Option<u32> {
    let k = find_from(text, '%', 0);
    if k >= text.len() {
        None
    } else {
        parse_digits(text.subrange(digit_run_start(text, k), k))
    }
}

/// The first percentage `pactl get-sink-volume` prints (`59%` reads 59; an
/// over-amplified sink prints more than 100).
pub fn first_percent(text: &str) -> (pct: Option<u32>)
    ensures
        pct == spec_first_percent(text@),
{
    let v = chars_of(text);
    let k = find_char(&v, '%', 0);
    proof {
        crate::text::lemma_find_from(v@, '%', 0);
    }
    if k >= v.len() {
        return None;
    }
    let mut j = k;
    while j > 0 && v[j - 1] >= '0' && v[j - 1] <= '9'
        invariant
            j <= k < v@.len(),
            digit_run_start(v@, j as int) == digit_run_start(v@, k as int),
            forall|m: int| j <= m < k ==> is_digit(#[trigger] v@[m]),
        decreases j,
    {
        j = j - 1;
    }
    let ghost d = v@.subrange(j as int, k as int);
    assert(all_digits(d));
    assert(d == strip_plus(d)) by {
        if d.len() > 0 {
            assert(is_digit(d[0]));
        }
    }
    assert(v@.subrange(j as int, k as int) =~= d);
    parse_u32(&v, j, k)
}

/// A teardown by pattern refuses an empty name: an empty pattern would match
/// nothing, and a teardown that silently removes nothing is no teardown.
pub fn check_teardown_name(sink_name: &str) -> (r: Result<(), AudioError>)
    ensures
        sink_name@.len() == 0 <==> r is Err,
        r matches Err(AudioError::PipeWire(m)) ==> m@ == "cannot tear down a combined sink with no name"@,
{
    if sink_name.unicode_len() == 0 {
        Err(AudioError::PipeWire(String::from_str("cannot tear down a combined sink with no name")))
    } else {
        Ok(())
    }
}

/// The node name each line of a `pactl list short sinks` table carries in its
/// second column, for the lines that have one.
pub open spec fn sink_column(ls: Seq<Seq<char>>) -> Seq<Seq<char>>
    decreases ls.len(),
{
    if ls.len() == 0 {
        seq![]
    } else {
        let rest = sink_column(ls.drop_last());
        let cols = split_on(ls.last(), Sep::Char('\t'));
        if cols.len() >= 2 {
            rest.push(cols[1])
        } else {
            rest
        }
    }
}

/// The second-column names of a tab-separated table.
fn second_column(listing: &str) -> (names: Vec<Vec<char>>)
    ensures
        names@.map_values(|n: Vec<char>| n@) == sink_column(lines(listing@)),
{
    let ls = lines_exec(&chars_of(listing));
    let ghost lv = ls@.map_values(|l: Vec<char>| l@);
    let mut names: Vec<Vec<char>> = Vec::new();
    let mut i: usize = 0;
    while i < ls.len()
        invariant
            lv == ls@.map_values(|l: Vec<char>| l@),
            0 <= i <= ls@.len(),
            names@.map_values(|n: Vec<char>| n@) == sink_column(lv.take(i as int)),
        decreases ls.len() - i,
    {
        proof {
            assert(lv.take(i + 1).drop_last() =~= lv.take(i as int));
            assert(lv.take(i + 1).last() == ls@[i as int]@);
            assert(ls@[i as int]@.subrange(0, ls@[i as int]@.len() as int) =~= ls@[i as int]@);
        }
        let cols = split_pieces(&ls[i], Sep::Char('\t'), 0, ls[i].len());
        if cols.len() >= 2 {
            let ghost prev = names@;
            let n = slice_chars(&cols[1], 0, cols[1].len());
            assert(n@ =~= cols@[1]@);
            names.push(n);
            assert(names@ == prev.push(n));
            assert(names@.map_values(|n: Vec<char>| n@) =~= sink_column(lv.take(i + 1)));
        }
        i = i + 1;
    }
    assert(lv.take(lv.len() as int) =~= lv);
    names
}

/// The sink names a `pactl list short sinks` table lists: the second column
/// of each line that has one, empty names left out.
pub fn sink_listing_names(listing: &str) -> (names: Vec<String>)
    ensures
        names@.map_values(|n: String| n@) == sink_column(lines(listing@)).filter(|n: Seq<char>| n.len() > 0),
{
    let col = second_column(listing);
    let ghost cv = col@.map_values(|n: Vec<char>| n@);
    let ghost nonempty = |n: Seq<char>| n.len() > 0;
    let mut out: Vec<String> = Vec::new();
    let mut i: usize = 0;
    while i < col.len()
        invariant
            cv == col@.map_values(|n: Vec<char>| n@),
            nonempty == (|n: Seq<char>| n.len() > 0),
            0 <= i <= col@.len(),
            out@.map_values(|n: String| n@) == cv.take(i as int).filter(nonempty),
        decreases col.len() - i,
    {
        proof {
            reveal_with_fuel(Seq::<_>::filter, 1);
            assert(cv.take(i + 1).drop_last() =~= cv.take(i as int));
            assert(cv[i as int] == col@[i as int]@);
        }
        if col[i].len() > 0 {
            let ghost prev = out@;
            let s = string_of(&col[i]);
            out.push(s);
            assert(out@ == prev.push(s));
            assert(out@.map_values(|n: String| n@) =~= cv.take(i as int).filter(nonempty).push(cv[i as int]));
        }
        i = i + 1;
    }
    assert(cv.take(cv.len() as int) =~= cv);
    out
}

/// Resolve `prefix` against the node names a tab-separated sink table carries
/// in its second column, by the same rule as
/// [`crate::audio::sink_named_by_prefix`].
pub fn sink_matching_prefix(listing: &str, prefix: &str) -> (found: Option<String>)
    ensures
        crate::audio::opt_string_view(found) == crate::audio::spec_first_named(sink_column(lines(listing@)), prefix@),
{
    crate::audio::first_sink_named_by(&second_column(listing), &chars_of(prefix))
}

/// A loaded branch is ruled dead exactly when liveness was read and its module
/// feeds nothing; with liveness unknown no branch is ruled dead, and the dead
/// ids are exactly the modules the liveness filter drops.
pub proof fn law_liveness_partitions_the_loaded_branches(
    mods: Seq<(u32, (Seq<char>, u32))>,
    streams: Seq<SinkInputStream>,
    m: (u32, (Seq<char>, u32)),
)
    requires
        mods.contains(m),
    ensures
        liveness_of(None, m.0) is None,
        liveness_of(Some(streams), m.0) == Some(false) <==> dead_ids(mods, streams).contains(m.0),
        keeps(None, m),
        keeps(Some(streams), m) <==> !dead_ids(mods, streams).contains(m.0),
    decreases mods.len(),
{
    lemma_dead_ids_member(mods, streams, m.0);
}

/// An id is among the dead ids of `mods` exactly when some module of `mods`
/// carries it and that module is not live.
proof fn lemma_dead_ids_member(mods: Seq<(u32, (Seq<char>, u32))>, streams: Seq<SinkInputStream>, id: u32)
    ensures
        dead_ids(mods, streams).contains(id) <==> (!spec_module_is_live(streams, id) && exists|i: int|
            0 <= i < mods.len() && (#[trigger] mods[i]).0 == id),
    decreases mods.len(),
{
    if mods.len() > 0 {
        lemma_dead_ids_member(mods.drop_last(), streams, id);
        let rest = dead_ids(mods.drop_last(), streams);
        if exists|i: int| 0 <= i < mods.len() && (#[trigger] mods[i]).0 == id {
            let i = choose|i: int| 0 <= i < mods.len() && (#[trigger] mods[i]).0 == id;
            if i < mods.len() - 1 {
                assert(mods.drop_last()[i].0 == id);
            }
        }
        if exists|i: int| 0 <= i < mods.len() - 1 && (#[trigger] mods.drop_last()[i]).0 == id {
            let i = choose|i: int| 0 <= i < mods.len() - 1 && (#[trigger] mods.drop_last()[i]).0 == id;
            assert(mods[i].0 == id);
        }
        if !spec_module_is_live(streams, mods.last().0) {
            assert(rest.push(mods.last().0).last() == mods.last().0);
            assert forall|x: u32| rest.contains(x) implies rest.push(mods.last().0).contains(x) by {
                let k = choose|k: int| 0 <= k < rest.len() && rest[k] == x;
                assert(rest.push(mods.last().0)[k] == x);
            }
            if rest.push(mods.last().0).contains(id) && id != mods.last().0 {
                let k = choose|k: int| 0 <= k < rest.len() + 1 && rest.push(mods.last().0)[k] == id;
                assert(k < rest.len());
                assert(rest[k] == id);
            }
        }
    }
}

} // verus!
