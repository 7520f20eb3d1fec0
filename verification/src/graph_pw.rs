//! The decisions of the native PipeWire graph. They are taken over a
//! [`Mirror`] of the daemon's registry — its nodes, links, ports and devices,
//! each keyed by global id — so nothing here needs a daemon: the loop that
//! talks to PipeWire refreshes the mirror and applies what these functions say.

use crate::audio::{bview, AudioError, CombineBranch, MAX_OFFSET_MS};
use crate::graph::{loaded_view, LoadedBranch};
use crate::text::{
    chars_of, contains_str, decimal_digits, digit_char, is_digit, lemma_decimal_digits_injective,
    lemma_decimal_digits_value, parse_i32, parse_u32, push_char, push_decimal, spec_digit_char, spec_parse_i32, spec_parse_u32, str_eq, u32_to_decimal,
};
use vstd::string::StrSliceExecFns;
use vstd::prelude::*;

verus! {

/// How long the graph handle waits for the loop to answer one command, in
/// milliseconds.
pub const GRAPH_REPLY_TIMEOUT: u64 = 2_000;

/// How long the loop gives the round trips of one command, all of them
/// together, in milliseconds. Shorter than [`GRAPH_REPLY_TIMEOUT`], so a slow
/// daemon is reported with its own error rather than the handle's timeout.
pub const COMMAND_TIMEOUT: u64 = 1_600;

/// The factory the combined sink's node is created from.
pub const NULL_SINK_FACTORY: &'static str = "support.null-audio-sink";

/// The largest delay a branch's `delay` node can be tuned to, in milliseconds:
/// its `max-delay`, fixed when the branch is loaded.
pub const MAX_DELAY_MS: u32 = 1_000;

/// Every offset a speaker accepts is a delay a branch can apply: no accepted
/// offset lies beyond the `max-delay` its `delay` node is loaded with.
pub proof fn law_max_delay_covers_every_offset(offset_ms: u32)
    requires
        offset_ms <= MAX_OFFSET_MS,
    ensures
        offset_ms <= MAX_DELAY_MS,
{
}

/// How long a branch may wait for the ports its monitor links need before it
/// counts as dead, in milliseconds.
pub const PENDING_LINKS_GRACE: u64 = 10_000;

// ─── Properties ────────────────────────────────────────────────────────────

/// The properties of one global, as `(key, value)` pairs. A key given twice
/// reads as its last value, as when they are collected into a map.
#[derive(Debug, Clone, Default, PartialEq, Eq)]
pub struct GlobalProps {
    pairs: Vec<(String, String)>,
}

/// One node of the registry mirror: the properties of its global.
pub type NodeEntry = GlobalProps;

/// One port of the registry mirror: the properties of its global, among them
/// `node.id`, `port.direction` and `audio.channel`.
pub type PortEntry = GlobalProps;

/// One device of the registry mirror: the properties of its global.
pub type DeviceEntry = GlobalProps;

/// Property pairs as characters.
pub type PropsView = Seq<(Seq<char>, Seq<char>)>;

/// The value `props` gives `key`: that of its last pair with that key.
pub open spec fn lookup(props: PropsView, key: Seq<char>) -> Option<Seq<char>>
    decreases props.len(),
{
    if props.len() == 0 {
        None
    } else if props.last().0 == key {
        Some(props.last().1)
    } else {
        lookup(props.drop_last(), key)
    }
}

/// Whether `props` gives `key` exactly the value `value`.
pub open spec fn has_prop(props: PropsView, key: Seq<char>, value: Seq<char>) -> bool {
    lookup(props, key) == Some(value)
}

/// The view of an optional borrowed string.
pub open spec fn opt_str_view(s: Option<&str>) -> Option<Seq<char>> {
    match s {
        Some(s) => Some(s@),
        None => None,
    }
}

/// The pairs of a property list, as characters.
pub open spec fn pair_views(p: Seq<(String, String)>) -> PropsView {
    p.map_values(|e: (String, String)| (e.0@, e.1@))
}

/// The pairs of a borrowed property list, as characters.
pub open spec fn str_pair_views(p: Seq<(&str, &str)>) -> PropsView {
    p.map_values(|e: (&str, &str)| (e.0@, e.1@))
}

impl View for GlobalProps {
    type V = PropsView;

    closed spec fn view(&self) -> PropsView {
        pair_views(self.pairs@)
    }
}

impl GlobalProps {
    /// No property at all.
    pub fn new() -> (props: Self)
        ensures
            props@ == Seq::<(Seq<char>, Seq<char>)>::empty(),
    {
        let p = GlobalProps { pairs: Vec::new() };
        assert(p@ =~= Seq::<(Seq<char>, Seq<char>)>::empty());
        p
    }

    /// The properties `pairs`, in order.
    pub fn from_pairs(pairs: &[(&str, &str)]) -> (props: Self)
        ensures
            props@ == str_pair_views(pairs@),
    {
        let mut p = GlobalProps::new();
        let mut i: usize = 0;
        while i < pairs.len()
            invariant
                0 <= i <= pairs@.len(),
                p@ == str_pair_views(pairs@.take(i as int)),
            decreases pairs.len() - i,
        {
            let (k, v) = pairs[i];
            p.set(k, v);
            assert(p@ =~= str_pair_views(pairs@.take(i + 1)));
            i = i + 1;
        }
        assert(pairs@.take(pairs@.len() as int) =~= pairs@);
        p
    }

    /// Give `key` the value `value`, over any value it had.
    pub fn set(&mut self, key: &str, value: &str)
        ensures
            final(self)@ == old(self)@.push((key@, value@)),
    {
        let k = key.to_owned();
        let v = value.to_owned();
        self.pairs.push((k, v));
        assert(final(self)@ =~= old(self)@.push((key@, value@)));
    }

    /// The value of `key`, if the global carries it.
    pub fn prop(&self, key: &str) -> (value: Option<&str>)
        ensures
            opt_str_view(value) == lookup(self@, key@),
    {
        let ghost pv = self@;
        let mut i = self.pairs.len();
        assert(pv.take(i as int) =~= pv);
        while i > 0
            invariant
                pv == pair_views(self.pairs@),
                0 <= i <= self.pairs@.len(),
                lookup(pv, key@) == lookup(pv.take(i as int), key@),
            decreases i,
        {
            i = i - 1;
            assert(pv.take(i + 1).drop_last() =~= pv.take(i as int));
            if str_eq(self.pairs[i].0.as_str(), key) {
                return Some(self.pairs[i].1.as_str());
            }
        }
        None
    }

    /// Whether `key` is given exactly `value`.
    pub fn prop_is(&self, key: &str, value: &str) -> (is: bool)
        ensures
            is == has_prop(self@, key@, value@),
    {
        match self.prop(key) {
            Some(v) => str_eq(v, value),
            None => false,
        }
    }
}

// ─── Maps keyed by global id ───────────────────────────────────────────────

/// Whether the ids of `s` increase strictly: each id appears once, in order.
pub open spec fn increasing<T>(s: Seq<(u32, T)>) -> bool {
    forall|i: int, j: int| 0 <= i < j < s.len() ==> s[i].0 < s[j].0
}

/// `s` with the entry of `id` set to `x`: replaced where `id` is present,
/// else inserted where the ids keep increasing.
pub open spec fn put<T>(s: Seq<(u32, T)>, id: u32, x: T) -> Seq<(u32, T)>
    decreases s.len(),
{
    if s.len() == 0 {
        seq![(id, x)]
    } else if s[0].0 == id {
        seq![(id, x)] + s.drop_first()
    } else if s[0].0 > id {
        seq![(id, x)] + s
    } else {
        seq![s[0]] + put(s.drop_first(), id, x)
    }
}

/// `s` without the entries of `id`.
pub open spec fn without<T>(s: Seq<(u32, T)>, id: u32) -> Seq<(u32, T)>
    decreases s.len(),
{
    if s.len() == 0 {
        s
    } else if s[0].0 == id {
        without(s.drop_first(), id)
    } else {
        seq![s[0]] + without(s.drop_first(), id)
    }
}

/// The entry of `id` in `s`, if any: that of its first entry with that id.
pub open spec fn entry_of<T>(s: Seq<(u32, T)>, id: u32) -> Option<T>
    decreases s.len(),
{
    if s.len() == 0 {
        None
    } else if s[0].0 == id {
        Some(s[0].1)
    } else {
        entry_of(s.drop_first(), id)
    }
}

/// The ids below `id` come first in an increasing sequence: [`put`] splices
/// the new entry in at the first position whose id is not below it.
pub proof fn lemma_put_at<T>(s: Seq<(u32, T)>, id: u32, x: T, j: int)
    requires
        increasing(s),
        0 <= j <= s.len(),
        forall|k: int| 0 <= k < j ==> s[k].0 < id,
        j < s.len() ==> s[j].0 >= id,
    ensures
        j < s.len() && s[j].0 == id ==> put(s, id, x) == s.update(j, (id, x)),
        !(j < s.len() && s[j].0 == id) ==> put(s, id, x) == s.insert(j, (id, x)),
        increasing(put(s, id, x)),
    decreases j,
{
    if j == 0 {
        if s.len() > 0 && s[0].0 == id {
            assert(put(s, id, x) =~= s.update(0, (id, x)));
        } else {
            assert(put(s, id, x) =~= s.insert(0, (id, x)));
        }
    } else {
        let t = s.drop_first();
        lemma_put_at(t, id, x, j - 1);
        if j < s.len() && s[j].0 == id {
            assert(put(s, id, x) =~= s.update(j, (id, x)));
        } else {
            assert(put(s, id, x) =~= s.insert(j, (id, x)));
        }
    }
    let r = put(s, id, x);
    assert forall|a: int, b: int| 0 <= a < b < r.len() implies r[a].0 < r[b].0 by {
        if j < s.len() && s[j].0 == id {
            assert(r == s.update(j, (id, x)));
        } else {
            assert(r == s.insert(j, (id, x)));
            if a == j {
                assert(r[b] == s[b - 1]);
            } else if b == j {
                assert(r[a] == s[a]);
            }
        }
    }
}

/// In an increasing sequence, the one entry of `id` sits at `j`: [`without`]
/// removes exactly it, and [`entry_of`] finds it.
pub proof fn lemma_without_at<T>(s: Seq<(u32, T)>, id: u32, j: int)
    requires
        increasing(s),
        0 <= j < s.len(),
        s[j].0 == id,
    ensures
        without(s, id) == s.remove(j),
        entry_of(s, id) == Some(s[j].1),
        increasing(s.remove(j)),
    decreases j,
{
    if j == 0 {
        lemma_without_absent(s.drop_first(), id);
        assert(without(s, id) =~= s.remove(0));
    } else {
        lemma_without_at(s.drop_first(), id, j - 1);
        assert(without(s, id) =~= s.remove(j));
    }
}

/// An id absent from `s` leaves it unchanged and finds nothing.
pub proof fn lemma_without_absent<T>(s: Seq<(u32, T)>, id: u32)
    requires
        forall|k: int| 0 <= k < s.len() ==> s[k].0 != id,
    ensures
        without(s, id) == s,
        entry_of(s, id) is None,
    decreases s.len(),
{
    if s.len() > 0 {
        lemma_without_absent(s.drop_first(), id);
        assert(without(s, id) =~= s);
    }
}

/// Where `id` goes in the increasing `v`: the first position whose id is not
/// below it.
fn position_of<T>(v: &Vec<(u32, T)>, id: u32) -> (j: usize)
    requires
        increasing(v@),
    ensures
        j <= v@.len(),
        forall|k: int| 0 <= k < j ==> v@[k].0 < id,
        j < v@.len() ==> v@[j as int].0 >= id,
{
    let mut j: usize = 0;
    while j < v.len()
        invariant
            j <= v@.len(),
            forall|k: int| 0 <= k < j ==> v@[k].0 < id,
        decreases v.len() - j,
    {
        if v[j].0 >= id {
            return j;
        }
        j = j + 1;
    }
    j
}

/// Set the entry of `id` in the increasing `v` to `x`.
fn put_entry<T>(v: &mut Vec<(u32, T)>, id: u32, x: T)
    requires
        increasing(old(v)@),
    ensures
        final(v)@ == put(old(v)@, id, x),
        increasing(final(v)@),
{
    let j = position_of(v, id);
    proof {
        lemma_put_at(v@, id, x, j as int);
    }
    if j < v.len() && v[j].0 == id {
        v.set(j, (id, x));
    } else {
        v.insert(j, (id, x));
    }
}

/// Take the entry of `id` out of the increasing `v`.
fn take_entry<T>(v: &mut Vec<(u32, T)>, id: u32) -> (taken: Option<T>)
    requires
        increasing(old(v)@),
    ensures
        final(v)@ == without(old(v)@, id),
        taken == entry_of(old(v)@, id),
        increasing(final(v)@),
{
    let j = position_of(v, id);
    if j < v.len() && v[j].0 == id {
        proof {
            lemma_without_at(v@, id, j as int);
        }
        let (_, x) = v.remove(j);
        Some(x)
    } else {
        proof {
            assert forall|k: int| 0 <= k < v@.len() implies v@[k].0 != id by {
                if k > j {
                    assert(v@[j as int].0 < v@[k].0);
                }
            }
            lemma_without_absent(v@, id);
        }
        None
    }
}

/// `s` with each entry's value seen through `f`.
pub open spec fn map_entries<T, U>(s: Seq<(u32, T)>, f: spec_fn(T) -> U) -> Seq<(u32, U)> {
    s.map_values(|e: (u32, T)| (e.0, f(e.1)))
}

/// Seeing the values through `f` commutes with [`put`].
pub proof fn lemma_put_map<T, U>(s: Seq<(u32, T)>, id: u32, x: T, f: spec_fn(T) -> U)
    ensures
        map_entries(put(s, id, x), f) == put(map_entries(s, f), id, f(x)),
    decreases s.len(),
{
    if s.len() > 0 {
        lemma_put_map(s.drop_first(), id, x, f);
        assert(map_entries(s, f).drop_first() =~= map_entries(s.drop_first(), f));
    }
    assert(map_entries(put(s, id, x), f) =~= put(map_entries(s, f), id, f(x)));
}

/// Seeing the values through `f` commutes with [`without`].
pub proof fn lemma_without_map<T, U>(s: Seq<(u32, T)>, id: u32, f: spec_fn(T) -> U)
    ensures
        map_entries(without(s, id), f) == without(map_entries(s, f), id),
    decreases s.len(),
{
    if s.len() > 0 {
        lemma_without_map(s.drop_first(), id, f);
        assert(map_entries(s, f).drop_first() =~= map_entries(s.drop_first(), f));
    }
    assert(map_entries(without(s, id), f) =~= without(map_entries(s, f), id));
}

/// What [`put`] sets is what [`entry_of`] finds.
pub proof fn lemma_entry_put<T>(s: Seq<(u32, T)>, id: u32, x: T)
    ensures
        entry_of(put(s, id, x), id) == Some(x),
    decreases s.len(),
{
    if s.len() > 0 && s[0].0 < id {
        lemma_entry_put(s.drop_first(), id, x);
        assert((seq![s[0]] + put(s.drop_first(), id, x)).drop_first() =~= put(s.drop_first(), id, x));
    }
}

/// Once [`without`] has taken `id` out, [`entry_of`] finds nothing there.
pub proof fn lemma_entry_without<T>(s: Seq<(u32, T)>, id: u32)
    ensures
        entry_of(without(s, id), id) is None,
    decreases s.len(),
{
    if s.len() > 0 {
        lemma_entry_without(s.drop_first(), id);
        if s[0].0 != id {
            assert((seq![s[0]] + without(s.drop_first(), id)).drop_first() =~= without(s.drop_first(), id));
        }
    }
}

/// Seeing the values through `f` commutes with [`entry_of`].
pub proof fn lemma_entry_map<T, U>(s: Seq<(u32, T)>, id: u32, f: spec_fn(T) -> U)
    ensures
        entry_of(map_entries(s, f), id) == match entry_of(s, id) {
            Some(x) => Some(f(x)),
            None => None,
        },
    decreases s.len(),
{
    if s.len() > 0 {
        lemma_entry_map(s.drop_first(), id, f);
        assert(map_entries(s, f).drop_first() =~= map_entries(s.drop_first(), f));
    }
}

/// The view of an optional set of properties.
pub open spec fn opt_props_view(p: Option<GlobalProps>) -> Option<PropsView> {
    match p {
        Some(p) => Some(p@),
        None => None,
    }
}

// ─── The registry mirror ───────────────────────────────────────────────────

/// One link of the registry mirror: the node it leaves and the node it enters.
#[derive(Debug, Clone, Copy, PartialEq, Eq)]
pub struct LinkEntry {
    /// The node whose output port the link leaves.
    pub output_node: u32,
    /// The node whose input port the link enters.
    pub input_node: u32,
}

/// The registry as the listener callbacks last reported it, keyed by global
/// id: each list holds one entry per id, in increasing id order.
///
/// Each table is an id-sorted `Vec` rather than a `BTreeMap`: the contracts
/// below speak of the tables in id order (sink names, teardown order, the
/// ids handed back), and a sorted sequence states that order directly,
/// where a map's view carries no order and its walk is only described
/// through its iterator. `wf` keeps the ids strictly increasing, so each id
/// has at most one entry, as in a map.
#[derive(Debug, Clone, Default, PartialEq, Eq)]
pub struct Mirror {
    nodes: Vec<(u32, NodeEntry)>,
    links: Vec<(u32, LinkEntry)>,
    ports: Vec<(u32, PortEntry)>,
    devices: Vec<(u32, DeviceEntry)>,
}

/// The view of one global's properties.
pub open spec fn props_view() -> spec_fn(GlobalProps) -> PropsView {
    |p: GlobalProps| p@
}

impl Mirror {
    /// Each list holds one entry per id, in increasing id order.
    pub closed spec fn wf(&self) -> bool {
        &&& increasing(self.nodes@)
        &&& increasing(self.links@)
        &&& increasing(self.ports@)
        &&& increasing(self.devices@)
    }

    /// The nodes, by increasing id, with their properties.
    pub closed spec fn node_list(&self) -> Seq<(u32, PropsView)> {
        map_entries(self.nodes@, props_view())
    }

    /// A well-formed mirror lists its nodes by strictly increasing id.
    pub proof fn lemma_node_list_increasing(&self)
        requires
            self.wf(),
        ensures
            increasing(self.node_list()),
    {
        assert forall|i: int, j: int| 0 <= i < j < self.node_list().len() implies self.node_list()[i].0
            < self.node_list()[j].0 by {
            assert(self.node_list()[i].0 == self.nodes@[i].0);
            assert(self.node_list()[j].0 == self.nodes@[j].0);
        }
    }

    /// The links, by increasing id.
    pub closed spec fn link_list(&self) -> Seq<(u32, LinkEntry)> {
        self.links@
    }

    /// The ports, by increasing id, with their properties.
    pub closed spec fn port_list(&self) -> Seq<(u32, PropsView)> {
        map_entries(self.ports@, props_view())
    }

    /// The devices, by increasing id, with their properties.
    pub closed spec fn device_list(&self) -> Seq<(u32, PropsView)> {
        map_entries(self.devices@, props_view())
    }

    /// A mirror that knows no global.
    pub fn new() -> (mirror: Self)
        ensures
            mirror.wf(),
            mirror.node_list().len() == 0,
            mirror.link_list().len() == 0,
            mirror.port_list().len() == 0,
            mirror.device_list().len() == 0,
    {
        Mirror { nodes: Vec::new(), links: Vec::new(), ports: Vec::new(), devices: Vec::new() }
    }

    /// Whether the mirror knows no node, link or device.
    pub fn is_empty(&self) -> (empty: bool)
        ensures
            empty == (self.node_list().len() == 0 && self.link_list().len() == 0
                && self.device_list().len() == 0),
    {
        self.nodes.len() == 0 && self.links.len() == 0 && self.devices.len() == 0
    }

    /// Record node `id` with `node`'s properties, over any node of that id.
    pub fn insert_node(&mut self, id: u32, node: NodeEntry)
        requires
            old(self).wf(),
        ensures
            final(self).wf(),
            final(self).node_list() == put(old(self).node_list(), id, node@),
            final(self).link_list() == old(self).link_list(),
            final(self).port_list() == old(self).port_list(),
            final(self).device_list() == old(self).device_list(),
    {
        let ghost v = node@;
        proof {
            lemma_put_map(self.nodes@, id, node, props_view());
        }
        put_entry(&mut self.nodes, id, node);
    }

    /// Forget node `id`, handing back its properties.
    pub fn remove_node(&mut self, id: u32) -> (removed: Option<NodeEntry>)
        requires
            old(self).wf(),
        ensures
            final(self).wf(),
            final(self).node_list() == without(old(self).node_list(), id),
            opt_props_view(removed) == entry_of(old(self).node_list(), id),
            final(self).link_list() == old(self).link_list(),
            final(self).port_list() == old(self).port_list(),
            final(self).device_list() == old(self).device_list(),
    {
        proof {
            lemma_without_map(self.nodes@, id, props_view());
            lemma_entry_map(self.nodes@, id, props_view());
        }
        take_entry(&mut self.nodes, id)
    }

    /// Record link `id`, from node `output_node` into node `input_node`.
    pub fn insert_link(&mut self, id: u32, output_node: u32, input_node: u32)
        requires
            old(self).wf(),
        ensures
            final(self).wf(),
            final(self).link_list() == put(
                old(self).link_list(),
                id,
                LinkEntry { output_node, input_node },
            ),
            final(self).node_list() == old(self).node_list(),
            final(self).port_list() == old(self).port_list(),
            final(self).device_list() == old(self).device_list(),
    {
        put_entry(&mut self.links, id, LinkEntry { output_node, input_node });
    }

    /// Forget link `id`.
    pub fn remove_link(&mut self, id: u32)
        requires
            old(self).wf(),
        ensures
            final(self).wf(),
            final(self).link_list() == without(old(self).link_list(), id),
            final(self).node_list() == old(self).node_list(),
            final(self).port_list() == old(self).port_list(),
            final(self).device_list() == old(self).device_list(),
    {
        let _ = take_entry(&mut self.links, id);
    }

    /// Record port `id` with `port`'s properties, over any port of that id.
    pub fn insert_port(&mut self, id: u32, port: PortEntry)
        requires
            old(self).wf(),
        ensures
            final(self).wf(),
            final(self).port_list() == put(old(self).port_list(), id, port@),
            final(self).node_list() == old(self).node_list(),
            final(self).link_list() == old(self).link_list(),
            final(self).device_list() == old(self).device_list(),
    {
        proof {
            lemma_put_map(self.ports@, id, port, props_view());
        }
        put_entry(&mut self.ports, id, port);
    }

    /// Forget port `id`.
    pub fn remove_port(&mut self, id: u32)
        requires
            old(self).wf(),
        ensures
            final(self).wf(),
            final(self).port_list() == without(old(self).port_list(), id),
            final(self).node_list() == old(self).node_list(),
            final(self).link_list() == old(self).link_list(),
            final(self).device_list() == old(self).device_list(),
    {
        proof {
            lemma_without_map(self.ports@, id, props_view());
        }
        let _ = take_entry(&mut self.ports, id);
    }

    /// Record device `id` with `device`'s properties, over any device of that id.
    pub fn insert_device(&mut self, id: u32, device: DeviceEntry)
        requires
            old(self).wf(),
        ensures
            final(self).wf(),
            final(self).device_list() == put(old(self).device_list(), id, device@),
            final(self).node_list() == old(self).node_list(),
            final(self).link_list() == old(self).link_list(),
            final(self).port_list() == old(self).port_list(),
    {
        proof {
            lemma_put_map(self.devices@, id, device, props_view());
        }
        put_entry(&mut self.devices, id, device);
    }

    /// Forget whatever global `id` was: node, link, port or device.
    pub fn remove_global(&mut self, id: u32)
        requires
            old(self).wf(),
        ensures
            final(self).wf(),
            final(self).node_list() == without(old(self).node_list(), id),
            final(self).link_list() == without(old(self).link_list(), id),
            final(self).port_list() == without(old(self).port_list(), id),
            final(self).device_list() == without(old(self).device_list(), id),
    {
        proof {
            lemma_without_map(self.nodes@, id, props_view());
            lemma_without_map(self.ports@, id, props_view());
            lemma_without_map(self.devices@, id, props_view());
        }
        let _ = take_entry(&mut self.nodes, id);
        let _ = take_entry(&mut self.links, id);
        let _ = take_entry(&mut self.ports, id);
        let _ = take_entry(&mut self.devices, id);
    }
}

/// What kind of global the registry announced, as far as the mirror cares.
#[derive(Clone, Copy, Debug, PartialEq, Eq, Structural)]
pub enum GlobalKind {
    /// A node: a sink, a stream, a filter.
    Node,
    /// A port of a node.
    Port,
    /// A link between two nodes.
    Link,
    /// A device, such as a sound card or a Bluetooth speaker.
    Device,
    /// Anything else, which the mirror does not follow.
    Other,
}

/// The node id a link's `key` end names, when it reads as a `u32`.
pub open spec fn link_end(props: PropsView, key: Seq<char>) -> Option<u32> {
    match lookup(props, key) {
        Some(t) => spec_parse_u32(t),
        None => None,
    }
}

/// The node id a link's `key` end names, when it reads as a `u32`.
fn link_end_of(props: &GlobalProps, key: &str) -> (end: Option<u32>)
    ensures
        end == link_end(props@, key@),
{
    match props.prop(key) {
        Some(t) => {
            let v = chars_of(t);
            assert(v@.subrange(0, v@.len() as int) =~= v@);
            parse_u32(&v, 0, v.len())
        },
        None => None,
    }
}

impl Mirror {
    /// Record a global the registry announced: a node, port or device with its
    /// properties, over any of that id; a link by the two node ids its
    /// `link.output.node` and `link.input.node` name, and not at all when
    /// either does not read as an id. Any other kind is not followed.
    pub fn add_global(&mut self, kind: GlobalKind, id: u32, props: GlobalProps)
        requires
            old(self).wf(),
        ensures
            final(self).wf(),
            final(self).node_list() == (if kind == GlobalKind::Node {
                put(old(self).node_list(), id, props@)
            } else {
                old(self).node_list()
            }),
            final(self).port_list() == (if kind == GlobalKind::Port {
                put(old(self).port_list(), id, props@)
            } else {
                old(self).port_list()
            }),
            final(self).device_list() == (if kind == GlobalKind::Device {
                put(old(self).device_list(), id, props@)
            } else {
                old(self).device_list()
            }),
            final(self).link_list() == (if kind == GlobalKind::Link && link_end(props@, "link.output.node"@) is Some
                && link_end(props@, "link.input.node"@) is Some {
                put(
                    old(self).link_list(),
                    id,
                    LinkEntry {
                        output_node: link_end(props@, "link.output.node"@)->0,
                        input_node: link_end(props@, "link.input.node"@)->0,
                    },
                )
            } else {
                old(self).link_list()
            }),
    {
        match kind {
            GlobalKind::Node => self.insert_node(id, props),
            GlobalKind::Port => self.insert_port(id, props),
            GlobalKind::Device => self.insert_device(id, props),
            GlobalKind::Link => {
                let output = link_end_of(&props, "link.output.node");
                let input = link_end_of(&props, "link.input.node");
                match (output, input) {
                    (Some(output_node), Some(input_node)) => self.insert_link(id, output_node, input_node),
                    _ => {},
                }
            },
            GlobalKind::Other => {},
        }
    }
}

// ─── Names ─────────────────────────────────────────────────────────────────

/// Whether node `id` is named exactly `name`. An empty name names no node, not
/// even one whose `node.name` is itself empty.
pub open spec fn node_named(nodes: Seq<(u32, PropsView)>, id: u32, name: Seq<char>) -> bool {
    name.len() > 0 && exists|k: int|
        0 <= k < nodes.len() && (#[trigger] nodes[k]).0 == id && has_prop(nodes[k].1, "node.name"@, name)
}

/// Whether some node is named exactly `name` (never an empty name).
pub open spec fn some_node_named(nodes: Seq<(u32, PropsView)>, name: Seq<char>) -> bool {
    name.len() > 0 && exists|k: int| 0 <= k < nodes.len() && has_prop((#[trigger] nodes[k]).1, "node.name"@, name)
}

/// Whether some link leaves a node named `from` and enters a node named `to`.
pub open spec fn linked(nodes: Seq<(u32, PropsView)>, links: Seq<(u32, LinkEntry)>, from: Seq<char>, to: Seq<char>) -> bool {
    exists|k: int|
        0 <= k < links.len() && node_named(nodes, (#[trigger] links[k]).1.output_node, from) && node_named(
            nodes,
            links[k].1.input_node,
            to,
        )
}

/// The group both sides of branch `id` carry: `blue2th_delay.<id>`.
pub open spec fn branch_group(id: u32) -> Seq<char> {
    "blue2th_delay."@ + decimal_digits(id as nat)
}

/// The name of branch `id`'s capture (`in`) or playback (`out`) node.
pub open spec fn branch_node_name(id: u32, end: Seq<char>) -> Seq<char> {
    branch_group(id) + "."@ + end
}

/// The group both sides of branch `id` carry.
pub fn branch_group_name(id: u32) -> (group: String)
    ensures
        group@ == branch_group(id),
{
    let mut g = String::from_str("blue2th_delay.");
    let digits = u32_to_decimal(id);
    g.append(digits.as_str());
    g
}

/// The name of branch `id`'s capture (`in`) or playback (`out`) node.
pub fn branch_node(id: u32, end: &str) -> (name: String)
    ensures
        name@ == branch_node_name(id, end@),
{
    let mut n = branch_group_name(id);
    n.append(".");
    n.append(end);
    n
}

/// No two branches share a node name: the names of branch `a`'s nodes and
/// those of branch `b`'s differ whenever `a != b`, whatever the ends, so the
/// nodes of branch 10 never count for branch 1.
pub proof fn law_branches_are_told_apart_by_name(a: u32, b: u32, end_a: Seq<char>, end_b: Seq<char>)
    requires
        a != b,
    ensures
        branch_node_name(a, end_a) != branch_node_name(b, end_b),
{
    let p = "blue2th_delay."@;
    let da = decimal_digits(a as nat);
    let db = decimal_digits(b as nat);
    lemma_decimal_digits_value(a as nat);
    lemma_decimal_digits_value(b as nat);
    reveal_strlit(".");
    if branch_node_name(a, end_a) == branch_node_name(b, end_b) {
        let s = branch_node_name(a, end_a);
        let sb = branch_node_name(b, end_b);
        assert(s == p + da + "."@ + end_a);
        assert(sb == p + db + "."@ + end_b);
        if da.len() < db.len() {
            assert(s[(p.len() + da.len()) as int] == '.');
            assert(sb[(p.len() + da.len()) as int] == db[da.len() as int]);
            assert(is_digit(db[da.len() as int]));
        } else if db.len() < da.len() {
            assert(sb[(p.len() + db.len()) as int] == '.');
            assert(s[(p.len() + db.len()) as int] == da[db.len() as int]);
            assert(is_digit(da[db.len() as int]));
        } else {
            assert(da =~= s.subrange(p.len() as int, (p.len() + da.len()) as int));
            assert(db =~= sb.subrange(p.len() as int, (p.len() + db.len()) as int));
            lemma_decimal_digits_injective(a as nat, b as nat);
        }
    }
}

impl Mirror {
    /// Whether node `id` is named exactly `name`.
    pub fn is_node_named(&self, id: u32, name: &str) -> (named: bool)
        ensures
            named == node_named(self.node_list(), id, name@),
    {
        if name.unicode_len() == 0 {
            return false;
        }
        let ghost nodes = self.node_list();
        let mut k: usize = 0;
        while k < self.nodes.len()
            invariant
                nodes == self.node_list(),
                name@.len() > 0,
                k <= self.nodes@.len(),
                forall|j: int|
                    0 <= j < k ==> !((#[trigger] nodes[j]).0 == id && has_prop(nodes[j].1, "node.name"@, name@)),
            decreases self.nodes.len() - k,
        {
            assert(nodes[k as int] == (self.nodes@[k as int].0, self.nodes@[k as int].1@));
            if self.nodes[k].0 == id && self.nodes[k].1.prop_is("node.name", name) {
                return true;
            }
            k = k + 1;
        }
        false
    }

    /// Whether some node is named exactly `name`.
    pub fn has_node_named(&self, name: &str) -> (found: bool)
        ensures
            found == some_node_named(self.node_list(), name@),
    {
        if name.unicode_len() == 0 {
            return false;
        }
        let ghost nodes = self.node_list();
        let mut k: usize = 0;
        while k < self.nodes.len()
            invariant
                nodes == self.node_list(),
                name@.len() > 0,
                k <= self.nodes@.len(),
                forall|j: int| 0 <= j < k ==> !has_prop((#[trigger] nodes[j]).1, "node.name"@, name@),
            decreases self.nodes.len() - k,
        {
            assert(nodes[k as int] == (self.nodes@[k as int].0, self.nodes@[k as int].1@));
            if self.nodes[k].1.prop_is("node.name", name) {
                return true;
            }
            k = k + 1;
        }
        false
    }

    /// Whether some link leaves a node named `from` and enters one named `to`.
    pub fn is_linked(&self, from: &str, to: &str) -> (found: bool)
        ensures
            found == linked(self.node_list(), self.link_list(), from@, to@),
    {
        let ghost links = self.link_list();
        let mut k: usize = 0;
        while k < self.links.len()
            invariant
                links == self.link_list(),
                k <= links.len(),
                forall|j: int|
                    0 <= j < k ==> !(node_named(self.node_list(), (#[trigger] links[j]).1.output_node, from@)
                        && node_named(self.node_list(), links[j].1.input_node, to@)),
            decreases self.links.len() - k,
        {
            let link = self.links[k].1;
            if self.is_node_named(link.output_node, from) && self.is_node_named(link.input_node, to) {
                return true;
            }
            k = k + 1;
        }
        false
    }
}

/// The ids of the nodes of `nodes` named exactly `name`, in order; none for an
/// empty name.
pub open spec fn ids_named(nodes: Seq<(u32, PropsView)>, name: Seq<char>) -> Seq<u32>
    decreases nodes.len(),
{
    if nodes.len() == 0 {
        seq![]
    } else {
        let rest = ids_named(nodes.drop_last(), name);
        if name.len() > 0 && has_prop(nodes.last().1, "node.name"@, name) {
            rest.push(nodes.last().0)
        } else {
            rest
        }
    }
}

impl Mirror {
    /// The ids of the nodes named exactly `name`, by increasing id; none for an
    /// empty name.
    pub fn node_ids_named(&self, name: &str) -> (ids: Vec<u32>)
        ensures
            ids@ == ids_named(self.node_list(), name@),
    {
        let ghost nodes = self.node_list();
        let mut ids: Vec<u32> = Vec::new();
        let named = name.unicode_len() > 0;
        let mut k: usize = 0;
        while k < self.nodes.len()
            invariant
                nodes == self.node_list(),
                named == (name@.len() > 0),
                k <= nodes.len(),
                ids@ == ids_named(nodes.take(k as int), name@),
            decreases self.nodes.len() - k,
        {
            assert(nodes.take(k + 1).drop_last() =~= nodes.take(k as int));
            assert(nodes[k as int] == (self.nodes@[k as int].0, self.nodes@[k as int].1@));
            if named && self.nodes[k].1.prop_is("node.name", name) {
                ids.push(self.nodes[k].0);
            }
            k = k + 1;
        }
        assert(nodes.take(nodes.len() as int) =~= nodes);
        ids
    }
}

/// The nodes unloading branch `id` destroys: its capture nodes, then its
/// playback nodes, as the registry lists them. The module goes once its
/// streams are gone.
pub open spec fn spec_branch_node_ids(nodes: Seq<(u32, PropsView)>, id: u32) -> Seq<u32> {
    ids_named(nodes, branch_node_name(id, "in"@)) + ids_named(nodes, branch_node_name(id, "out"@))
}

/// The nodes unloading branch `id` destroys, looked up in the registry rather
/// than through the module, whose handle may already be gone.
pub fn branch_node_ids(mirror: &Mirror, id: u32) -> (ids: Vec<u32>)
    ensures
        ids@ == spec_branch_node_ids(mirror.node_list(), id),
{
    let mut ids = mirror.node_ids_named(branch_node(id, "in").as_str());
    let mut outs = mirror.node_ids_named(branch_node(id, "out").as_str());
    ids.append(&mut outs);
    ids
}

// ─── Which sinks there are ─────────────────────────────────────────────────

/// The names of the `Audio/Sink` nodes of `nodes`, in order, skipping a sink
/// that names no node.
pub open spec fn spec_sink_names(nodes: Seq<(u32, PropsView)>) -> Seq<Seq<char>>
    decreases nodes.len(),
{
    if nodes.len() == 0 {
        seq![]
    } else {
        let rest = spec_sink_names(nodes.drop_last());
        let p = nodes.last().1;
        match lookup(p, "node.name"@) {
            Some(n) => if has_prop(p, "media.class"@, "Audio/Sink"@) && n.len() > 0 {
                rest.push(n)
            } else {
                rest
            },
            None => rest,
        }
    }
}

/// Whether a node is an `Audio/Sink` that names itself.
pub open spec fn is_named_sink(n: (u32, PropsView)) -> bool {
    &&& has_prop(n.1, "media.class"@, "Audio/Sink"@)
    &&& lookup(n.1, "node.name"@) matches Some(name) && name.len() > 0
}

/// The sink names are the `node.name` of each node, in order, that is an
/// `Audio/Sink` with a non-empty name: streams, sources and nameless sinks
/// never appear.
pub proof fn law_sink_names_are_the_named_audio_sinks_in_order(nodes: Seq<(u32, PropsView)>)
    ensures
        spec_sink_names(nodes) == nodes.filter(|n: (u32, PropsView)| is_named_sink(n)).map_values(
            |n: (u32, PropsView)| lookup(n.1, "node.name"@)->Some_0,
        ),
    decreases nodes.len(),
{
    reveal_with_fuel(Seq::<_>::filter, 1);
    if nodes.len() > 0 {
        law_sink_names_are_the_named_audio_sinks_in_order(nodes.drop_last());
        let f = nodes.drop_last().filter(|n: (u32, PropsView)| is_named_sink(n));
        if is_named_sink(nodes.last()) {
            assert(f.push(nodes.last()).map_values(|n: (u32, PropsView)| lookup(n.1, "node.name"@)->Some_0) =~= f.map_values(
                |n: (u32, PropsView)| lookup(n.1, "node.name"@)->Some_0,
            ).push(lookup(nodes.last().1, "node.name"@)->Some_0));
        }
    }
}

/// The node names of the mirror's `Audio/Sink` nodes, in id order. A sink
/// naming nothing contributes no name.
pub fn sink_names(mirror: &Mirror) -> (names: Vec<String>)
    ensures
        crate::text::string_views(names@) == spec_sink_names(mirror.node_list()),
{
    let ghost nodes = mirror.node_list();
    let mut names: Vec<String> = Vec::new();
    let mut k: usize = 0;
    while k < mirror.nodes.len()
        invariant
            nodes == mirror.node_list(),
            k <= nodes.len(),
            crate::text::string_views(names@) == spec_sink_names(nodes.take(k as int)),
        decreases mirror.nodes.len() - k,
    {
        assert(nodes[k as int] == (mirror.nodes@[k as int].0, mirror.nodes@[k as int].1@));
        assert(nodes.take(k + 1).drop_last() =~= nodes.take(k as int));
        let node = &mirror.nodes[k].1;
        if node.prop_is("media.class", "Audio/Sink") {
            match node.prop("node.name") {
                Some(n) => {
                    if n.unicode_len() > 0 {
                        names.push(n.to_owned());
                    }
                },
                None => {},
            }
        }
        assert(crate::text::string_views(names@) =~= spec_sink_names(nodes.take(k + 1)));
        k = k + 1;
    }
    assert(nodes.take(nodes.len() as int) =~= nodes);
    names
}

// ─── Branch liveness ───────────────────────────────────────────────────────

/// Whether branch `id` is fed by the node named `sink_name` and feeds the node
/// named `real_sink`: a link from the combined sink into its `.in` node, and a
/// link from its `.out` node into the speaker.
pub open spec fn spec_branch_liveness(
    nodes: Seq<(u32, PropsView)>,
    links: Seq<(u32, LinkEntry)>,
    id: u32,
    sink_name: Seq<char>,
    real_sink: Seq<char>,
) -> bool {
    linked(nodes, links, sink_name, branch_node_name(id, "in"@)) && linked(
        nodes,
        links,
        branch_node_name(id, "out"@),
        real_sink,
    )
}

/// Whether branch `id` is fed by `sink_name` and feeds `real_sink`.
pub fn branch_liveness(mirror: &Mirror, id: u32, sink_name: &str, real_sink: &str) -> (live: bool)
    ensures
        live == spec_branch_liveness(mirror.node_list(), mirror.link_list(), id, sink_name@, real_sink@),
{
    let in_node = branch_node(id, "in");
    let out_node = branch_node(id, "out");
    mirror.is_linked(sink_name, in_node.as_str()) && mirror.is_linked(out_node.as_str(), real_sink)
}

/// What branch `id` reports as its liveness, given how long its monitor links
/// have waited for their ports (`None` once they are made). A branch still
/// waiting is "cannot tell", not dead, until the grace runs out or its
/// playback side is gone; a live branch is live.
pub open spec fn spec_branch_live(
    nodes: Seq<(u32, PropsView)>,
    links: Seq<(u32, LinkEntry)>,
    id: u32,
    sink_name: Seq<char>,
    real_sink: Seq<char>,
    pending_for: Option<u64>,
) -> Option<bool> {
    let live = spec_branch_liveness(nodes, links, id, sink_name, real_sink);
    match pending_for {
        None => Some(live),
        Some(waited) => if live {
            Some(true)
        } else if !some_node_named(nodes, branch_node_name(id, "out"@)) || waited >= PENDING_LINKS_GRACE {
            Some(false)
        } else {
            None
        },
    }
}

/// What branch `id` reports as its liveness; `pending_for` is how long, in
/// milliseconds, its monitor links have been waiting for their ports.
pub fn branch_live(mirror: &Mirror, id: u32, sink_name: &str, real_sink: &str, pending_for: Option<u64>) -> (live: Option<bool>)
    ensures
        live == spec_branch_live(mirror.node_list(), mirror.link_list(), id, sink_name@, real_sink@, pending_for),
{
    let live = branch_liveness(mirror, id, sink_name, real_sink);
    match pending_for {
        None => Some(live),
        Some(waited) => {
            if live {
                Some(true)
            } else {
                let out_node = branch_node(id, "out");
                if !mirror.has_node_named(out_node.as_str()) || waited >= PENDING_LINKS_GRACE {
                    Some(false)
                } else {
                    None
                }
            }
        },
    }
}

/// What `load_branch` answers once a branch's module is loaded and kept:
/// `Ok`, whatever the sync and the wiring after it did. A branch reported as
/// failed would never be armed for its confirming reload while it stayed
/// listed; a follow-up that failed leaves it waiting for its ports or dead,
/// which the router already handles.
pub fn kept_branch_load(id: u32, follow_up: Result<(), AudioError>) -> (r: Result<(), AudioError>)
    ensures
        r is Ok,
{
    let _ = (id, follow_up);
    Ok(())
}

// ─── Ports ─────────────────────────────────────────────────────────────────

/// The channel a port carries: its `audio.channel`, when it is not empty. Two
/// ports without a channel are not the same channel.
pub open spec fn channel_of(port: PropsView) -> Option<Seq<char>> {
    match lookup(port, "audio.channel"@) {
        Some(c) => if c.len() > 0 {
            Some(c)
        } else {
            None
        },
        None => None,
    }
}

/// Whether `port` belongs to a node named exactly `name`: its `node.id` reads
/// as the id of such a node.
pub open spec fn port_of(nodes: Seq<(u32, PropsView)>, port: PropsView, name: Seq<char>) -> bool {
    match lookup(port, "node.id"@) {
        Some(t) => match spec_parse_u32(t) {
            Some(n) => node_named(nodes, n, name),
            None => false,
        },
        None => false,
    }
}

/// Whether the output port `po` of the node named `out_name` pairs with the
/// input port `pi` of the node named `in_name`: they carry the same channel.
pub open spec fn pairs_with(
    nodes: Seq<(u32, PropsView)>,
    po: PropsView,
    pi: PropsView,
    out_name: Seq<char>,
    in_name: Seq<char>,
) -> bool {
    &&& channel_of(po) is Some
    &&& channel_of(po) == channel_of(pi)
    &&& has_prop(po, "port.direction"@, "out"@)
    &&& has_prop(pi, "port.direction"@, "in"@)
    &&& port_of(nodes, po, out_name)
    &&& port_of(nodes, pi, in_name)
}

/// The pairs `po` makes with the ports of `ins`, in their order.
pub open spec fn pairs_for(
    nodes: Seq<(u32, PropsView)>,
    po: (u32, PropsView),
    ins: Seq<(u32, PropsView)>,
    out_name: Seq<char>,
    in_name: Seq<char>,
) -> Seq<(u32, u32)>
    decreases ins.len(),
{
    if ins.len() == 0 {
        seq![]
    } else {
        let rest = pairs_for(nodes, po, ins.drop_last(), out_name, in_name);
        if pairs_with(nodes, po.1, ins.last().1, out_name, in_name) {
            rest.push((po.0, ins.last().0))
        } else {
            rest
        }
    }
}

/// The pairs each port of `outs`, in turn, makes with the ports of `ports`.
pub open spec fn all_pairs(
    nodes: Seq<(u32, PropsView)>,
    outs: Seq<(u32, PropsView)>,
    ports: Seq<(u32, PropsView)>,
    out_name: Seq<char>,
    in_name: Seq<char>,
) -> Seq<(u32, u32)>
    decreases outs.len(),
{
    if outs.len() == 0 {
        seq![]
    } else {
        all_pairs(nodes, outs.drop_last(), ports, out_name, in_name) + pairs_for(
            nodes,
            outs.last(),
            ports,
            out_name,
            in_name,
        )
    }
}

/// Whether `pair` joins a port of `outs` to a port of `ins` carrying the same
/// named channel, from the node named `out_name` to the node named `in_name`.
pub open spec fn joins_one_channel(
    nodes: Seq<(u32, PropsView)>,
    outs: Seq<(u32, PropsView)>,
    ins: Seq<(u32, PropsView)>,
    out_name: Seq<char>,
    in_name: Seq<char>,
    pair: (u32, u32),
) -> bool {
    exists|a: int, b: int|
        0 <= a < outs.len() && 0 <= b < ins.len() && (#[trigger] outs[a]).0 == pair.0 && (
        #[trigger] ins[b]).0 == pair.1 && pairs_with(nodes, outs[a].1, ins[b].1, out_name, in_name)
}

/// Each pair `pairs_for` makes is `po` with a port of `ins` it pairs with.
proof fn lemma_pairs_for_pair(
    nodes: Seq<(u32, PropsView)>,
    po: (u32, PropsView),
    ins: Seq<(u32, PropsView)>,
    out_name: Seq<char>,
    in_name: Seq<char>,
)
    ensures
        forall|k: int|
            0 <= k < pairs_for(nodes, po, ins, out_name, in_name).len() ==> joins_one_channel(
                nodes,
                seq![po],
                ins,
                out_name,
                in_name,
                #[trigger] pairs_for(nodes, po, ins, out_name, in_name)[k],
            ),
    decreases ins.len(),
{
    if ins.len() > 0 {
        let init = ins.drop_last();
        lemma_pairs_for_pair(nodes, po, init, out_name, in_name);
        let all = pairs_for(nodes, po, ins, out_name, in_name);
        let r = pairs_for(nodes, po, init, out_name, in_name);
        let one = seq![po];
        if pairs_with(nodes, po.1, ins.last().1, out_name, in_name) {
            assert(all == r.push((po.0, ins.last().0)));
        } else {
            assert(all == r);
        }
        assert forall|k: int| 0 <= k < all.len() implies joins_one_channel(
            nodes,
            one,
            ins,
            out_name,
            in_name,
            #[trigger] all[k],
        ) by {
            if k < r.len() {
                assert(all[k] == r[k]);
                assert(joins_one_channel(nodes, one, init, out_name, in_name, r[k]));
                let (a, b) = choose|a: int, b: int|
                    0 <= a < one.len() && 0 <= b < init.len() && (#[trigger] one[a]).0 == r[k].0 && (
                    #[trigger] init[b]).0 == r[k].1 && pairs_with(nodes, one[a].1, init[b].1, out_name, in_name);
                assert(ins[b] == init[b]);
            } else {
                assert(one[0] == po);
                assert(ins[ins.len() - 1] == ins.last());
            }
        }
    }
}

/// Wiring never crosses channels: each pair linked joins an output port of the
/// node named `out_name` to an input port of the node named `in_name`, both
/// carrying the same named channel.
pub proof fn law_pairs_never_cross_channels(
    nodes: Seq<(u32, PropsView)>,
    outs: Seq<(u32, PropsView)>,
    ports: Seq<(u32, PropsView)>,
    out_name: Seq<char>,
    in_name: Seq<char>,
)
    ensures
        forall|k: int|
            0 <= k < all_pairs(nodes, outs, ports, out_name, in_name).len() ==> joins_one_channel(
                nodes,
                outs,
                ports,
                out_name,
                in_name,
                #[trigger] all_pairs(nodes, outs, ports, out_name, in_name)[k],
            ),
    decreases outs.len(),
{
    if outs.len() > 0 {
        let init = outs.drop_last();
        let last = outs.last();
        law_pairs_never_cross_channels(nodes, init, ports, out_name, in_name);
        lemma_pairs_for_pair(nodes, last, ports, out_name, in_name);
        let all = all_pairs(nodes, outs, ports, out_name, in_name);
        let r = all_pairs(nodes, init, ports, out_name, in_name);
        let tail = pairs_for(nodes, last, ports, out_name, in_name);
        assert(all == r + tail);
        assert forall|k: int| 0 <= k < all.len() implies joins_one_channel(
            nodes,
            outs,
            ports,
            out_name,
            in_name,
            #[trigger] all[k],
        ) by {
            if k < r.len() {
                assert(all[k] == r[k]);
                assert(joins_one_channel(nodes, init, ports, out_name, in_name, r[k]));
                let (a, b) = choose|a: int, b: int|
                    0 <= a < init.len() && 0 <= b < ports.len() && (#[trigger] init[a]).0 == r[k].0 && (
                    #[trigger] ports[b]).0 == r[k].1 && pairs_with(nodes, init[a].1, ports[b].1, out_name, in_name);
                assert(outs[a] == init[a]);
            } else {
                assert(all[k] == tail[k - r.len()]);
                assert(joins_one_channel(nodes, seq![last], ports, out_name, in_name, tail[k - r.len()]));
                let (a, b) = choose|a: int, b: int|
                    0 <= a < 1 && 0 <= b < ports.len() && (#[trigger] seq![last][a]).0 == tail[k - r.len()].0 && (
                    #[trigger] ports[b]).0 == tail[k - r.len()].1 && pairs_with(nodes, seq![last][a].1, ports[b].1, out_name, in_name);
                assert(seq![last][a] == last);
                assert(outs[outs.len() - 1] == last);
            }
        }
    }
}

/// The channel `port` carries, when it names one.
fn channel(port: &GlobalProps) -> (c: Option<&str>)
    ensures
        opt_str_view(c) == channel_of(port@),
{
    match port.prop("audio.channel") {
        Some(c) => {
            if c.unicode_len() > 0 {
                Some(c)
            } else {
                None
            }
        },
        None => None,
    }
}

impl Mirror {
    /// Whether `port` belongs to a node named exactly `name`.
    fn port_on(&self, port: &GlobalProps, name: &str) -> (on: bool)
        ensures
            on == port_of(self.node_list(), port@, name@),
    {
        match port.prop("node.id") {
            Some(t) => {
                let v = chars_of(t);
                proof {
                    assert(v@.subrange(0, v@.len() as int) =~= t@);
                }
                match parse_u32(&v, 0, v.len()) {
                    Some(n) => self.is_node_named(n, name),
                    None => false,
                }
            },
            None => false,
        }
    }

    /// Whether the output port `po` of `out_name` pairs with the input port `pi`
    /// of `in_name`.
    fn ports_pair(&self, po: &GlobalProps, pi: &GlobalProps, out_name: &str, in_name: &str) -> (pair: bool)
        ensures
            pair == pairs_with(self.node_list(), po@, pi@, out_name@, in_name@),
    {
        match (channel(po), channel(pi)) {
            (Some(a), Some(b)) => {
                str_eq(a, b) && po.prop_is("port.direction", "out") && pi.prop_is("port.direction", "in")
                    && self.port_on(po, out_name) && self.port_on(pi, in_name)
            },
            _ => false,
        }
    }

    /// Whether the node named `name` has a port of direction `dir` carrying
    /// channel `c`.
    fn has_port(&self, name: &str, dir: &str, c: &str) -> (found: bool)
        ensures
            found == has_channel_port(self.node_list(), self.port_list(), name@, dir@, c@),
    {
        let ghost ports = self.port_list();
        let mut k: usize = 0;
        while k < self.ports.len()
            invariant
                ports == self.port_list(),
                k <= ports.len(),
                forall|j: int|
                    0 <= j < k ==> !(port_of(self.node_list(), (#[trigger] ports[j]).1, name@) && has_prop(
                        ports[j].1,
                        "port.direction"@,
                        dir@,
                    ) && channel_of(ports[j].1) == Some(c@)),
            decreases self.ports.len() - k,
        {
            assert(ports[k as int] == (self.ports@[k as int].0, self.ports@[k as int].1@));
            let port = &self.ports[k].1;
            let same = match channel(port) {
                Some(pc) => str_eq(pc, c),
                None => false,
            };
            if same && port.prop_is("port.direction", dir) && self.port_on(port, name) {
                return true;
            }
            k = k + 1;
        }
        false
    }
}

/// The `(output port, input port)` pairs linking the outputs of the node named
/// `out_node` to the inputs of the node named `in_node`, channel to channel:
/// for each output port in id order, its partners in id order.
pub fn channel_port_pairs(mirror: &Mirror, out_node: &str, in_node: &str) -> (pairs: Vec<(u32, u32)>)
    ensures
        pairs@ == all_pairs(mirror.node_list(), mirror.port_list(), mirror.port_list(), out_node@, in_node@),
{
    let ghost ports = mirror.port_list();
    let ghost nodes = mirror.node_list();
    let mut pairs: Vec<(u32, u32)> = Vec::new();
    let mut i: usize = 0;
    while i < mirror.ports.len()
        invariant
            ports == mirror.port_list(),
            nodes == mirror.node_list(),
            i <= ports.len(),
            pairs@ == all_pairs(nodes, ports.take(i as int), ports, out_node@, in_node@),
        decreases mirror.ports.len() - i,
    {
        assert(ports[i as int] == (mirror.ports@[i as int].0, mirror.ports@[i as int].1@));
        let ghost before = pairs@;
        let mut j: usize = 0;
        while j < mirror.ports.len()
            invariant
                ports == mirror.port_list(),
                nodes == mirror.node_list(),
                i < ports.len(),
                j <= ports.len(),
                pairs@ == before + pairs_for(nodes, ports[i as int], ports.take(j as int), out_node@, in_node@),
            decreases mirror.ports.len() - j,
        {
            assert(ports[j as int] == (mirror.ports@[j as int].0, mirror.ports@[j as int].1@));
            assert(ports.take(j + 1).drop_last() =~= ports.take(j as int));
            if mirror.ports_pair(&mirror.ports[i].1, &mirror.ports[j].1, out_node, in_node) {
                pairs.push((mirror.ports[i].0, mirror.ports[j].0));
            }
            assert(pairs@ =~= before + pairs_for(nodes, ports[i as int], ports.take(j + 1), out_node@, in_node@));
            j = j + 1;
        }
        assert(ports.take(ports.len() as int) =~= ports);
        assert(ports.take(i + 1).drop_last() =~= ports.take(i as int));
        assert(ports.take(i + 1).last() == ports[i as int]);
        i = i + 1;
    }
    assert(ports.take(ports.len() as int) =~= ports);
    pairs
}

/// Whether the node named `name` has a port of direction `dir` carrying
/// channel `c`.
pub open spec fn has_channel_port(
    nodes: Seq<(u32, PropsView)>,
    ports: Seq<(u32, PropsView)>,
    name: Seq<char>,
    dir: Seq<char>,
    c: Seq<char>,
) -> bool {
    exists|k: int|
        0 <= k < ports.len() && port_of(nodes, (#[trigger] ports[k]).1, name) && has_prop(
            ports[k].1,
            "port.direction"@,
            dir,
        ) && channel_of(ports[k].1) == Some(c)
}

/// Whether branch `id`'s capture side can be linked from the node named
/// `sink_name` now: the sink's monitor outputs and the branch's inputs are
/// both in the mirror, on `FL` and on `FR`.
pub open spec fn spec_ready_to_wire(
    nodes: Seq<(u32, PropsView)>,
    ports: Seq<(u32, PropsView)>,
    sink_name: Seq<char>,
    id: u32,
) -> bool {
    let in_node = branch_node_name(id, "in"@);
    &&& has_channel_port(nodes, ports, sink_name, "out"@, "FL"@)
    &&& has_channel_port(nodes, ports, in_node, "in"@, "FL"@)
    &&& has_channel_port(nodes, ports, sink_name, "out"@, "FR"@)
    &&& has_channel_port(nodes, ports, in_node, "in"@, "FR"@)
}

/// Whether branch `id`'s capture side can be linked from `sink_name` now:
/// both channel pairs are in the mirror.
pub fn ready_to_wire(mirror: &Mirror, sink_name: &str, id: u32) -> (ready: bool)
    ensures
        ready == spec_ready_to_wire(mirror.node_list(), mirror.port_list(), sink_name@, id),
{
    let in_node = branch_node(id, "in");
    mirror.has_port(sink_name, "out", "FL") && mirror.has_port(in_node.as_str(), "in", "FL")
        && mirror.has_port(sink_name, "out", "FR") && mirror.has_port(in_node.as_str(), "in", "FR")
}

// ─── Teardown ──────────────────────────────────────────────────────────────

/// Whether a node may be destroyed by a teardown at all: a hardware node
/// (one carrying `device.api`) never is, since destroying it switches its card
/// off.
pub open spec fn is_candidate(p: PropsView) -> bool {
    lookup(p, "device.api"@) is None
}

/// Whether a node is a capture stream, by either marker.
pub open spec fn is_capture(p: PropsView) -> bool {
    has_prop(p, "media.class"@, "Stream/Input/Audio"@) || has_prop(p, "stream.capture.sink"@, "true"@)
}

/// Whether a node is a capture stream reading the sink named `sink`.
pub open spec fn captures_sink(p: PropsView, sink: Seq<char>) -> bool {
    is_candidate(p) && is_capture(p) && has_prop(p, "target.object"@, sink)
}

/// The link group a node carries, when it is not empty.
pub open spec fn group_of(p: PropsView) -> Option<Seq<char>> {
    match lookup(p, "node.link-group"@) {
        Some(g) => if g.len() > 0 {
            Some(g)
        } else {
            None
        },
        None => None,
    }
}

/// Whether `g` is the group of a capture stream reading the sink `sink`.
pub open spec fn doomed_group(nodes: Seq<(u32, PropsView)>, sink: Seq<char>, g: Seq<char>) -> bool {
    exists|k: int|
        0 <= k < nodes.len() && captures_sink((#[trigger] nodes[k]).1, sink) && group_of(nodes[k].1) == Some(g)
}

/// Whether a teardown of `sink` destroys the node `p`: the sink itself (by
/// exact name), a capture stream reading it, and each node sharing the link
/// group of such a stream. Never a hardware node, and nothing for an empty name.
pub open spec fn is_doomed(nodes: Seq<(u32, PropsView)>, sink: Seq<char>, p: PropsView) -> bool {
    &&& sink.len() > 0
    &&& is_candidate(p)
    &&& {
        ||| has_prop(p, "node.name"@, sink)
        ||| captures_sink(p, sink)
        ||| (match lookup(p, "node.link-group"@) {
            Some(g) => doomed_group(nodes, sink, g),
            None => false,
        })
    }
}

/// The ids of the nodes of `some` that a teardown of `sink` destroys, in order,
/// judged against all of `nodes`.
pub open spec fn doomed_ids(nodes: Seq<(u32, PropsView)>, some: Seq<(u32, PropsView)>, sink: Seq<char>) -> Seq<u32>
    decreases some.len(),
{
    if some.len() == 0 {
        seq![]
    } else {
        let rest = doomed_ids(nodes, some.drop_last(), sink);
        if is_doomed(nodes, sink, some.last().1) {
            rest.push(some.last().0)
        } else {
            rest
        }
    }
}

/// Whether `id` is the id of a node of `nodes` that is no hardware node.
pub open spec fn is_candidate_id(nodes: Seq<(u32, PropsView)>, id: u32) -> bool {
    exists|j: int| 0 <= j < nodes.len() && (#[trigger] nodes[j]).0 == id && is_candidate(nodes[j].1)
}

/// Every id `doomed_ids` selects from `some` is that of a node of `some`
/// without `device.api`, and an empty name selects none.
proof fn lemma_doomed_are_candidates(nodes: Seq<(u32, PropsView)>, some: Seq<(u32, PropsView)>, sink: Seq<char>)
    ensures
        sink.len() == 0 ==> doomed_ids(nodes, some, sink).len() == 0,
        forall|k: int|
            0 <= k < doomed_ids(nodes, some, sink).len() ==> is_candidate_id(
                some,
                #[trigger] doomed_ids(nodes, some, sink)[k],
            ),
    decreases some.len(),
{
    if some.len() > 0 {
        let init = some.drop_last();
        lemma_doomed_are_candidates(nodes, init, sink);
        let d = doomed_ids(nodes, some, sink);
        let r = doomed_ids(nodes, init, sink);
        if is_doomed(nodes, sink, some.last().1) {
            assert(d == r.push(some.last().0));
        } else {
            assert(d == r);
        }
        assert forall|k: int| 0 <= k < d.len() implies is_candidate_id(some, #[trigger] d[k]) by {
            if k < r.len() {
                assert(d[k] == r[k]);
                assert(is_candidate_id(init, r[k]));
                let j = choose|j: int| 0 <= j < init.len() && (#[trigger] init[j]).0 == r[k] && is_candidate(init[j].1);
                assert(some[j] == init[j]);
            } else {
                assert(some[some.len() - 1] == some.last());
            }
        }
    }
}

/// A teardown never destroys a hardware node, whoever owns it, and a teardown
/// of an empty name destroys nothing: each id selected for `sink` is that of a
/// node without `device.api`.
pub proof fn law_teardown_spares_hardware_nodes(nodes: Seq<(u32, PropsView)>, sink: Seq<char>)
    ensures
        sink.len() == 0 ==> doomed_ids(nodes, nodes, sink).len() == 0,
        forall|k: int|
            0 <= k < doomed_ids(nodes, nodes, sink).len() ==> is_candidate_id(
                nodes,
                #[trigger] doomed_ids(nodes, nodes, sink)[k],
            ),
{
    lemma_doomed_are_candidates(nodes, nodes, sink);
}

/// Over a prefix `some` of nodes by increasing id, the doomed ids rise, each is
/// the id of a doomed node of `some`, and every doomed node of `some` is there.
#[verifier::spinoff_prover]
proof fn lemma_doomed_ids_exact(nodes: Seq<(u32, PropsView)>, some: Seq<(u32, PropsView)>, sink: Seq<char>)
    requires
        increasing(some),
    ensures
        forall|i: int, j: int|
            0 <= i < j < doomed_ids(nodes, some, sink).len() ==> doomed_ids(nodes, some, sink)[i] < doomed_ids(
                nodes,
                some,
                sink,
            )[j],
        forall|i: int|
            #![trigger doomed_ids(nodes, some, sink)[i]]
            0 <= i < doomed_ids(nodes, some, sink).len() ==> exists|k: int|
                0 <= k < some.len() && (#[trigger] some[k]).0 == doomed_ids(nodes, some, sink)[i] && is_doomed(
                    nodes,
                    sink,
                    some[k].1,
                ),
        forall|k: int|
            0 <= k < some.len() && is_doomed(nodes, sink, (#[trigger] some[k]).1) ==> doomed_ids(
                nodes,
                some,
                sink,
            ).contains(some[k].0),
    decreases some.len(),
{
    if some.len() > 0 {
        let init = some.drop_last();
        assert(increasing(init));
        lemma_doomed_ids_exact(nodes, init, sink);
        let r = doomed_ids(nodes, init, sink);
        let d = doomed_ids(nodes, some, sink);
        assert forall|i: int| 0 <= i < r.len() implies r[i] < some.last().0 by {
            let k = choose|k: int| 0 <= k < init.len() && (#[trigger] init[k]).0 == r[i] && is_doomed(nodes, sink, init[k].1);
            assert(some[k] == init[k]);
        }
        assert forall|i: int|
            #![trigger doomed_ids(nodes, some, sink)[i]]
            0 <= i < doomed_ids(nodes, some, sink).len() implies exists|k: int|
                0 <= k < some.len() && (#[trigger] some[k]).0 == doomed_ids(nodes, some, sink)[i] && is_doomed(
                    nodes,
                    sink,
                    some[k].1,
                ) by {
            if i < r.len() {
                assert(d[i] == r[i]);
                let k = choose|k: int| 0 <= k < init.len() && (#[trigger] init[k]).0 == r[i] && is_doomed(nodes, sink, init[k].1);
                assert(some[k] == init[k]);
            } else {
                assert(some[some.len() - 1] == some.last());
            }
        }
        assert forall|k: int| 0 <= k < some.len() && is_doomed(nodes, sink, (#[trigger] some[k]).1) implies d.contains(
            some[k].0,
        ) by {
            if k < some.len() - 1 {
                assert(init[k] == some[k]);
                let i = choose|i: int| 0 <= i < r.len() && r[i] == init[k].0;
                assert(d[i] == r[i]);
            } else {
                assert(d[d.len() - 1] == some.last().0);
            }
        }
    } else {
        assert(doomed_ids(nodes, some, sink).len() == 0);
    }
}

/// What a teardown destroys is exactly the doomed nodes, once each and by
/// increasing id: the ids rise, and an id is among them if and only if it is
/// that of a node judged doomed for `sink`.
pub proof fn law_teardown_takes_exactly_the_doomed_nodes_in_id_order(nodes: Seq<(u32, PropsView)>, sink: Seq<char>)
    requires
        increasing(nodes),
    ensures
        forall|i: int, j: int|
            0 <= i < j < doomed_ids(nodes, nodes, sink).len() ==> doomed_ids(nodes, nodes, sink)[i] < doomed_ids(
                nodes,
                nodes,
                sink,
            )[j],
        forall|id: u32|
            doomed_ids(nodes, nodes, sink).contains(id) <==> exists|k: int|
                0 <= k < nodes.len() && (#[trigger] nodes[k]).0 == id && is_doomed(nodes, sink, nodes[k].1),
{
    lemma_doomed_ids_exact(nodes, nodes, sink);
    let d = doomed_ids(nodes, nodes, sink);
    assert forall|id: u32| d.contains(id) implies exists|k: int|
        0 <= k < nodes.len() && (#[trigger] nodes[k]).0 == id && is_doomed(nodes, sink, nodes[k].1) by {
        let i = choose|i: int| 0 <= i < d.len() && d[i] == id;
    }
}

/// The globals a teardown of `sink_name` destroys whoever owns them, by
/// increasing id: the sink itself, matched by exact name; each capture stream
/// reading it, recognised by `media.class = Stream/Input/Audio` or
/// `stream.capture.sink = true`; and every node sharing such a stream's
/// non-empty `node.link-group`. A hardware node is never selected, and an
/// empty name selects nothing.
pub fn foreign_combined_globals(mirror: &Mirror, sink_name: &str) -> (ids: Vec<u32>)
    ensures
        ids@ == doomed_ids(mirror.node_list(), mirror.node_list(), sink_name@),
        mirror.wf() ==> forall|i: int, j: int| 0 <= i < j < ids@.len() ==> ids@[i] < ids@[j],
{
    let ghost nodes = mirror.node_list();
    let named = sink_name.unicode_len() > 0;
    let mut groups: Vec<String> = Vec::new();
    let mut k: usize = 0;
    while k < mirror.nodes.len()
        invariant
            nodes == mirror.node_list(),
            k <= nodes.len(),
            forall|g: Seq<char>|
                crate::text::string_views(groups@).contains(g) <==> exists|j: int|
                    0 <= j < k && captures_sink((#[trigger] nodes[j]).1, sink_name@) && group_of(nodes[j].1)
                        == Some(g),
        decreases mirror.nodes.len() - k,
    {
        assert(nodes[k as int] == (mirror.nodes@[k as int].0, mirror.nodes@[k as int].1@));
        let node = &mirror.nodes[k].1;
        let ghost before = crate::text::string_views(groups@);
        let captures = node.prop("device.api").is_none() && (node.prop_is("media.class", "Stream/Input/Audio")
            || node.prop_is("stream.capture.sink", "true")) && node.prop_is("target.object", sink_name);
        if captures {
            match node.prop("node.link-group") {
                Some(g) => {
                    if g.unicode_len() > 0 {
                        groups.push(g.to_owned());
                        assert(crate::text::string_views(groups@) =~= before.push(g@));
                    }
                },
                None => {},
            }
        }
        assert forall|g: Seq<char>|
            crate::text::string_views(groups@).contains(g) <==> exists|j: int|
                0 <= j < k + 1 && captures_sink((#[trigger] nodes[j]).1, sink_name@) && group_of(nodes[j].1)
                    == Some(g) by {
            if crate::text::string_views(groups@).contains(g) && !before.contains(g) {
                let i = choose|i: int| 0 <= i < crate::text::string_views(groups@).len() && crate::text::string_views(groups@)[i] == g;
                assert(i == before.len());
            }
            if before.contains(g) {
                let i = choose|i: int| 0 <= i < before.len() && before[i] == g;
                assert(crate::text::string_views(groups@)[i] == g);
            }
            if exists|j: int| 0 <= j < k + 1 && captures_sink((#[trigger] nodes[j]).1, sink_name@) && group_of(nodes[j].1) == Some(g) {
                let j = choose|j: int| 0 <= j < k + 1 && captures_sink((#[trigger] nodes[j]).1, sink_name@) && group_of(nodes[j].1) == Some(g);
                if j == k {
                    let views = crate::text::string_views(groups@);
                    assert(views[views.len() - 1] == g);
                }
            }
        }
        k = k + 1;
    }
    let ghost gset = crate::text::string_views(groups@);
    let mut ids: Vec<u32> = Vec::new();
    let mut k: usize = 0;
    while k < mirror.nodes.len()
        invariant
            nodes == mirror.node_list(),
            k <= nodes.len(),
            named == (sink_name@.len() > 0),
            gset == crate::text::string_views(groups@),
            forall|g: Seq<char>| gset.contains(g) <==> doomed_group(nodes, sink_name@, g),
            ids@ == doomed_ids(nodes, nodes.take(k as int), sink_name@),
        decreases mirror.nodes.len() - k,
    {
        assert(nodes[k as int] == (mirror.nodes@[k as int].0, mirror.nodes@[k as int].1@));
        assert(nodes.take(k + 1).drop_last() =~= nodes.take(k as int));
        let node = &mirror.nodes[k].1;
        let in_group = match node.prop("node.link-group") {
            Some(g) => contains_str(&groups, g),
            None => false,
        };
        let captures = (node.prop_is("media.class", "Stream/Input/Audio") || node.prop_is(
            "stream.capture.sink",
            "true",
        )) && node.prop_is("target.object", sink_name);
        if named && node.prop("device.api").is_none() && (node.prop_is("node.name", sink_name) || captures
            || in_group) {
            ids.push(mirror.nodes[k].0);
        }
        assert(ids@ =~= doomed_ids(nodes, nodes.take(k + 1), sink_name@));
        k = k + 1;
    }
    assert(nodes.take(nodes.len() as int) =~= nodes);
    proof {
        if mirror.wf() {
            mirror.lemma_node_list_increasing();
            law_teardown_takes_exactly_the_doomed_nodes_in_id_order(nodes, sink_name@);
        }
    }
    ids
}

// ─── Volume routes ─────────────────────────────────────────────────────────

/// Where a sink's volume lives: the device global and the `Route` device index.
#[derive(Debug, Clone, Copy, PartialEq, Eq)]
pub struct RouteTarget {
    /// The device global carrying the route.
    pub device_id: u32,
    /// The route's `device` index on that device.
    pub route_device: i32,
}

/// The route a node's properties name: its `device.id` and its
/// `card.profile.device`, both readable as numbers.
pub open spec fn route_of(p: PropsView) -> Option<RouteTarget> {
    match (lookup(p, "device.id"@), lookup(p, "card.profile.device"@)) {
        (Some(a), Some(b)) => match (spec_parse_u32(a), spec_parse_i32(b)) {
            (Some(device_id), Some(route_device)) => Some(RouteTarget { device_id, route_device }),
            _ => None,
        },
        _ => None,
    }
}

/// The route of the first node named exactly `sink` that names one.
pub open spec fn spec_route_target(nodes: Seq<(u32, PropsView)>, sink: Seq<char>) -> Option<RouteTarget>
    decreases nodes.len(),
{
    if nodes.len() == 0 || sink.len() == 0 {
        None
    } else if has_prop(nodes[0].1, "node.name"@, sink) && route_of(nodes[0].1) is Some {
        route_of(nodes[0].1)
    } else {
        spec_route_target(nodes.drop_first(), sink)
    }
}

/// The route a node's properties name, if both numbers read.
fn node_route(node: &GlobalProps) -> (route: Option<RouteTarget>)
    ensures
        route == route_of(node@),
{
    match (node.prop("device.id"), node.prop("card.profile.device")) {
        (Some(a), Some(b)) => {
            let av = chars_of(a);
            let bv = chars_of(b);
            proof {
                assert(av@.subrange(0, av@.len() as int) =~= a@);
                assert(bv@.subrange(0, bv@.len() as int) =~= b@);
            }
            match (parse_u32(&av, 0, av.len()), parse_i32(&bv, 0, bv.len())) {
                (Some(device_id), Some(route_device)) => Some(RouteTarget { device_id, route_device }),
                _ => None,
            }
        },
        _ => None,
    }
}

/// The device and `Route` index carrying `sink`'s volume: those of the first
/// node named exactly `sink` whose `device.id` and `card.profile.device` both
/// read as numbers. A sink with no device (the null sink itself) has no route,
/// and an empty name resolves nothing.
pub fn route_target(mirror: &Mirror, sink: &str) -> (target: Option<RouteTarget>)
    ensures
        target == spec_route_target(mirror.node_list(), sink@),
{
    let ghost nodes = mirror.node_list();
    if sink.unicode_len() == 0 {
        return None;
    }
    assert(nodes.skip(0) =~= nodes);
    let mut k: usize = 0;
    while k < mirror.nodes.len()
        invariant
            nodes == mirror.node_list(),
            sink@.len() > 0,
            k <= nodes.len(),
            spec_route_target(nodes, sink@) == spec_route_target(nodes.skip(k as int), sink@),
        decreases mirror.nodes.len() - k,
    {
        assert(nodes[k as int] == (mirror.nodes@[k as int].0, mirror.nodes@[k as int].1@));
        assert(nodes.skip(k as int)[0] == nodes[k as int]);
        assert(nodes.skip(k as int).drop_first() =~= nodes.skip(k + 1));
        let node = &mirror.nodes[k].1;
        if node.prop_is("node.name", sink) {
            let route = node_route(node);
            if route.is_some() {
                return route;
            }
        }
        k = k + 1;
    }
    None
}

// ─── What the graph loads ──────────────────────────────────────────────────

/// The properties the combined sink's `adapter` node is created with.
pub open spec fn spec_combined_sink_props(sink_name: Seq<char>) -> PropsView {
    seq![
        ("factory.name"@, "support.null-audio-sink"@),
        ("node.name"@, sink_name),
        ("node.description"@, sink_name),
        ("media.class"@, "Audio/Sink"@),
        ("audio.position"@, "FL,FR"@),
        ("monitor.channel-volumes"@, "true"@),
    ]
}

/// An owned property pair.
fn owned_pair(key: &str, value: &str) -> (pair: (String, String))
    ensures
        pair.0@ == key@,
        pair.1@ == value@,
{
    (key.to_owned(), value.to_owned())
}

/// The properties the combined sink's `adapter` node is created with: a
/// stereo `support.null-audio-sink` named `sink_name`, whose monitor applies
/// the sink's volume so that a volume set on it reaches every speaker.
pub fn combined_sink_props(sink_name: &str) -> (props: Vec<(String, String)>)
    ensures
        pair_views(props@) == spec_combined_sink_props(sink_name@),
{
    let mut props: Vec<(String, String)> = Vec::new();
    props.push(owned_pair("factory.name", NULL_SINK_FACTORY));
    props.push(owned_pair("node.name", sink_name));
    props.push(owned_pair("node.description", sink_name));
    props.push(owned_pair("media.class", "Audio/Sink"));
    props.push(owned_pair("audio.position", "FL,FR"));
    props.push(owned_pair("monitor.channel-volumes", "true"));
    assert(pair_views(props@) =~= spec_combined_sink_props(sink_name@));
    props
}

/// The lower-case hexadecimal digit of `d`, below 16.
pub open spec fn hex_digit(d: u32) -> char {
    if d < 10 {
        ('0' as u32 + d) as char
    } else {
        ('a' as u32 + d - 10) as char
    }
}

/// `c` as it stands inside a JSON string: `"` and `\` take a backslash;
/// backspace, tab, line feed, form feed and carriage return take their short
/// escapes `\b \t \n \f \r`; any other character below U+0020 becomes `\u00`
/// and two lower-case hexadecimal digits; every other character stands as it is.
pub open spec fn json_escape(c: char) -> Seq<char> {
    if c == '"' {
        seq!['\\', '"']
    } else if c == '\\' {
        seq!['\\', '\\']
    } else if c == '\u{8}' {
        seq!['\\', 'b']
    } else if c == '\t' {
        seq!['\\', 't']
    } else if c == '\n' {
        seq!['\\', 'n']
    } else if c == '\u{c}' {
        seq!['\\', 'f']
    } else if c == '\r' {
        seq!['\\', 'r']
    } else if (c as u32) < 0x20 {
        seq!['\\', 'u', '0', '0', hex_digit((c as u32) / 16), hex_digit((c as u32) % 16)]
    } else {
        seq![c]
    }
}

/// Each character of `s` as it stands inside a JSON string.
pub open spec fn json_escaped(s: Seq<char>) -> Seq<char>
    decreases s.len(),
{
    if s.len() == 0 {
        seq![]
    } else {
        json_escaped(s.drop_last()) + json_escape(s.last())
    }
}

/// `s` as a JSON string literal: quoted, each character escaped as
/// [`json_escape`] says.
pub open spec fn json_string(s: Seq<char>) -> Seq<char> {
    seq!['"'] + json_escaped(s) + seq!['"']
}

/// `s` as a JSON string literal.
///
/// Trusted: calls `serde_json::to_string` on the string. serde_json writes a
/// `str` between two quotes, byte run by byte run, replacing each byte its
/// escape table marks (`"`, `\`, and the bytes below 0x20) by its escape and
/// copying every other byte, so every character above U+001F but `"` and `\`
/// stands as it is; it never fails on a `str`. The result is [`json_string`].
#[verifier::external_body]
fn json_string_of(s: &str) -> (json: String)
    ensures
        json@ == json_string(s@),
{
    match serde_json::to_string(s) {
        Ok(json) => json,
        Err(_) => String::new(),
    }
}

/// The value the `default` metadata's configured sink is set to for `sink`:
/// the JSON object `{"name":<sink>}`.
pub open spec fn spec_default_sink_metadata_value(sink: Seq<char>) -> Seq<char> {
    "{\"name\":"@ + json_string(sink) + "}"@
}

/// The value the `default` metadata's configured sink is set to for `sink`.
pub fn default_sink_metadata_value(sink: &str) -> (value: String)
    ensures
        value@ == spec_default_sink_metadata_value(sink@),
{
    let mut value = String::from_str("{\"name\":");
    let json = json_string_of(sink);
    value.append(json.as_str());
    value.append("}");
    value
}

/// The message refusing an empty `what` name.
pub open spec fn empty_name_message(what: Seq<char>) -> Seq<char> {
    "empty "@ + what + " name refused"@
}

/// Refuse an empty name before it reaches the loop: an empty name is a
/// wildcard to every match below it, never "no node".
pub fn named(what: &str, name: &str) -> (r: Result<(), AudioError>)
    ensures
        name@.len() > 0 ==> r is Ok,
        name@.len() == 0 ==> (r matches Err(AudioError::PipeWire(m)) && m@ == empty_name_message(what@)),
{
    if name.unicode_len() == 0 {
        let mut m = String::from_str("empty ");
        m.append(what);
        m.append(" name refused");
        return Err(AudioError::PipeWire(m));
    }
    Ok(())
}

/// `value` escaped for a quoted SPA-JSON string: `\` and `"` each take a
/// backslash before them.
pub open spec fn spa_escape(value: Seq<char>) -> Seq<char>
    decreases value.len(),
{
    if value.len() == 0 {
        seq![]
    } else {
        let c = value.last();
        spa_escape(value.drop_last()) + if c == '\\' || c == '"' {
            seq!['\\', c]
        } else {
            seq![c]
        }
    }
}

/// `value` as one quoted SPA-JSON string.
pub open spec fn spa_string(value: Seq<char>) -> Seq<char> {
    seq!['"'] + spa_escape(value) + seq!['"']
}

/// Append `value` to `s` as one quoted SPA-JSON string.
fn push_spa_string(s: &mut String, value: &str)
    ensures
        final(s)@ == old(s)@ + spa_string(value@),
{
    let v = chars_of(value);
    push_char(s, '"');
    let mut i: usize = 0;
    while i < v.len()
        invariant
            v@ == value@,
            i <= v@.len(),
            s@ == old(s)@ + seq!['"'] + spa_escape(v@.take(i as int)),
        decreases v.len() - i,
    {
        let c = v[i];
        assert(v@.take(i + 1).drop_last() =~= v@.take(i as int));
        if c == '\\' || c == '"' {
            push_char(s, '\\');
        }
        push_char(s, c);
        assert(s@ =~= old(s)@ + seq!['"'] + spa_escape(v@.take(i + 1)));
        i = i + 1;
    }
    push_char(s, '"');
    assert(v@.take(v@.len() as int) =~= v@);
    assert(s@ =~= old(s)@ + spa_string(value@));
}

/// `ms` milliseconds in seconds, with three decimals: `120` is `0.120`.
pub open spec fn seconds_text(ms: u32) -> Seq<char> {
    decimal_digits((ms / 1000) as nat) + "."@ + seq![
        spec_digit_char((ms % 1000 / 100) as int),
        spec_digit_char((ms % 100 / 10) as int),
        spec_digit_char((ms % 10) as int),
    ]
}

/// Append `ms` milliseconds to `s` in seconds, with three decimals.
fn push_seconds(s: &mut String, ms: u32)
    ensures
        final(s)@ == old(s)@ + seconds_text(ms),
{
    push_decimal(s, ms / 1000);
    s.append(".");
    push_char(s, digit_char(ms % 1000 / 100));
    push_char(s, digit_char(ms % 100 / 10));
    push_char(s, digit_char(ms % 10));
    assert(final(s)@ =~= old(s)@ + seconds_text(ms));
}

/// The `libpipewire-module-filter-chain` arguments of delay branch `id` into
/// the node `real_sink`, delayed by `delay_ms`: one builtin `delay` node on two
/// channels `FL FR`, loaded with a `max-delay` of [`MAX_DELAY_MS`]; a capture
/// side the session manager never links (the server links it from the
/// combined sink's monitor); a playback side pinned to the speaker that never
/// reconnects elsewhere. Both sides are named after the branch and grouped by it.
pub open spec fn spec_delay_chain_args(real_sink: Seq<char>, delay_ms: u32, id: u32) -> Seq<char> {
    "{ audio.channels = 2 audio.position = [ FL FR ] "@
        + "filter.graph = { nodes = [ { type = builtin name = delay label = delay config = { \"max-delay\" = "@
        + seconds_text(MAX_DELAY_MS) + " } control = { \"Delay (s)\" = "@ + seconds_text(delay_ms)
        + " } } ] } capture.props = { node.name = "@ + spa_string(branch_node_name(id, "in"@))
        + " node.group = "@ + spa_string(branch_group(id)) + " node.autoconnect = false } "@
        + "playback.props = { node.name = "@ + spa_string(branch_node_name(id, "out"@)) + " node.group = "@
        + spa_string(branch_group(id)) + " target.object = "@ + spa_string(real_sink)
        + " node.dont-reconnect = true } }"@
}

/// The `libpipewire-module-filter-chain` argument string for delay branch `id`
/// into `real_sink`, delayed by `delay_ms`. An empty speaker is refused: an
/// empty `target.object` lets the session manager pick any node.
pub fn delay_chain_module_args(real_sink: &str, delay_ms: u32, id: u32) -> (args: Result<String, AudioError>)
    ensures
        real_sink@.len() == 0 ==> (args matches Err(AudioError::PipeWire(m)) && m@ == empty_name_message(
            "target sink"@,
        )),
        real_sink@.len() > 0 ==> (args matches Ok(a) && a@ == spec_delay_chain_args(real_sink@, delay_ms, id)),
{
    match named("target sink", real_sink) {
        Err(e) => return Err(e),
        Ok(()) => {},
    }
    let in_node = branch_node(id, "in");
    let out_node = branch_node(id, "out");
    let group = branch_group_name(id);
    let mut a = String::from_str("{ audio.channels = 2 audio.position = [ FL FR ] ");
    a.append(
        "filter.graph = { nodes = [ { type = builtin name = delay label = delay config = { \"max-delay\" = ",
    );
    push_seconds(&mut a, MAX_DELAY_MS);
    a.append(" } control = { \"Delay (s)\" = ");
    push_seconds(&mut a, delay_ms);
    a.append(" } } ] } capture.props = { node.name = ");
    push_spa_string(&mut a, in_node.as_str());
    a.append(" node.group = ");
    push_spa_string(&mut a, group.as_str());
    a.append(" node.autoconnect = false } ");
    a.append("playback.props = { node.name = ");
    push_spa_string(&mut a, out_node.as_str());
    a.append(" node.group = ");
    push_spa_string(&mut a, group.as_str());
    a.append(" target.object = ");
    push_spa_string(&mut a, real_sink);
    a.append(" node.dont-reconnect = true } }");
    Ok(a)
}

/// The group both streams of loopback branch `id` carry: `blue2th_loop.<id>`.
pub open spec fn loop_group(id: u32) -> Seq<char> {
    "blue2th_loop."@ + decimal_digits(id as nat)
}

/// The `libpipewire-module-loopback` arguments of branch `id` from the
/// combined sink `sink_name` into the node `real_sink`, `latency_ms` late: the
/// capture stream records the combined sink's monitor, the playback stream is
/// pinned to the speaker, neither reconnects elsewhere, and both are named
/// after the branch and grouped by it.
pub open spec fn spec_loopback_args(sink_name: Seq<char>, real_sink: Seq<char>, latency_ms: u32, id: u32) -> Seq<
    char,
> {
    "{ node.group = "@ + spa_string(loop_group(id)) + " target.delay.sec = "@ + seconds_text(latency_ms)
        + " capture.props = { node.name = "@ + spa_string(loop_group(id) + ".in"@) + " target.object = "@
        + spa_string(sink_name) + " stream.capture.sink = true node.dont-reconnect = true } "@
        + "playback.props = { node.name = "@ + spa_string(loop_group(id) + ".out"@) + " target.object = "@
        + spa_string(real_sink) + " node.dont-reconnect = true } }"@
}

/// The `libpipewire-module-loopback` argument string for branch `id` from
/// `sink_name` into `real_sink`, `latency_ms` late. Either name empty is
/// refused, the combined sink first. The loop does not load these: its
/// branches are delay chains ([`delay_chain_module_args`]), whose node names
/// are the ones liveness and unload look a branch up by; a loopback's
/// `blue2th_loop.<id>` nodes are not.
pub fn loopback_module_args(sink_name: &str, real_sink: &str, latency_ms: u32, id: u32) -> (args: Result<
    String,
    AudioError,
>)
    ensures
        sink_name@.len() == 0 ==> (args matches Err(AudioError::PipeWire(m)) && m@ == empty_name_message(
            "sink"@,
        )),
        sink_name@.len() > 0 && real_sink@.len() == 0 ==> (args matches Err(AudioError::PipeWire(m)) && m@
            == empty_name_message("target sink"@)),
        sink_name@.len() > 0 && real_sink@.len() > 0 ==> (args matches Ok(a) && a@ == spec_loopback_args(
            sink_name@,
            real_sink@,
            latency_ms,
            id,
        )),
{
    match named("sink", sink_name) {
        Err(e) => return Err(e),
        Ok(()) => {},
    }
    match named("target sink", real_sink) {
        Err(e) => return Err(e),
        Ok(()) => {},
    }
    let mut group = String::from_str("blue2th_loop.");
    let digits = u32_to_decimal(id);
    group.append(digits.as_str());
    let mut capture = group.clone();
    capture.append(".in");
    let mut playback = group.clone();
    playback.append(".out");
    let mut a = String::from_str("{ node.group = ");
    push_spa_string(&mut a, group.as_str());
    a.append(" target.delay.sec = ");
    push_seconds(&mut a, latency_ms);
    a.append(" capture.props = { node.name = ");
    push_spa_string(&mut a, capture.as_str());
    a.append(" target.object = ");
    push_spa_string(&mut a, sink_name);
    a.append(" stream.capture.sink = true node.dont-reconnect = true } ");
    a.append("playback.props = { node.name = ");
    push_spa_string(&mut a, playback.as_str());
    a.append(" target.object = ");
    push_spa_string(&mut a, real_sink);
    a.append(" node.dont-reconnect = true } }");
    Ok(a)
}

// ─── The loop's state ──────────────────────────────────────────────────────

/// Opens a connection to the daemon from the loop.
pub trait Connector {
    /// The client-side context every connection is opened from.
    type Context;
    /// What the loop holds while connected.
    type Connection;
    /// One module loaded into the server process.
    type Module;
    /// The proxy owning a combined null sink.
    type NullSink;

    /// Create the context. It needs no daemon.
    fn context(&mut self) -> Result<Self::Context, AudioError>;

    /// Connect to the daemon from `context`; an `Err` is "no daemon".
    fn connect(&mut self, context: &Self::Context) -> Result<Self::Connection, AudioError>;
}

/// A module the loop keeps: the combined sink it belongs to, the branch it
/// carries, and the module itself.
pub type KeptModule<M> = (String, CombineBranch, M);

/// A kept module as the combined sink's name and the branch's pair.
pub open spec fn module_view<M>() -> spec_fn(KeptModule<M>) -> (Seq<char>, (Seq<char>, u32)) {
    |m: KeptModule<M>| (m.0@, bview(m.1))
}

/// The loop's state: the connection, the mirror, and what the graph itself
/// created — the combined sinks' proxies and the branch modules, the latter
/// under the graph's own ids.
pub struct LoopState<C: Connector> {
    connector: C,
    // Before `connection`, so dropped before it: a proxy outliving the core
    // that owns it would be freed twice.
    null_sinks: Vec<(String, C::NullSink)>,
    modules: Vec<(u32, KeptModule<C::Module>)>,
    connection: Option<C::Connection>,
    // After `connection`, so dropped after it: a connection is opened from
    // this context and must not outlive it.
    context: Option<C::Context>,
    mirror: Mirror,
    next_module_id: u32,
    /// The branches whose monitor links wait for their ports, and since when
    /// (milliseconds).
    pending_links: Vec<(u32, u64)>,
    /// Every request the loop sent the daemon, in order, with its answer.
    log: Ghost<Seq<DaemonCall>>,
}

/// One request the loop made of its connector or sent the daemon, with what
/// came back: a client context created and whether it was; a connection
/// attempt and whether it opened; a registry read; a node created from
/// properties; a global destroyed; the default sink's metadata set to a JSON
/// value; a filter-chain module loaded with an argument string; an output
/// port linked to an input port.
pub ghost enum DaemonCall {
    Context(bool),
    Connect(bool),
    Refresh(Result<Mirror, AudioError>),
    CreateNode(Seq<(Seq<char>, Seq<char>)>, bool),
    Destroy(u32),
    SetDefault(Seq<char>, Result<(), AudioError>),
    LoadFilterChain(Seq<char>, bool),
    Link(u32, u32, bool),
}

/// Whether every request of `c` only opens a connection.
pub open spec fn only_opening(c: Seq<DaemonCall>) -> bool {
    forall|k: int| 0 <= k < c.len() ==> (#[trigger] c[k] is Context) || c[k] is Connect
}

/// What a list of requests holds, it still holds with more after it.
proof fn lemma_contains_in_prefix(a: Seq<DaemonCall>, b: Seq<DaemonCall>, x: DaemonCall)
    requires
        a.contains(x),
    ensures
        (a + b).contains(x),
{
    let i = choose|i: int| 0 <= i < a.len() && a[i] == x;
    assert((a + b)[i] == x);
}

/// Requests that only open a connection change nothing, destroy nothing and
/// read nothing.
proof fn lemma_opening(c: Seq<DaemonCall>)
    requires
        only_opening(c),
    ensures
        changes(c) == Seq::<DaemonCall>::empty(),
        destroyed(c) == Seq::<u32>::empty(),
        first_read(c) is None,
    decreases c.len(),
{
    if c.len() > 0 {
        assert(only_opening(c.drop_last())) by {
            assert forall|k: int| 0 <= k < c.drop_last().len() implies (#[trigger] c.drop_last()[k] is Context)
                || c.drop_last()[k] is Connect by {
                assert(c.drop_last()[k] == c[k]);
            }
        }
        lemma_opening(c.drop_last());
        assert(c.last() == c[c.len() - 1]);
    }
}

/// Links change the graph and neither destroy nor read anything.
proof fn lemma_links_only(c: Seq<DaemonCall>)
    requires
        forall|j: int| 0 <= j < c.len() ==> #[trigger] c[j] is Link,
    ensures
        changes(c) == c,
        destroyed(c) == Seq::<u32>::empty(),
        first_read(c) is None,
    decreases c.len(),
{
    if c.len() > 0 {
        assert forall|j: int| 0 <= j < c.drop_last().len() implies #[trigger] c.drop_last()[j] is Link by {
            assert(c.drop_last()[j] == c[j]);
        }
        lemma_links_only(c.drop_last());
        assert(c.last() == c[c.len() - 1]);
        assert(c.drop_last().push(c.last()) =~= c);
    } else {
        assert(c =~= Seq::<DaemonCall>::empty());
    }
}

/// The link of each port pair of `pairs`, accepted.
pub open spec fn link_requests(pairs: Seq<(u32, u32)>) -> Seq<DaemonCall> {
    pairs.map_values(|p: (u32, u32)| DaemonCall::Link(p.0, p.1, true))
}

/// The pairs linking the combined sink `sink`'s monitor outputs to branch
/// `id`'s capture inputs, channel to channel, in the registry `m`.
pub open spec fn monitor_pairs(m: Mirror, sink: Seq<char>, id: u32) -> Seq<(u32, u32)> {
    all_pairs(m.node_list(), m.port_list(), m.port_list(), sink, branch_node_name(id, "in"@))
}

/// Whether `after` is `before` with more requests after it.
pub open spec fn grows(before: Seq<DaemonCall>, after: Seq<DaemonCall>) -> bool {
    before.len() <= after.len() && after.take(before.len() as int) == before
}

/// The requests sent past `before`.
pub open spec fn sent_since(before: Seq<DaemonCall>, after: Seq<DaemonCall>) -> Seq<DaemonCall> {
    after.skip(before.len() as int)
}

/// The globals destroyed by the requests `c`, in order.
pub open spec fn destroyed(c: Seq<DaemonCall>) -> Seq<u32>
    decreases c.len(),
{
    if c.len() == 0 {
        seq![]
    } else {
        match c.last() {
            DaemonCall::Destroy(id) => destroyed(c.drop_last()).push(id),
            _ => destroyed(c.drop_last()),
        }
    }
}

/// The registry the first successful read among the requests `c` returned.
pub open spec fn first_read(c: Seq<DaemonCall>) -> Option<Mirror>
    decreases c.len(),
{
    if c.len() == 0 {
        None
    } else {
        match first_read(c.drop_last()) {
            Some(m) => Some(m),
            None => match c.last() {
                DaemonCall::Refresh(Ok(m)) => Some(m),
                _ => None,
            },
        }
    }
}

/// The requests of `c` that change the graph — every one but a connection
/// attempt and a registry read — in order, with their answers.
pub open spec fn changes(c: Seq<DaemonCall>) -> Seq<DaemonCall>
    decreases c.len(),
{
    if c.len() == 0 {
        seq![]
    } else {
        match c.last() {
            DaemonCall::Context(_) => changes(c.drop_last()),
            DaemonCall::Connect(_) => changes(c.drop_last()),
            DaemonCall::Refresh(_) => changes(c.drop_last()),
            _ => changes(c.drop_last()).push(c.last()),
        }
    }
}

/// Requests sent one stretch after another change what each stretch changes.
proof fn lemma_changes_concat(a: Seq<DaemonCall>, b: Seq<DaemonCall>)
    ensures
        changes(a + b) == changes(a) + changes(b),
    decreases b.len(),
{
    if b.len() == 0 {
        assert(a + b =~= a);
        assert(changes(a) + changes(b) =~= changes(a));
    } else {
        lemma_changes_concat(a, b.drop_last());
        assert((a + b).drop_last() =~= a + b.drop_last());
        assert((a + b).last() == b.last());
        match b.last() {
            DaemonCall::Context(_) => {},
            DaemonCall::Connect(_) => {},
            DaemonCall::Refresh(_) => {},
            _ => {
                assert(changes(a) + changes(b) =~= (changes(a) + changes(b.drop_last())).push(b.last()));
            },
        }
    }
}

/// One request changes the graph unless it connects or reads.
proof fn lemma_changes_one(x: DaemonCall)
    ensures
        changes(seq![x]) == (match x {
            DaemonCall::Context(_) => Seq::<DaemonCall>::empty(),
            DaemonCall::Connect(_) => Seq::<DaemonCall>::empty(),
            DaemonCall::Refresh(_) => Seq::<DaemonCall>::empty(),
            _ => seq![x],
        }),
        destroyed(seq![x]) == (match x {
            DaemonCall::Destroy(id) => seq![id],
            _ => Seq::<u32>::empty(),
        }),
        first_read(seq![x]) == (match x {
            DaemonCall::Refresh(Ok(m)) => Some(m),
            _ => None::<Mirror>,
        }),
{
    assert(seq![x].drop_last() =~= Seq::<DaemonCall>::empty());
    assert(seq![x].last() == x);
    assert(changes(Seq::<DaemonCall>::empty()) =~= Seq::<DaemonCall>::empty());
    assert(destroyed(Seq::<DaemonCall>::empty()) =~= Seq::<u32>::empty());
    assert(first_read(Seq::<DaemonCall>::empty()) is None);
    assert(first_read(seq![x].drop_last()) is None);
    assert(Seq::<DaemonCall>::empty().push(x) =~= seq![x]);
    assert(Seq::<u32>::empty().push(x->Destroy_0) =~= seq![x->Destroy_0]);
}

/// Requests sent one stretch after another destroy what each stretch
/// destroys, and read first what the first stretch read, if it read anything.
proof fn lemma_requests_concat(a: Seq<DaemonCall>, b: Seq<DaemonCall>)
    ensures
        destroyed(a + b) == destroyed(a) + destroyed(b),
        first_read(a + b) == (match first_read(a) {
            Some(m) => Some(m),
            None => first_read(b),
        }),
    decreases b.len(),
{
    if b.len() == 0 {
        assert(a + b =~= a);
        assert(destroyed(a) + destroyed(b) =~= destroyed(a));
    } else {
        lemma_requests_concat(a, b.drop_last());
        assert((a + b).drop_last() =~= a + b.drop_last());
        assert((a + b).last() == b.last());
        match b.last() {
            DaemonCall::Destroy(id) => {
                assert(destroyed(a) + destroyed(b) =~= (destroyed(a) + destroyed(b.drop_last())).push(id));
            },
            _ => {},
        }
    }
}

/// The destruction of each global of `ids`, in order.
pub open spec fn destroy_requests(ids: Seq<u32>) -> Seq<DaemonCall> {
    ids.map_values(|id: u32| DaemonCall::Destroy(id))
}

/// Destroying each global of `ids` destroys exactly `ids` and reads nothing.
proof fn lemma_destroy_requests(ids: Seq<u32>)
    ensures
        destroyed(destroy_requests(ids)) == ids,
        first_read(destroy_requests(ids)) is None,
        changes(destroy_requests(ids)) == destroy_requests(ids),
    decreases ids.len(),
{
    if ids.len() > 0 {
        lemma_destroy_requests(ids.drop_last());
        assert(destroy_requests(ids).drop_last() =~= destroy_requests(ids.drop_last()));
        assert(ids.drop_last().push(ids.last()) =~= ids);
    } else {
        assert(destroy_requests(ids) =~= Seq::<DaemonCall>::empty());
        assert(ids =~= Seq::<u32>::empty());
    }
}

/// Requests sent in two stretches are the first stretch, then the second.
proof fn lemma_sent_split(a: Seq<DaemonCall>, b: Seq<DaemonCall>, c: Seq<DaemonCall>)
    requires
        grows(a, b),
        grows(b, c),
    ensures
        grows(a, c),
        sent_since(a, c) == sent_since(a, b) + sent_since(b, c),
{
    assert(c.take(a.len() as int) =~= b.take(a.len() as int)) by {
        assert forall|i: int| 0 <= i < a.len() implies c.take(a.len() as int)[i] == b.take(a.len() as int)[i] by {
            assert(c[i] == c.take(b.len() as int)[i]);
        }
    }
    assert forall|i: int| 0 <= i < sent_since(a, b).len() implies sent_since(a, c)[i] == sent_since(a, b)[i] by {
        assert(c[a.len() + i] == c.take(b.len() as int)[a.len() + i]);
    }
    assert(sent_since(a, c) =~= sent_since(a, b) + sent_since(b, c));
}

impl<C: Connector> LoopState<C> {
    /// The modules, by increasing id, and the pending links, by increasing id;
    /// no two combined sinks share a name.
    pub closed spec fn wf(&self) -> bool {
        &&& increasing(self.modules@)
        &&& increasing(self.pending_links@)
        &&& forall|i: int, j: int|
            0 <= i < j < self.null_sinks@.len() ==> self.null_sinks@[i].0@ != self.null_sinks@[j].0@
    }

    /// Whether a connection is held.
    pub closed spec fn connected(&self) -> bool {
        self.connection is Some
    }

    /// The context held, if any.
    pub closed spec fn context_state(&self) -> Option<C::Context> {
        self.context
    }

    /// The connector.
    pub closed spec fn connector_state(&self) -> C {
        self.connector
    }

    /// The modules the graph keeps, by increasing id.
    pub closed spec fn module_views(&self) -> Seq<(u32, (Seq<char>, (Seq<char>, u32)))> {
        map_entries(self.modules@, module_view())
    }

    /// The module kept under `id`, if any.
    pub closed spec fn module_of(&self, id: u32) -> Option<C::Module> {
        match entry_of(self.modules@, id) {
            Some(m) => Some(m.2),
            None => None,
        }
    }

    /// The names of the combined sinks the graph owns.
    pub closed spec fn null_sink_names(&self) -> Seq<Seq<char>> {
        self.null_sinks@.map_values(|e: (String, C::NullSink)| e.0@)
    }

    /// The mirror.
    pub closed spec fn mirror_state(&self) -> Mirror {
        self.mirror
    }

    /// The id the next module gets.
    pub closed spec fn next_id(&self) -> u32 {
        self.next_module_id
    }

    /// The branches waiting for their ports, and since when, by increasing id.
    pub closed spec fn pending(&self) -> Seq<(u32, u64)> {
        self.pending_links@
    }

    /// The requests the loop sent the daemon, in order, with their answers.
    pub closed spec fn requests(&self) -> Seq<DaemonCall> {
        self.log@
    }

    /// A loop that has not connected yet.
    pub fn new(connector: C) -> (state: Self)
        ensures
            state.wf(),
            state.connector_state() == connector,
            !state.connected(),
            state.context_state() is None,
            state.module_views().len() == 0,
            state.null_sink_names().len() == 0,
            state.mirror_state().wf(),
            state.mirror_state().node_list().len() == 0,
            state.mirror_state().link_list().len() == 0,
            state.mirror_state().port_list().len() == 0,
            state.mirror_state().device_list().len() == 0,
            state.next_id() == 0,
            state.pending().len() == 0,
            state.requests().len() == 0,
    {
        let st = LoopState {
            connector,
            null_sinks: Vec::new(),
            modules: Vec::new(),
            connection: None,
            context: None,
            mirror: Mirror::new(),
            next_module_id: 0,
            pending_links: Vec::new(),
            log: Ghost(Seq::empty()),
        };
        assert(st.module_views() =~= Seq::<(u32, (Seq<char>, (Seq<char>, u32)))>::empty());
        st
    }

    /// The live connection, connecting first when there is none. One context
    /// serves every attempt for the loop's lifetime: it is created on the
    /// first attempt and kept whatever the connection does.
    pub fn connection(&mut self) -> (r: Result<&mut C::Connection, AudioError>)
        ensures
            old(self).connected() ==> r is Ok && final(self).connector_state() == old(self).connector_state(),
            r is Ok ==> final(self).connected(),
            r is Err ==> !final(self).connected(),
            old(self).context_state() is Some ==> final(self).context_state() == old(self).context_state(),
            !old(self).connected() && r is Ok ==> final(self).context_state() is Some,
            old(self).wf() ==> final(self).wf(),
            final(self).module_views() == old(self).module_views(),
            final(self).null_sink_names() == old(self).null_sink_names(),
            final(self).mirror_state() == old(self).mirror_state(),
            final(self).next_id() == old(self).next_id(),
            final(self).pending() == old(self).pending(),
            old(self).connected() ==> final(self).requests() == old(self).requests(),
            !old(self).connected() && old(self).context_state() is Some ==> final(self).requests() == old(
                self,
            ).requests().push(DaemonCall::Connect(r is Ok)),
            !old(self).connected() && old(self).context_state() is None ==> (final(self).requests() == old(
                self,
            ).requests().push(DaemonCall::Context(false)) && r is Err && final(self).context_state() is None)
                || final(self).requests() == old(self).requests().push(DaemonCall::Context(true)).push(
                DaemonCall::Connect(r is Ok),
            ),
            grows(old(self).requests(), final(self).requests()),
            only_opening(sent_since(old(self).requests(), final(self).requests())),
    {
        let ghost q0 = self.requests();
        assert(q0.take(q0.len() as int) =~= q0);
        assert(sent_since(q0, q0) =~= Seq::<DaemonCall>::empty());
        if self.connection.is_none() {
            if self.context.is_none() {
                let made = self.connector.context();
                proof {
                    self.log@ = self.log@.push(DaemonCall::Context(made is Ok));
                    assert(self.log@.take(q0.len() as int) =~= q0);
                    assert(sent_since(q0, self.log@) =~= seq![DaemonCall::Context(made is Ok)]);
                }
                match made {
                    Ok(context) => {
                        self.context = Some(context);
                    },
                    Err(e) => {
                        return Err(e);
                    },
                }
            }
            let ghost q1 = self.requests();
            let opened = match &self.context {
                Some(context) => self.connector.connect(context),
                None => Err(AudioError::PipeWire(String::from_str("no PipeWire context"))),
            };
            proof {
                self.log@ = self.log@.push(DaemonCall::Connect(opened is Ok));
                assert(self.log@.take(q0.len() as int) =~= q0);
                assert(sent_since(q0, self.log@) =~= sent_since(q0, q1).push(DaemonCall::Connect(opened is Ok)));
            }
            match opened {
                Ok(connection) => {
                    self.connection = Some(connection);
                },
                Err(e) => {
                    return Err(e);
                },
            }
        }
        match &mut self.connection {
            Some(connection) => Ok(connection),
            None => Err(AudioError::PipeWire(String::from_str("no PipeWire connection"))),
        }
    }

    /// Whether a connection is currently held.
    pub fn is_connected(&self) -> (connected: bool)
        ensures
            connected == self.connected(),
    {
        self.connection.is_some()
    }
}

/// The modules of `mods` belonging to the combined sink `sink`, in order, as
/// their ids and branches.
pub open spec fn modules_of(mods: Seq<(u32, (Seq<char>, (Seq<char>, u32)))>, sink: Seq<char>) -> Seq<(u32, (Seq<char>, u32))>
    decreases mods.len(),
{
    if mods.len() == 0 {
        seq![]
    } else {
        let rest = modules_of(mods.drop_last(), sink);
        if mods.last().1.0 == sink {
            rest.push((mods.last().0, mods.last().1.1))
        } else {
            rest
        }
    }
}

/// The waiting branches of `pending` that the graph still keeps, in order,
/// with the combined sink each one is fed from.
pub open spec fn pending_branches(
    pending: Seq<(u32, u64)>,
    mods: Seq<(u32, (Seq<char>, (Seq<char>, u32)))>,
) -> Seq<(u32, Seq<char>)>
    decreases pending.len(),
{
    if pending.len() == 0 {
        seq![]
    } else {
        let rest = pending_branches(pending.drop_last(), mods);
        match entry_of(mods, pending.last().0) {
            Some(m) => rest.push((pending.last().0, m.0)),
            None => rest,
        }
    }
}

/// The id and branch pairs of a list of modules.
pub open spec fn id_branch_views(s: Seq<(u32, CombineBranch)>) -> Seq<(u32, (Seq<char>, u32))> {
    s.map_values(|e: (u32, CombineBranch)| (e.0, bview(e.1)))
}

/// Where the entry of `id` sits in the increasing `v`, if it is there.
fn index_of<T>(v: &Vec<(u32, T)>, id: u32) -> (j: Option<usize>)
    requires
        increasing(v@),
    ensures
        match j {
            Some(j) => j < v@.len() && v@[j as int].0 == id && entry_of(v@, id) == Some(v@[j as int].1),
            None => entry_of(v@, id) is None && without(v@, id) == v@,
        },
{
    let j = position_of(v, id);
    if j < v.len() && v[j].0 == id {
        proof {
            lemma_without_at(v@, id, j as int);
        }
        Some(j)
    } else {
        proof {
            assert forall|k: int| 0 <= k < v@.len() implies v@[k].0 != id by {
                if k > j {
                    assert(v@[j as int].0 < v@[k].0);
                }
            }
            lemma_without_absent(v@, id);
        }
        None
    }
}

impl<C: Connector> LoopState<C> {
    /// The registry mirror.
    pub fn mirror(&self) -> (mirror: &Mirror)
        ensures
            *mirror == self.mirror_state(),
    {
        &self.mirror
    }

    /// The registry mirror, for the listener callbacks.
    pub fn mirror_mut(&mut self) -> (mirror: &mut Mirror)
        ensures
            final(self).requests() == old(self).requests(),
            *mirror == old(self).mirror_state(),
            final(self).mirror_state() == *final(mirror),
            old(self).wf() ==> final(self).wf(),
            final(self).connected() == old(self).connected(),
            final(self).module_views() == old(self).module_views(),
            final(self).null_sink_names() == old(self).null_sink_names(),
            final(self).next_id() == old(self).next_id(),
            final(self).pending() == old(self).pending(),
    {
        &mut self.mirror
    }

    /// Replace the mirror with a fresh reading of the registry.
    pub fn set_mirror(&mut self, mirror: Mirror)
        ensures
            final(self).requests() == old(self).requests(),
            final(self).mirror_state() == mirror,
            old(self).wf() ==> final(self).wf(),
            final(self).connected() == old(self).connected(),
            final(self).module_views() == old(self).module_views(),
            final(self).null_sink_names() == old(self).null_sink_names(),
            final(self).next_id() == old(self).next_id(),
            final(self).pending() == old(self).pending(),
    {
        self.mirror = mirror;
    }

    /// The id [`Self::add_module`] hands the next module.
    pub fn next_module_id(&self) -> (id: u32)
        ensures
            id == self.next_id(),
    {
        self.next_module_id
    }

    /// Keep a loaded module and return the graph's own id for it: the counter
    /// shared by every combined sink, which a lost connection does not reset.
    pub fn add_module(&mut self, sink_name: &str, branch: CombineBranch, module: C::Module) -> (id: u32)
        requires
            old(self).wf(),
        ensures
            final(self).requests() == old(self).requests(),
            final(self).wf(),
            id == old(self).next_id(),
            final(self).next_id() == (if old(self).next_id() == u32::MAX {
                0
            } else {
                (old(self).next_id() + 1) as u32
            }),
            final(self).module_views() == put(old(self).module_views(), id, (sink_name@, bview(branch))),
            final(self).module_of(id) == Some(module),
            final(self).connected() == old(self).connected(),
            final(self).null_sink_names() == old(self).null_sink_names(),
            final(self).mirror_state() == old(self).mirror_state(),
            final(self).pending() == old(self).pending(),
    {
        let id = self.next_module_id;
        self.next_module_id = self.next_module_id.wrapping_add(1);
        let kept: KeptModule<C::Module> = (sink_name.to_owned(), branch, module);
        proof {
            lemma_put_map(self.modules@, id, kept, module_view());
        }
        put_entry(&mut self.modules, id, kept);
        proof {
            lemma_entry_put(old(self).modules@, id, kept);
        }
        id
    }
}

/// The message of a delay retune aimed at a module the graph does not hold.
pub open spec fn no_branch_message(id: u32) -> Seq<char> {
    "no delay branch "@ + decimal_digits(id as nat)
}

impl<C: Connector> LoopState<C> {
    /// The modules the graph loaded for `sink_name`, by increasing id, with
    /// their branches.
    pub fn modules_for(&self, sink_name: &str) -> (mods: Vec<(u32, CombineBranch)>)
        ensures
            id_branch_views(mods@) == modules_of(self.module_views(), sink_name@),
    {
        let ghost views = self.module_views();
        let mut out: Vec<(u32, CombineBranch)> = Vec::new();
        let mut k: usize = 0;
        while k < self.modules.len()
            invariant
                views == self.module_views(),
                k <= views.len(),
                id_branch_views(out@) == modules_of(views.take(k as int), sink_name@),
            decreases self.modules.len() - k,
        {
            assert(views.take(k + 1).drop_last() =~= views.take(k as int));
            let entry = &self.modules[k];
            assert(views[k as int] == (entry.0, (entry.1.0@, bview(entry.1.1))));
            if str_eq(entry.1.0.as_str(), sink_name) {
                let branch = entry.1.1.clone();
                out.push((entry.0, branch));
            }
            assert(id_branch_views(out@) =~= modules_of(views.take(k + 1), sink_name@));
            k = k + 1;
        }
        assert(views.take(views.len() as int) =~= views);
        out
    }

    /// Record that module `id` now runs at `delay_ms`, so that its branch
    /// reports the delay last applied. An id the graph does not hold is an
    /// error, and changes nothing.
    pub fn record_module_delay(&mut self, id: u32, delay_ms: u32) -> (r: Result<(), AudioError>)
        requires
            old(self).wf(),
        ensures
            final(self).requests() == old(self).requests(),
            final(self).wf(),
            match entry_of(old(self).module_views(), id) {
                Some(m) => r is Ok && final(self).module_views() == put(
                    old(self).module_views(),
                    id,
                    (m.0, (m.1.0, delay_ms)),
                ),
                None => (r matches Err(AudioError::PipeWire(msg)) && msg@ == no_branch_message(id))
                    && final(self).module_views() == old(self).module_views(),
            },
            final(self).connected() == old(self).connected(),
            final(self).null_sink_names() == old(self).null_sink_names(),
            final(self).mirror_state() == old(self).mirror_state(),
            final(self).next_id() == old(self).next_id(),
            final(self).pending() == old(self).pending(),
    {
        proof {
            lemma_entry_map(self.modules@, id, module_view());
        }
        match index_of(&self.modules, id) {
            Some(j) => {
                let (key, (sink, branch, module)) = self.modules.remove(j);
                let retuned = CombineBranch { sink: branch.sink, latency_ms: delay_ms };
                let kept: KeptModule<C::Module> = (sink, retuned, module);
                self.modules.insert(j, (key, kept));
                proof {
                    lemma_put_at(old(self).modules@, id, kept, j as int);
                    assert(self.modules@ =~= old(self).modules@.update(j as int, (id, kept)));
                    lemma_put_map(old(self).modules@, id, kept, module_view());
                }
                Ok(())
            },
            None => {
                let mut m = String::from_str("no delay branch ");
                let digits = u32_to_decimal(id);
                m.append(digits.as_str());
                Err(AudioError::PipeWire(m))
            },
        }
    }

    /// Record that branch `id`'s monitor links wait for their ports since
    /// `since` (milliseconds).
    pub fn mark_links_pending(&mut self, id: u32, since: u64)
        requires
            old(self).wf(),
        ensures
            final(self).requests() == old(self).requests(),
            final(self).wf(),
            final(self).pending() == put(old(self).pending(), id, since),
            final(self).connected() == old(self).connected(),
            final(self).module_views() == old(self).module_views(),
            final(self).null_sink_names() == old(self).null_sink_names(),
            final(self).mirror_state() == old(self).mirror_state(),
            final(self).next_id() == old(self).next_id(),
    {
        put_entry(&mut self.pending_links, id, since);
    }

    /// Record that branch `id`'s monitor links are made: it waits no more.
    pub fn mark_links_made(&mut self, id: u32)
        requires
            old(self).wf(),
        ensures
            final(self).requests() == old(self).requests(),
            final(self).wf(),
            final(self).pending() == without(old(self).pending(), id),
            final(self).connected() == old(self).connected(),
            final(self).module_views() == old(self).module_views(),
            final(self).null_sink_names() == old(self).null_sink_names(),
            final(self).mirror_state() == old(self).mirror_state(),
            final(self).next_id() == old(self).next_id(),
    {
        let _ = take_entry(&mut self.pending_links, id);
    }

    /// How long, in milliseconds, branch `id`'s monitor links have waited at
    /// `now`; `None` when they are not waiting. A clock read before the wait
    /// began counts as no wait yet.
    pub fn links_pending_for(&self, id: u32, now: u64) -> (waited: Option<u64>)
        requires
            self.wf(),
        ensures
            waited == match entry_of(self.pending(), id) {
                Some(since) => Some(if now >= since {
                    (now - since) as u64
                } else {
                    0
                }),
                None => None,
            },
    {
        match index_of(&self.pending_links, id) {
            Some(j) => Some(now.saturating_sub(self.pending_links[j].1)),
            None => None,
        }
    }

    /// The branches whose monitor links wait, by increasing id, with the
    /// combined sink each one is fed from.
    pub fn pending_link_branches(&self) -> (waiting: Vec<(u32, String)>)
        requires
            self.wf(),
        ensures
            waiting@.map_values(|e: (u32, String)| (e.0, e.1@)) == pending_branches(
                self.pending(),
                self.module_views(),
            ),
    {
        let ghost pending = self.pending();
        let ghost views = self.module_views();
        let mut out: Vec<(u32, String)> = Vec::new();
        let mut k: usize = 0;
        while k < self.pending_links.len()
            invariant
                self.wf(),
                pending == self.pending(),
                views == self.module_views(),
                k <= pending.len(),
                out@.map_values(|e: (u32, String)| (e.0, e.1@)) == pending_branches(pending.take(k as int), views),
            decreases self.pending_links.len() - k,
        {
            assert(pending.take(k + 1).drop_last() =~= pending.take(k as int));
            let id = self.pending_links[k].0;
            proof {
                lemma_entry_map(self.modules@, id, module_view());
            }
            match index_of(&self.modules, id) {
                Some(j) => {
                    out.push((id, self.modules[j].1.0.clone()));
                },
                None => {},
            }
            assert(out@.map_values(|e: (u32, String)| (e.0, e.1@)) =~= pending_branches(pending.take(k + 1), views));
            k = k + 1;
        }
        assert(pending.take(pending.len() as int) =~= pending);
        out
    }

    /// Forget module `id` and hand it back for destruction; its wait for
    /// ports, if any, ends with it.
    pub fn take_module(&mut self, id: u32) -> (module: Option<C::Module>)
        requires
            old(self).wf(),
        ensures
            final(self).requests() == old(self).requests(),
            final(self).wf(),
            module == old(self).module_of(id),
            final(self).module_views() == without(old(self).module_views(), id),
            final(self).module_of(id) is None,
            final(self).pending() == without(old(self).pending(), id),
            final(self).connected() == old(self).connected(),
            final(self).null_sink_names() == old(self).null_sink_names(),
            final(self).mirror_state() == old(self).mirror_state(),
            final(self).next_id() == old(self).next_id(),
    {
        proof {
            lemma_without_map(self.modules@, id, module_view());
        }
        let taken = take_entry(&mut self.modules, id);
        let _ = take_entry(&mut self.pending_links, id);
        proof {
            lemma_entry_without(old(self).modules@, id);
        }
        match taken {
            Some((_, _, module)) => Some(module),
            None => None,
        }
    }
}

/// Whether `name` is a null sink the graph does not own: some node carries
/// that exact name and was made by the null-sink factory.
pub open spec fn spec_is_foreign_null_sink(owned: Seq<Seq<char>>, nodes: Seq<(u32, PropsView)>, name: Seq<char>) -> bool {
    &&& !owned.contains(name)
    &&& name.len() > 0
    &&& exists|k: int|
        0 <= k < nodes.len() && has_prop((#[trigger] nodes[k]).1, "node.name"@, name) && has_prop(
            nodes[k].1,
            "factory.name"@,
            "support.null-audio-sink"@,
        )
}

/// The names of `names` that are no null sink the graph does not own, in order.
pub open spec fn visible_sinks(names: Seq<Seq<char>>, owned: Seq<Seq<char>>, nodes: Seq<(u32, PropsView)>) -> Seq<Seq<char>>
    decreases names.len(),
{
    if names.len() == 0 {
        seq![]
    } else {
        let rest = visible_sinks(names.drop_last(), owned, nodes);
        if spec_is_foreign_null_sink(owned, nodes, names.last()) {
            rest
        } else {
            rest.push(names.last())
        }
    }
}

/// What the graph reads back for the combined sink `sink_name` at `now`: each
/// module it keeps for that sink, by increasing id, with the branch it carries
/// and that branch's liveness as [`spec_branch_live`] reads it.
pub open spec fn spec_loaded_branches(
    mods: Seq<(u32, (Seq<char>, u32))>,
    nodes: Seq<(u32, PropsView)>,
    links: Seq<(u32, LinkEntry)>,
    pending: Seq<(u32, u64)>,
    sink_name: Seq<char>,
    now: u64,
) -> Seq<(u32, (Seq<char>, u32), Option<bool>)>
    decreases mods.len(),
{
    if mods.len() == 0 {
        seq![]
    } else {
        let m = mods.last();
        let waited = match entry_of(pending, m.0) {
            Some(since) => Some(if now >= since {
                (now - since) as u64
            } else {
                0u64
            }),
            None => None,
        };
        spec_loaded_branches(mods.drop_last(), nodes, links, pending, sink_name, now).push(
            (m.0, m.1, spec_branch_live(nodes, links, m.0, sink_name, m.1.0, waited)),
        )
    }
}

/// Taking the one entry `names[k]` out of a list whose entries are distinct
/// takes exactly that name out of its set, and keeps the rest distinct.
pub proof fn lemma_remove_unique(names: Seq<Seq<char>>, k: int)
    requires
        0 <= k < names.len(),
        forall|i: int, j: int| 0 <= i < j < names.len() ==> names[i] != names[j],
    ensures
        names.remove(k).to_set() == names.to_set().remove(names[k]),
        !names.remove(k).contains(names[k]),
        forall|i: int, j: int| 0 <= i < j < names.remove(k).len() ==> names.remove(k)[i] != names.remove(k)[j],
{
    let r = names.remove(k);
    assert forall|x: Seq<char>| r.contains(x) <==> names.contains(x) && x != names[k] by {
        if names.contains(x) && x != names[k] {
            let i = choose|i: int| 0 <= i < names.len() && names[i] == x;
            if i < k {
                assert(r[i] == x);
            } else {
                assert(r[i - 1] == x);
            }
        }
        if r.contains(x) {
            let i = choose|i: int| 0 <= i < r.len() && r[i] == x;
            if i < k {
                assert(names[i] == x);
            } else {
                assert(names[i + 1] == x);
            }
        }
    }
    assert(r.to_set() =~= names.to_set().remove(names[k]));
    assert forall|i: int, j: int| 0 <= i < j < r.len() implies r[i] != r[j] by {
        let a = if i < k { i } else { i + 1 };
        let b = if j < k { j } else { j + 1 };
        assert(r[i] == names[a]);
        assert(r[j] == names[b]);
    }
}

impl<C: Connector> LoopState<C> {
    /// Where the proxy of the combined sink `sink_name` is kept, if it is.
    fn find_null_sink(&self, sink_name: &str) -> (k: Option<usize>)
        ensures
            match k {
                Some(k) => k < self.null_sink_names().len() && self.null_sink_names()[k as int] == sink_name@,
                None => !self.null_sink_names().contains(sink_name@),
            },
    {
        let ghost names = self.null_sink_names();
        let mut k: usize = 0;
        while k < self.null_sinks.len()
            invariant
                names == self.null_sink_names(),
                k <= names.len(),
                forall|j: int| 0 <= j < k ==> names[j] != sink_name@,
            decreases self.null_sinks.len() - k,
        {
            if str_eq(self.null_sinks[k].0.as_str(), sink_name) {
                return Some(k);
            }
            k = k + 1;
        }
        None
    }

    /// Keep the proxy owning the combined sink `sink_name`, in place of any
    /// proxy kept for that name.
    pub fn set_null_sink(&mut self, sink_name: &str, proxy: C::NullSink)
        requires
            old(self).wf(),
        ensures
            final(self).requests() == old(self).requests(),
            final(self).wf(),
            final(self).null_sink_names().to_set() == old(self).null_sink_names().to_set().insert(sink_name@),
            final(self).connected() == old(self).connected(),
            final(self).module_views() == old(self).module_views(),
            final(self).mirror_state() == old(self).mirror_state(),
            final(self).next_id() == old(self).next_id(),
            final(self).pending() == old(self).pending(),
    {
        let _ = self.take_null_sink(sink_name);
        let ghost before = self.null_sink_names();
        self.null_sinks.push((sink_name.to_owned(), proxy));
        proof {
            assert(self.null_sink_names() =~= before.push(sink_name@));
            assert forall|i: int, j: int|
                0 <= i < j < self.null_sinks@.len() implies self.null_sinks@[i].0@ != self.null_sinks@[j].0@ by {
                assert(self.null_sinks@[i].0@ == self.null_sink_names()[i]);
                assert(self.null_sinks@[j].0@ == self.null_sink_names()[j]);
                if j == before.len() {
                    assert(before[i] == self.null_sink_names()[i]);
                }
            }
            before.lemma_push_to_set_commute(sink_name@);
            assert(self.null_sink_names().to_set() =~= before.to_set().insert(sink_name@));
            assert(old(self).null_sink_names().to_set().insert(sink_name@) =~= before.to_set().insert(sink_name@));
        }
    }

    /// Forget the proxy owning the combined sink `sink_name` and hand it back.
    pub fn take_null_sink(&mut self, sink_name: &str) -> (proxy: Option<C::NullSink>)
        requires
            old(self).wf(),
        ensures
            final(self).requests() == old(self).requests(),
            final(self).wf(),
            proxy is Some == old(self).null_sink_names().contains(sink_name@),
            !final(self).null_sink_names().contains(sink_name@),
            final(self).null_sink_names().to_set() == old(self).null_sink_names().to_set().remove(sink_name@),
            final(self).connected() == old(self).connected(),
            final(self).module_views() == old(self).module_views(),
            final(self).mirror_state() == old(self).mirror_state(),
            final(self).next_id() == old(self).next_id(),
            final(self).pending() == old(self).pending(),
    {
        let ghost names = self.null_sink_names();
        match self.find_null_sink(sink_name) {
            Some(k) => {
                proof {
                    assert forall|i: int, j: int| 0 <= i < j < names.len() implies names[i] != names[j] by {
                        assert(names[i] == self.null_sinks@[i].0@);
                        assert(names[j] == self.null_sinks@[j].0@);
                    }
                    lemma_remove_unique(names, k as int);
                }
                let (_, proxy) = self.null_sinks.remove(k);
                proof {
                    assert(self.null_sink_names() =~= names.remove(k as int));
                    assert forall|i: int, j: int|
                        0 <= i < j < self.null_sinks@.len() implies self.null_sinks@[i].0@ != self.null_sinks@[j].0@ by {
                        assert(self.null_sinks@[i].0@ == self.null_sink_names()[i]);
                        assert(self.null_sinks@[j].0@ == self.null_sink_names()[j]);
                    }
                }
                Some(proxy)
            },
            None => {
                assert(names.to_set() =~= names.to_set().remove(sink_name@));
                None
            },
        }
    }

    /// Whether the graph itself owns the combined sink `sink_name`.
    pub fn owns_null_sink(&self, sink_name: &str) -> (owned: bool)
        ensures
            owned == self.null_sink_names().contains(sink_name@),
    {
        self.find_null_sink(sink_name).is_some()
    }

    /// Whether `name` is a null sink this graph does not own: a leftover a
    /// build must replace, never reuse, or its own branches would keep feeding
    /// the speakers next to the ones this graph loads.
    pub fn is_foreign_null_sink(&self, name: &str) -> (foreign: bool)
        ensures
            foreign == spec_is_foreign_null_sink(
                self.null_sink_names(),
                self.mirror_state().node_list(),
                name@,
            ),
    {
        if self.owns_null_sink(name) || name.unicode_len() == 0 {
            return false;
        }
        let ghost nodes = self.mirror.node_list();
        let mut k: usize = 0;
        while k < self.mirror.nodes.len()
            invariant
                !self.null_sink_names().contains(name@),
                name@.len() > 0,
                nodes == self.mirror.node_list(),
                k <= nodes.len(),
                forall|j: int|
                    0 <= j < k ==> !(has_prop((#[trigger] nodes[j]).1, "node.name"@, name@) && has_prop(
                        nodes[j].1,
                        "factory.name"@,
                        "support.null-audio-sink"@,
                    )),
            decreases self.mirror.nodes.len() - k,
        {
            assert(nodes[k as int] == (self.mirror.nodes@[k as int].0, self.mirror.nodes@[k as int].1@));
            let node = &self.mirror.nodes[k].1;
            if node.prop_is("node.name", name) && node.prop_is("factory.name", NULL_SINK_FACTORY) {
                assert(has_prop(nodes[k as int].1, "node.name"@, name@));
                assert(has_prop(nodes[k as int].1, "factory.name"@, "support.null-audio-sink"@));
                return true;
            }
            k = k + 1;
        }
        false
    }

    /// The mirror's sinks, in id order, less the null sinks this graph does
    /// not own.
    pub fn listed_sinks(&self) -> (sinks: Vec<String>)
        ensures
            crate::text::string_views(sinks@) == visible_sinks(
                spec_sink_names(self.mirror_state().node_list()),
                self.null_sink_names(),
                self.mirror_state().node_list(),
            ),
    {
        let names = sink_names(&self.mirror);
        let ghost all = crate::text::string_views(names@);
        let mut out: Vec<String> = Vec::new();
        let mut k: usize = 0;
        while k < names.len()
            invariant
                all == crate::text::string_views(names@),
                all == spec_sink_names(self.mirror.node_list()),
                k <= all.len(),
                crate::text::string_views(out@) == visible_sinks(
                    all.take(k as int),
                    self.null_sink_names(),
                    self.mirror.node_list(),
                ),
            decreases names.len() - k,
        {
            assert(all.take(k + 1).drop_last() =~= all.take(k as int));
            if !self.is_foreign_null_sink(names[k].as_str()) {
                out.push(names[k].clone());
            }
            assert(crate::text::string_views(out@) =~= visible_sinks(
                all.take(k + 1),
                self.null_sink_names(),
                self.mirror.node_list(),
            ));
            k = k + 1;
        }
        assert(all.take(all.len() as int) =~= all);
        out
    }

    /// The connection is gone: forget the proxies and the modules (a loopback
    /// unloads itself with its core), the connection, the mirror of the dead
    /// daemon and every wait for ports. The context stays, so the next command
    /// reconnects from it, and the id counter stays, so no id is reused.
    pub fn on_disconnect(&mut self)
        ensures
            final(self).requests() == old(self).requests(),
            final(self).wf(),
            !final(self).connected(),
            final(self).context_state() == old(self).context_state(),
            final(self).module_views().len() == 0,
            forall|id: u32| #[trigger] final(self).module_of(id) is None,
            final(self).null_sink_names().len() == 0,
            final(self).mirror_state().wf(),
            final(self).mirror_state().node_list().len() == 0,
            final(self).mirror_state().link_list().len() == 0,
            final(self).mirror_state().port_list().len() == 0,
            final(self).mirror_state().device_list().len() == 0,
            final(self).pending().len() == 0,
            final(self).next_id() == old(self).next_id(),
    {
        self.null_sinks = Vec::new();
        self.modules = Vec::new();
        self.connection = None;
        self.mirror = Mirror::new();
        self.pending_links = Vec::new();
        assert(self.module_views() =~= Seq::<(u32, (Seq<char>, (Seq<char>, u32)))>::empty());
        assert(self.null_sink_names() =~= Seq::<Seq<char>>::empty());
    }

    /// What the graph reads back for the combined sink `sink_name` at `now`
    /// (milliseconds): each module it keeps for that sink, with the branch it
    /// carries and its liveness — "cannot tell" while the branch still waits
    /// for its ports within the grace.
    pub fn loaded_branches(&self, sink_name: &str, now: u64) -> (read: Vec<LoadedBranch>)
        requires
            self.wf(),
        ensures
            read@.map_values(|b: LoadedBranch| loaded_view(b)) == spec_loaded_branches(
                modules_of(self.module_views(), sink_name@),
                self.mirror_state().node_list(),
                self.mirror_state().link_list(),
                self.pending(),
                sink_name@,
                now,
            ),
    {
        let mods = self.modules_for(sink_name);
        let ghost mv = id_branch_views(mods@);
        let mut read: Vec<LoadedBranch> = Vec::new();
        let mut k: usize = 0;
        while k < mods.len()
            invariant
                self.wf(),
                mv == id_branch_views(mods@),
                mv == modules_of(self.module_views(), sink_name@),
                k <= mv.len(),
                read@.map_values(|b: LoadedBranch| loaded_view(b)) == spec_loaded_branches(
                    mv.take(k as int),
                    self.mirror.node_list(),
                    self.mirror.link_list(),
                    self.pending_links@,
                    sink_name@,
                    now,
                ),
            decreases mods.len() - k,
        {
            assert(mv.take(k + 1).drop_last() =~= mv.take(k as int));
            let id = mods[k].0;
            let branch = mods[k].1.clone();
            let waited = self.links_pending_for(id, now);
            let live = branch_live(&self.mirror, id, sink_name, branch.sink.as_str(), waited);
            read.push(LoadedBranch { id, branch, live });
            assert(read@.map_values(|b: LoadedBranch| loaded_view(b)) =~= spec_loaded_branches(
                mv.take(k + 1),
                self.mirror.node_list(),
                self.mirror.link_list(),
                self.pending_links@,
                sink_name@,
                now,
            ));
            k = k + 1;
        }
        assert(mv.take(mv.len() as int) =~= mv);
        read
    }
}

// ─── The graph's operations against the daemon ─────────────────────────────

/// A [`Connector`] whose connections answer what the graph asks of the daemon.
/// Each call talks to the daemon: nothing is assumed of what it answers. The
/// loop records every request it sends, with the answer
/// ([`LoopState::requests`]), and its operations say over that record which
/// requests change the graph.
pub trait DaemonConnector: Connector {
    /// The daemon's registry, read anew.
    fn refresh(connection: &mut Self::Connection) -> Result<Mirror, AudioError>;

    /// Create a node from the `adapter` factory with `props`; the proxy
    /// returned owns it, and dropping the proxy destroys it.
    fn create_node(connection: &mut Self::Connection, props: &Vec<(String, String)>) -> Result<
        Self::NullSink,
        AudioError,
    >;

    /// Load `libpipewire-module-filter-chain` with `args`; the module
    /// returned keeps it loaded.
    fn load_filter_chain(connection: &mut Self::Connection, args: &str) -> Result<Self::Module, AudioError>;

    /// Link the output port `output_port` to the input port `input_port`.
    fn link_ports(connection: &mut Self::Connection, output_port: u32, input_port: u32) -> Result<(), AudioError>;

    /// Destroy the global `id`, whoever owns it. Best effort.
    fn destroy_global(connection: &mut Self::Connection, id: u32);

    /// Set the `default` metadata's `default.configured.audio.sink` to the
    /// JSON `value`, and wait for the daemon to take it.
    fn set_default_sink_metadata(connection: &mut Self::Connection, value: &str) -> Result<(), AudioError>;

    /// Whether the daemon dropped this connection.
    fn is_lost(connection: &Self::Connection) -> bool;
}

/// Taking an id out leaves any other id as absent as it was.
proof fn lemma_absent_stays_absent<T>(s: Seq<(u32, T)>, x: u32, y: u32)
    requires
        entry_of(s, x) is None,
    ensures
        entry_of(without(s, y), x) is None,
    decreases s.len(),
{
    if s.len() > 0 {
        lemma_absent_stays_absent(s.drop_first(), x, y);
        if s[0].0 != y {
            assert((seq![s[0]] + without(s.drop_first(), y)).drop_first() =~= without(s.drop_first(), y));
        }
    }
}

/// The message of an unload aimed at a branch the graph does not hold.
pub open spec fn no_loopback_message(id: u32) -> Seq<char> {
    "no loopback branch "@ + decimal_digits(id as nat)
}

/// An entry [`entry_of`] finds is one of the sequence's.
proof fn lemma_entry_of_contains<T>(s: Seq<(u32, T)>, id: u32)
    ensures
        entry_of(s, id) matches Some(x) ==> s.contains((id, x)),
    decreases s.len(),
{
    if s.len() > 0 && s[0].0 != id {
        lemma_entry_of_contains(s.drop_first(), id);
        if entry_of(s, id) is Some {
            let x = entry_of(s, id)->Some_0;
            let k = choose|k: int| 0 <= k < s.drop_first().len() && s.drop_first()[k] == (id, x);
            assert(s[k + 1] == (id, x));
        }
    } else if s.len() > 0 {
        assert(s[0] == (s[0].0, s[0].1));
    }
}

/// The modules of a combined sink keep every module kept for it.
proof fn lemma_modules_of_contains(mods: Seq<(u32, (Seq<char>, (Seq<char>, u32)))>, sink: Seq<char>, id: u32, b: (Seq<char>, u32))
    requires
        mods.contains((id, (sink, b))),
    ensures
        modules_of(mods, sink).contains((id, b)),
    decreases mods.len(),
{
    let rest = modules_of(mods.drop_last(), sink);
    if mods.last() == (id, (sink, b)) {
        assert(modules_of(mods, sink)[rest.len() as int] == (id, b));
    } else {
        let k = choose|k: int| 0 <= k < mods.len() && mods[k] == (id, (sink, b));
        assert(mods.drop_last()[k] == mods[k]);
        lemma_modules_of_contains(mods.drop_last(), sink, id, b);
        let j = choose|j: int| 0 <= j < rest.len() && rest[j] == (id, b);
        assert(modules_of(mods, sink)[j] == rest[j]);
    }
}

/// What the graph reads back lists each module it keeps, in order, with the
/// branch it carries and that branch's liveness.
proof fn lemma_loaded_branches_entries(
    mods: Seq<(u32, (Seq<char>, u32))>,
    nodes: Seq<(u32, PropsView)>,
    links: Seq<(u32, LinkEntry)>,
    pending: Seq<(u32, u64)>,
    sink_name: Seq<char>,
    now: u64,
)
    ensures
        spec_loaded_branches(mods, nodes, links, pending, sink_name, now).len() == mods.len(),
        forall|j: int|
            0 <= j < mods.len() ==> {
                let e = #[trigger] spec_loaded_branches(mods, nodes, links, pending, sink_name, now)[j];
                &&& e.0 == mods[j].0
                &&& e.1 == mods[j].1
                &&& e.2 == spec_branch_live(nodes, links, mods[j].0, sink_name, mods[j].1.0, waited_at(pending, mods[j].0, now))
            },
    decreases mods.len(),
{
    if mods.len() > 0 {
        lemma_loaded_branches_entries(mods.drop_last(), nodes, links, pending, sink_name, now);
        let r = spec_loaded_branches(mods, nodes, links, pending, sink_name, now);
        let rest = spec_loaded_branches(mods.drop_last(), nodes, links, pending, sink_name, now);
        assert forall|j: int| 0 <= j < mods.len() implies {
            let e = #[trigger] r[j];
            &&& e.0 == mods[j].0
            &&& e.1 == mods[j].1
            &&& e.2 == spec_branch_live(nodes, links, mods[j].0, sink_name, mods[j].1.0, waited_at(pending, mods[j].0, now))
        } by {
            if j < mods.len() - 1 {
                assert(r[j] == rest[j]);
                assert(mods.drop_last()[j] == mods[j]);
            }
        }
    }
}

/// How long branch `id`'s links have waited at `now`, as `pending` holds it.
pub open spec fn waited_at(pending: Seq<(u32, u64)>, id: u32, now: u64) -> Option<u64> {
    match entry_of(pending, id) {
        Some(since) => Some(if now >= since {
            (now - since) as u64
        } else {
            0u64
        }),
        None => None,
    }
}

/// A branch kept for a combined sink is read back for it: whatever else the
/// graph keeps, the branches it reads for `sink_name` hold the branch's id with
/// the speaker and delay it was loaded with, and the liveness of the nodes
/// named after that id.
pub proof fn law_a_kept_branch_is_read_back(
    mods: Seq<(u32, (Seq<char>, (Seq<char>, u32)))>,
    id: u32,
    sink_name: Seq<char>,
    real_sink: Seq<char>,
    latency_ms: u32,
    nodes: Seq<(u32, PropsView)>,
    links: Seq<(u32, LinkEntry)>,
    pending: Seq<(u32, u64)>,
    now: u64,
)
    ensures
        spec_loaded_branches(
            modules_of(put(mods, id, (sink_name, (real_sink, latency_ms))), sink_name),
            nodes,
            links,
            pending,
            sink_name,
            now,
        ).contains(
            (
                id,
                (real_sink, latency_ms),
                spec_branch_live(nodes, links, id, sink_name, real_sink, waited_at(pending, id, now)),
            ),
        ),
{
    let kept = put(mods, id, (sink_name, (real_sink, latency_ms)));
    lemma_entry_put(mods, id, (sink_name, (real_sink, latency_ms)));
    lemma_entry_of_contains(kept, id);
    lemma_modules_of_contains(kept, sink_name, id, (real_sink, latency_ms));
    let ms = modules_of(kept, sink_name);
    let j = choose|j: int| 0 <= j < ms.len() && ms[j] == (id, (real_sink, latency_ms));
    lemma_loaded_branches_entries(ms, nodes, links, pending, sink_name, now);
    let r = spec_loaded_branches(ms, nodes, links, pending, sink_name, now);
    assert(r[j] == (
        id,
        (real_sink, latency_ms),
        spec_branch_live(nodes, links, id, sink_name, real_sink, waited_at(pending, id, now)),
    ));
}

/// A node named `name` is among the ids [`ids_named`] lists.
proof fn lemma_ids_named_contains(nodes: Seq<(u32, PropsView)>, name: Seq<char>, k: int)
    requires
        0 <= k < nodes.len(),
        name.len() > 0,
        has_prop(nodes[k].1, "node.name"@, name),
    ensures
        ids_named(nodes, name).contains(nodes[k].0),
    decreases nodes.len(),
{
    let rest = ids_named(nodes.drop_last(), name);
    if k == nodes.len() - 1 {
        assert(ids_named(nodes, name)[rest.len() as int] == nodes[k].0);
    } else {
        assert(nodes.drop_last()[k] == nodes[k]);
        lemma_ids_named_contains(nodes.drop_last(), name, k);
        let j = choose|j: int| 0 <= j < rest.len() && rest[j] == nodes[k].0;
        assert(ids_named(nodes, name)[j] == rest[j]);
    }
}

/// The nodes a loaded branch's arguments name are the nodes liveness and
/// unload look the branch up by. The delay chain of branch `id` names its
/// capture node `branch_node_name(id, "in")` and its playback node
/// `branch_node_name(id, "out")`; in a registry holding nodes under those
/// names, unloading branch `id` destroys both, and the branch is live as soon
/// as the combined sink feeds the first and the second feeds the speaker.
pub proof fn law_the_names_a_branch_is_loaded_under_are_the_names_it_is_found_by(
    real_sink: Seq<char>,
    latency_ms: u32,
    id: u32,
    sink_name: Seq<char>,
    nodes: Seq<(u32, PropsView)>,
    links: Seq<(u32, LinkEntry)>,
    a: int,
    b: int,
    la: int,
    lb: int,
)
    requires
        0 <= a < nodes.len(),
        0 <= b < nodes.len(),
        has_prop(nodes[a].1, "node.name"@, branch_node_name(id, "in"@)),
        has_prop(nodes[b].1, "node.name"@, branch_node_name(id, "out"@)),
        0 <= la < links.len(),
        0 <= lb < links.len(),
        node_named(nodes, links[la].1.output_node, sink_name),
        links[la].1.input_node == nodes[a].0,
        links[lb].1.output_node == nodes[b].0,
        node_named(nodes, links[lb].1.input_node, real_sink),
    ensures
        spec_delay_chain_args(real_sink, latency_ms, id).contains(
            spa_string(branch_node_name(id, "in"@)).first(),
        ),
        exists|p: Seq<char>, q: Seq<char>|
            spec_delay_chain_args(real_sink, latency_ms, id) == p + "capture.props = { node.name = "@ + spa_string(
                branch_node_name(id, "in"@),
            ) + q,
        exists|p: Seq<char>, q: Seq<char>|
            spec_delay_chain_args(real_sink, latency_ms, id) == p + "playback.props = { node.name = "@ + spa_string(
                branch_node_name(id, "out"@),
            ) + q,
        spec_branch_node_ids(nodes, id).contains(nodes[a].0),
        spec_branch_node_ids(nodes, id).contains(nodes[b].0),
        spec_branch_liveness(nodes, links, id, sink_name, real_sink),
{
    reveal_strlit(" } } ] } capture.props = { node.name = ");
    reveal_strlit(" } } ] } ");
    reveal_strlit("capture.props = { node.name = ");
    assert(" } } ] } capture.props = { node.name = "@ =~= " } } ] } "@ + "capture.props = { node.name = "@);
    let args = spec_delay_chain_args(real_sink, latency_ms, id);
    let p1 = "{ audio.channels = 2 audio.position = [ FL FR ] "@
        + "filter.graph = { nodes = [ { type = builtin name = delay label = delay config = { \"max-delay\" = "@
        + seconds_text(MAX_DELAY_MS) + " } control = { \"Delay (s)\" = "@ + seconds_text(latency_ms)
        + " } } ] } "@;
    let q1 = " node.group = "@ + spa_string(branch_group(id)) + " node.autoconnect = false } "@
        + "playback.props = { node.name = "@ + spa_string(branch_node_name(id, "out"@)) + " node.group = "@
        + spa_string(branch_group(id)) + " target.object = "@ + spa_string(real_sink)
        + " node.dont-reconnect = true } }"@;
    assert(args =~= p1 + "capture.props = { node.name = "@ + spa_string(branch_node_name(id, "in"@)) + q1);
    let p2 = p1 + "capture.props = { node.name = "@ + spa_string(branch_node_name(id, "in"@)) + " node.group = "@
        + spa_string(branch_group(id)) + " node.autoconnect = false } "@;
    let q2 = " node.group = "@ + spa_string(branch_group(id)) + " target.object = "@ + spa_string(real_sink)
        + " node.dont-reconnect = true } }"@;
    assert(args =~= p2 + "playback.props = { node.name = "@ + spa_string(branch_node_name(id, "out"@)) + q2);
    let x = p1 + "capture.props = { node.name = "@;
    assert(args[x.len() as int] == spa_string(branch_node_name(id, "in"@)).first());
    assert(branch_node_name(id, "in"@).len() > 0);
    assert(branch_node_name(id, "out"@).len() > 0);
    lemma_ids_named_contains(nodes, branch_node_name(id, "in"@), a);
    lemma_ids_named_contains(nodes, branch_node_name(id, "out"@), b);
    let ins = ids_named(nodes, branch_node_name(id, "in"@));
    let outs = ids_named(nodes, branch_node_name(id, "out"@));
    let ja = choose|j: int| 0 <= j < ins.len() && ins[j] == nodes[a].0;
    let jb = choose|j: int| 0 <= j < outs.len() && outs[j] == nodes[b].0;
    assert((ins + outs)[ja] == nodes[a].0);
    assert((ins + outs)[ins.len() + jb] == nodes[b].0);
    assert(node_named(nodes, links[la].1.input_node, branch_node_name(id, "in"@)));
    assert(node_named(nodes, links[lb].1.output_node, branch_node_name(id, "out"@)));
}

impl<C: DaemonConnector> LoopState<C> {
    /// Forget everything tied to a connection the daemon dropped, so that the
    /// next command reconnects; a live connection, or none, is left alone.
    pub fn forget_a_lost_connection(&mut self)
        requires
            old(self).wf(),
        ensures
            final(self).requests() == old(self).requests(),
            final(self).wf(),
            final(self).context_state() == old(self).context_state(),
            final(self).next_id() == old(self).next_id(),
            !old(self).connected() ==> final(self).connected() == old(self).connected()
                && final(self).module_views() == old(self).module_views()
                && final(self).null_sink_names() == old(self).null_sink_names()
                && final(self).pending() == old(self).pending()
                && final(self).mirror_state() == old(self).mirror_state(),
            old(self).connected() ==> (final(self).connected() && *final(self) == *old(self)) || (
            !final(self).connected() && final(self).module_views().len() == 0
                && final(self).null_sink_names().len() == 0 && final(self).pending().len() == 0),
    {
        let lost = match &self.connection {
            Some(connection) => C::is_lost(connection),
            None => false,
        };
        if lost {
            self.on_disconnect();
        }
    }

    /// Refresh the mirror from the daemon; a failure leaves it as it was.
    pub fn sync_mirror(&mut self) -> (r: Result<(), AudioError>)
        requires
            old(self).wf(),
        ensures
            final(self).wf(),
            r is Err ==> final(self).mirror_state() == old(self).mirror_state(),
            r is Ok ==> final(self).connected(),
            final(self).module_views() == old(self).module_views(),
            final(self).null_sink_names() == old(self).null_sink_names(),
            final(self).next_id() == old(self).next_id(),
            final(self).pending() == old(self).pending(),
            grows(old(self).requests(), final(self).requests()),
            destroyed(sent_since(old(self).requests(), final(self).requests())) == Seq::<u32>::empty(),
            changes(sent_since(old(self).requests(), final(self).requests())) == Seq::<DaemonCall>::empty(),
            r is Ok ==> first_read(sent_since(old(self).requests(), final(self).requests())) == Some(
                final(self).mirror_state(),
            ),
            r is Err ==> first_read(sent_since(old(self).requests(), final(self).requests())) is None,
    {
        let ghost r0 = self.requests();
        let (read, asked) = match self.connection() {
            Ok(connection) => (C::refresh(connection), true),
            Err(e) => (Err(e), false),
        };
        proof {
            let r1 = self.requests();
            lemma_opening(sent_since(r0, r1));
            assert(destroyed(sent_since(r0, r1)) =~= Seq::<u32>::empty());
            assert(first_read(sent_since(r0, r1)) is None);
            if asked {
                self.log@ = self.log@.push(DaemonCall::Refresh(read));
                let r2 = self.requests();
                assert(r2.take(r1.len() as int) =~= r1);
                assert(sent_since(r1, r2) =~= seq![DaemonCall::Refresh(read)]);
                assert(sent_since(r1, r2).drop_last() =~= Seq::<DaemonCall>::empty());
                assert(destroyed(sent_since(r1, r2).drop_last()) =~= Seq::<u32>::empty());
                assert(first_read(sent_since(r1, r2).drop_last()) is None);
                assert(destroyed(sent_since(r1, r2)) =~= Seq::<u32>::empty());
                lemma_sent_split(r0, r1, r2);
                lemma_requests_concat(sent_since(r0, r1), sent_since(r1, r2));
                lemma_changes_one(DaemonCall::Refresh(read));
                lemma_changes_concat(sent_since(r0, r1), sent_since(r1, r2));
                assert(destroyed(sent_since(r0, r2)) =~= Seq::<u32>::empty());
                assert(changes(sent_since(r0, r2)) =~= Seq::<DaemonCall>::empty());
            }
        }
        match read {
            Ok(mirror) => {
                self.set_mirror(mirror);
                Ok(())
            },
            Err(e) => Err(e),
        }
    }

    /// The sinks present, once the mirror is refreshed: every audio sink but a
    /// null sink the graph does not own.
    pub fn sinks(&mut self) -> (r: Result<Vec<String>, AudioError>)
        requires
            old(self).wf(),
        ensures
            final(self).wf(),
            r matches Ok(sinks) ==> crate::text::string_views(sinks@) == visible_sinks(
                spec_sink_names(final(self).mirror_state().node_list()),
                final(self).null_sink_names(),
                final(self).mirror_state().node_list(),
            ),
            final(self).null_sink_names() == old(self).null_sink_names(),
            final(self).module_views() == old(self).module_views(),
            grows(old(self).requests(), final(self).requests()),
            changes(sent_since(old(self).requests(), final(self).requests())).len() == 0,
    {
        match self.sync_mirror() {
            Ok(()) => Ok(self.listed_sinks()),
            Err(e) => Err(e),
        }
    }

    /// The branches the graph keeps for `sink_name`, once the mirror is
    /// refreshed, with their liveness at `now`.
    pub fn branches(&mut self, sink_name: &str, now: u64) -> (r: Result<Vec<LoadedBranch>, AudioError>)
        requires
            old(self).wf(),
        ensures
            final(self).wf(),
            r matches Ok(read) ==> read@.map_values(|b: LoadedBranch| loaded_view(b)) == spec_loaded_branches(
                modules_of(final(self).module_views(), sink_name@),
                final(self).mirror_state().node_list(),
                final(self).mirror_state().link_list(),
                final(self).pending(),
                sink_name@,
                now,
            ),
            final(self).module_views() == old(self).module_views(),
            final(self).pending() == old(self).pending(),
            grows(old(self).requests(), final(self).requests()),
            changes(sent_since(old(self).requests(), final(self).requests())).len() == 0,
    {
        match self.sync_mirror() {
            Ok(()) => Ok(self.loaded_branches(sink_name, now)),
            Err(e) => Err(e),
        }
    }

    /// Create the combined null sink `sink_name`, owned by this connection, and
    /// check that the registry lists it.
    pub fn create_combined_sink(&mut self, sink_name: &str) -> (r: Result<(), AudioError>)
        requires
            old(self).wf(),
        ensures
            final(self).wf(),
            r is Ok ==> spec_sink_names(final(self).mirror_state().node_list()).contains(sink_name@)
                && final(self).null_sink_names().contains(sink_name@),
            final(self).module_views() == old(self).module_views(),
            grows(old(self).requests(), final(self).requests()),
            changes(sent_since(old(self).requests(), final(self).requests())).len() <= 1,
            changes(sent_since(old(self).requests(), final(self).requests())).len() == 1 ==> (changes(
                sent_since(old(self).requests(), final(self).requests()),
            )[0] matches DaemonCall::CreateNode(p, _) && p == spec_combined_sink_props(sink_name@)),
            r is Ok ==> changes(sent_since(old(self).requests(), final(self).requests())) == seq![
                DaemonCall::CreateNode(spec_combined_sink_props(sink_name@), true),
            ],
    {
        let ghost q0 = self.requests();
        assert(q0.take(q0.len() as int) =~= q0);
        let props = combined_sink_props(sink_name);
        let (created, asked) = match self.connection() {
            Ok(connection) => (C::create_node(connection, &props), true),
            Err(e) => (Err(e), false),
        };
        let ghost q1 = self.requests();
        proof {
            let c1 = sent_since(q0, q1);
            lemma_opening(c1);
            if asked {
                self.log@ = self.log@.push(DaemonCall::CreateNode(pair_views(props@), created is Ok));
            }
            let q2 = self.requests();
            assert(q2.take(q1.len() as int) =~= q1);
            let c2 = sent_since(q1, q2);
            if asked {
                assert(c2 =~= seq![DaemonCall::CreateNode(pair_views(props@), created is Ok)]);
                lemma_changes_one(DaemonCall::CreateNode(pair_views(props@), created is Ok));
            } else {
                assert(c2 =~= Seq::<DaemonCall>::empty());
                assert(changes(c2) =~= Seq::<DaemonCall>::empty());
            }
            lemma_sent_split(q0, q1, q2);
            lemma_changes_concat(c1, c2);
            assert(changes(sent_since(q0, q2)) =~= changes(c2));
        }
        let ghost q2 = self.requests();
        let node = match created {
            Ok(node) => node,
            Err(e) => return Err(e),
        };
        self.set_null_sink(sink_name, node);
        assert(self.null_sink_names().to_set().contains(sink_name@));
        let synced = self.sync_mirror();
        proof {
            let q3 = self.requests();
            lemma_sent_split(q0, q2, q3);
            lemma_changes_concat(sent_since(q0, q2), sent_since(q2, q3));
            assert(changes(sent_since(q0, q3)) =~= changes(sent_since(q0, q2)));
        }
        match synced {
            Ok(()) => {},
            Err(e) => return Err(e),
        }
        let names = sink_names(&self.mirror);
        if !contains_str(&names, sink_name) {
            let mut m = String::from_str("the combined sink ");
            m.append(sink_name);
            m.append(" did not appear");
            return Err(AudioError::PipeWire(m));
        }
        Ok(())
    }

    /// Link branch `id`'s capture side from the combined sink `sink_name`'s
    /// monitor, once the mirror is refreshed: `Ok(false)` while the ports are
    /// not all there yet; otherwise each channel pair is linked in turn, until
    /// one is refused, and `Ok(true)` once all are, the branch waiting no more.
    pub fn wire_branch(&mut self, sink_name: &str, id: u32) -> (r: Result<bool, AudioError>)
        requires
            old(self).wf(),
        ensures
            final(self).wf(),
            final(self).module_views() == old(self).module_views(),
            final(self).null_sink_names() == old(self).null_sink_names(),
            final(self).next_id() == old(self).next_id(),
            r matches Ok(true) ==> final(self).pending() == without(old(self).pending(), id),
            !(r matches Ok(true)) ==> final(self).pending() == old(self).pending(),
            grows(old(self).requests(), final(self).requests()),
            destroyed(sent_since(old(self).requests(), final(self).requests())).len() == 0,
            forall|k: int|
                0 <= k < changes(sent_since(old(self).requests(), final(self).requests())).len() ==> #[trigger] changes(
                    sent_since(old(self).requests(), final(self).requests()),
                )[k] is Link,
            r is Ok ==> (first_read(sent_since(old(self).requests(), final(self).requests())) matches Some(m) && (
            r == Ok::<bool, AudioError>(spec_ready_to_wire(m.node_list(), m.port_list(), sink_name@, id)))),
            r matches Ok(true) ==> (first_read(sent_since(old(self).requests(), final(self).requests())) matches Some(
                m,
            ) && changes(sent_since(old(self).requests(), final(self).requests())) == link_requests(
                monitor_pairs(m, sink_name@, id),
            )),
            r matches Ok(false) ==> changes(sent_since(old(self).requests(), final(self).requests())).len() == 0,
    {
        let ghost q0 = self.requests();
        let synced = self.sync_mirror();
        let ghost q1 = self.requests();
        match synced {
            Ok(()) => {},
            Err(e) => return Err(e),
        }
        let ghost m = self.mirror_state();
        if !ready_to_wire(&self.mirror, sink_name, id) {
            return Ok(false);
        }
        let in_node = branch_node(id, "in");
        let pairs = channel_port_pairs(&self.mirror, sink_name, in_node.as_str());
        let ghost mut made: Seq<DaemonCall> = seq![];
        let mut failure: Option<AudioError> = None;
        match self.connection() {
            Ok(connection) => {
                let mut k: usize = 0;
                while k < pairs.len()
                    invariant
                        k <= pairs@.len(),
                        forall|j: int| 0 <= j < made.len() ==> #[trigger] made[j] is Link,
                        failure is None ==> made == link_requests(pairs@.take(k as int)),
                    decreases pairs.len() - k,
                {
                    let (o, i) = pairs[k];
                    let linked = C::link_ports(connection, o, i);
                    proof {
                        let before = made;
                        made = made.push(DaemonCall::Link(o, i, linked is Ok));
                        if failure is None && linked is Ok {
                            assert(pairs@.take(k + 1) =~= pairs@.take(k as int).push(pairs@[k as int]));
                            assert(made =~= link_requests(pairs@.take(k + 1)));
                        }
                    }
                    match linked {
                        Ok(()) => {
                            k = k + 1;
                        },
                        Err(e) => {
                            failure = Some(e);
                            k = pairs.len();
                        },
                    }
                }
                assert(pairs@.take(pairs@.len() as int) =~= pairs@);
            },
            Err(e) => {
                failure = Some(e);
            },
        }
        proof {
            assert(self.requests() == q1);
            self.log@ = self.log@ + made;
            assert(self.requests().take(q1.len() as int) =~= q1);
            assert(sent_since(q1, self.requests()) =~= made);
            lemma_links_only(made);
            lemma_sent_split(q0, q1, self.requests());
            lemma_requests_concat(sent_since(q0, q1), made);
            lemma_changes_concat(sent_since(q0, q1), made);
            assert(changes(sent_since(q0, self.requests())) =~= made);
            assert(destroyed(sent_since(q0, self.requests())) =~= Seq::<u32>::empty());
        }
        match failure {
            Some(e) => Err(e),
            None => {
                self.mark_links_made(id);
                Ok(true)
            },
        }
    }

    /// Link each branch still waiting for its monitor ports whose ports are
    /// there now, reading the registry afresh for each; a branch whose ports
    /// are still missing, or whose links were refused, keeps waiting. Answers
    /// the branches linked, in order.
    pub fn wire_pending_links(&mut self) -> (linked: Vec<u32>)
        requires
            old(self).wf(),
        ensures
            final(self).wf(),
            final(self).module_views() == old(self).module_views(),
            final(self).null_sink_names() == old(self).null_sink_names(),
            final(self).next_id() == old(self).next_id(),
            grows(old(self).requests(), final(self).requests()),
            destroyed(sent_since(old(self).requests(), final(self).requests())).len() == 0,
            forall|k: int|
                0 <= k < changes(sent_since(old(self).requests(), final(self).requests())).len() ==> #[trigger] changes(
                    sent_since(old(self).requests(), final(self).requests()),
                )[k] is Link,
            forall|k: int|
                0 <= k < linked@.len() ==> pending_branches(old(self).pending(), old(self).module_views()).map_values(
                    |e: (u32, Seq<char>)| e.0,
                ).contains(#[trigger] linked@[k]),
    {
        let ghost q0 = self.requests();
        let ghost waiting_view = pending_branches(self.pending(), self.module_views());
        assert(q0.take(q0.len() as int) =~= q0);
        assert(sent_since(q0, q0) =~= Seq::<DaemonCall>::empty());
        let waiting = self.pending_link_branches();
        let mut linked: Vec<u32> = Vec::new();
        let mut k: usize = 0;
        while k < waiting.len()
            invariant
                self.wf(),
                k <= waiting@.len(),
                waiting@.map_values(|e: (u32, String)| (e.0, e.1@)) == waiting_view,
                q0 == old(self).requests(),
                waiting_view == pending_branches(old(self).pending(), old(self).module_views()),
                self.module_views() == old(self).module_views(),
                self.null_sink_names() == old(self).null_sink_names(),
                self.next_id() == old(self).next_id(),
                grows(q0, self.requests()),
                destroyed(sent_since(q0, self.requests())).len() == 0,
                forall|j: int|
                    0 <= j < changes(sent_since(q0, self.requests())).len() ==> #[trigger] changes(
                        sent_since(q0, self.requests()),
                    )[j] is Link,
                forall|j: int|
                    0 <= j < linked@.len() ==> waiting_view.map_values(|e: (u32, Seq<char>)| e.0).contains(
                        #[trigger] linked@[j],
                    ),
            decreases waiting.len() - k,
        {
            let id = waiting[k].0;
            assert(waiting_view[k as int].0 == id);
            let ghost q1 = self.requests();
            let wired = self.wire_branch(waiting[k].1.as_str(), id);
            proof {
                let q2 = self.requests();
                lemma_sent_split(q0, q1, q2);
                lemma_changes_concat(sent_since(q0, q1), sent_since(q1, q2));
                lemma_requests_concat(sent_since(q0, q1), sent_since(q1, q2));
                let a = changes(sent_since(q0, q1));
                let b = changes(sent_since(q1, q2));
                assert forall|j: int| 0 <= j < (a + b).len() implies #[trigger] (a + b)[j] is Link by {
                    if j < a.len() {
                        assert((a + b)[j] == a[j]);
                    } else {
                        assert((a + b)[j] == b[j - a.len()]);
                    }
                }
                assert(destroyed(sent_since(q0, q2)) =~= Seq::<u32>::empty());
            }
            if let Ok(true) = wired {
                linked.push(id);
                assert(waiting_view.map_values(|e: (u32, Seq<char>)| e.0)[k as int] == id);
            }
            k = k + 1;
        }
        linked
    }

    /// Load a delay branch from the combined sink `sink_name` into the node
    /// `real_sink`, `latency_ms` late: a filter chain whose nodes carry the
    /// names liveness and unload look the branch up by, kept under the graph's
    /// next id, its monitor links waiting from `now` and made at once when the
    /// ports are there. An empty name is refused before the daemon is asked.
    /// Once its module is kept the load answers `Ok`, whatever the sync and
    /// the wiring after it did: the branch then waits for its ports, or reads
    /// as dead, which the router handles.
    pub fn load_branch(&mut self, sink_name: &str, real_sink: &str, latency_ms: u32, now: u64) -> (r: Result<
        (),
        AudioError,
    >)
        requires
            old(self).wf(),
        ensures
            final(self).wf(),
            sink_name@.len() == 0 ==> (r matches Err(AudioError::PipeWire(m)) && m@ == empty_name_message("sink"@))
                && *final(self) == *old(self),
            sink_name@.len() > 0 && real_sink@.len() == 0 ==> (r matches Err(AudioError::PipeWire(m)) && m@
                == empty_name_message("target sink"@)) && *final(self) == *old(self),
            final(self).module_views() != old(self).module_views() ==> r is Ok,
            r is Ok ==> final(self).module_views() == put(
                old(self).module_views(),
                old(self).next_id(),
                (sink_name@, (real_sink@, latency_ms)),
            ),
            r is Err ==> final(self).module_views() == old(self).module_views() && final(self).pending() == old(
                self,
            ).pending(),
            r is Ok ==> entry_of(final(self).pending(), old(self).next_id()) == Some(now) || entry_of(
                final(self).pending(),
                old(self).next_id(),
            ) is None,
            final(self).null_sink_names() == old(self).null_sink_names(),
            grows(old(self).requests(), final(self).requests()),
            destroyed(sent_since(old(self).requests(), final(self).requests())).len() == 0,
            changes(sent_since(old(self).requests(), final(self).requests())).len() > 0 ==> changes(
                sent_since(old(self).requests(), final(self).requests()),
            )[0] == DaemonCall::LoadFilterChain(
                spec_delay_chain_args(real_sink@, latency_ms, old(self).next_id()),
                r is Ok,
            ),
            forall|k: int|
                1 <= k < changes(sent_since(old(self).requests(), final(self).requests())).len() ==> #[trigger] changes(
                    sent_since(old(self).requests(), final(self).requests()),
                )[k] is Link,
            r is Ok ==> changes(sent_since(old(self).requests(), final(self).requests())).len() > 0,
            r is Err ==> changes(sent_since(old(self).requests(), final(self).requests())).len() <= 1,
            r is Ok && entry_of(final(self).pending(), old(self).next_id()) is None ==> (first_read(
                sent_since(old(self).requests(), final(self).requests()),
            ) matches Some(m) && changes(sent_since(old(self).requests(), final(self).requests())).skip(1)
                == link_requests(monitor_pairs(m, sink_name@, old(self).next_id()))),
            sink_name@.len() > 0 && real_sink@.len() > 0 && !old(self).connected() ==> sent_since(
                old(self).requests(),
                final(self).requests(),
            ).len() > 0 && (sent_since(old(self).requests(), final(self).requests())[0] is Context || sent_since(
                old(self).requests(),
                final(self).requests(),
            )[0] is Connect),
            sink_name@.len() > 0 && real_sink@.len() > 0 ==> (changes(
                sent_since(old(self).requests(), final(self).requests()),
            ).len() > 0 <==> (old(self).connected() || sent_since(old(self).requests(), final(self).requests()).contains(
                DaemonCall::Connect(true),
            ))),
    {
        let ghost q0 = self.requests();
        assert(q0.take(q0.len() as int) =~= q0);
        match named("sink", sink_name) {
            Err(e) => return Err(e),
            Ok(()) => {},
        }
        let id = self.next_module_id();
        let args = match delay_chain_module_args(real_sink, latency_ms, id) {
            Ok(args) => args,
            Err(e) => return Err(e),
        };
        let ghost was_connected = self.connected();
        let ghost had_context = self.context_state() is Some;
        let (loaded, asked) = match self.connection() {
            Ok(connection) => (C::load_filter_chain(connection, args.as_str()), true),
            Err(e) => (Err(e), false),
        };
        let ghost q1 = self.requests();
        let ghost load_call = DaemonCall::LoadFilterChain(args@, loaded is Ok);
        proof {
            let c1 = sent_since(q0, q1);
            lemma_opening(c1);
            if !was_connected {
                if had_context {
                    assert(c1 =~= seq![DaemonCall::Connect(asked)]);
                } else if c1.len() == 1 {
                    assert(c1 =~= seq![DaemonCall::Context(false)]);
                } else {
                    assert(c1 =~= seq![DaemonCall::Context(true), DaemonCall::Connect(asked)]);
                }
                assert(c1.len() > 0 && (c1[0] is Context || c1[0] is Connect));
                assert(asked ==> c1.contains(DaemonCall::Connect(true))) by {
                    if asked {
                        assert(c1[c1.len() - 1] == DaemonCall::Connect(true));
                    }
                }
                assert(!asked ==> !c1.contains(DaemonCall::Connect(true)));
            } else {
                assert(c1 =~= Seq::<DaemonCall>::empty());
            }
            if asked {
                self.log@ = self.log@.push(load_call);
            }
            let q2 = self.requests();
            assert(q2.take(q1.len() as int) =~= q1);
            let c2 = sent_since(q1, q2);
            if asked {
                assert(c2 =~= seq![load_call]);
                lemma_changes_one(load_call);
            } else {
                assert(c2 =~= Seq::<DaemonCall>::empty());
                assert(changes(c2) =~= Seq::<DaemonCall>::empty());
                assert(destroyed(c2) =~= Seq::<u32>::empty());
            }
            lemma_sent_split(q0, q1, q2);
            lemma_changes_concat(c1, c2);
            lemma_requests_concat(c1, c2);
            assert(changes(sent_since(q0, q2)) =~= changes(c2));
            if asked && !was_connected {
                lemma_contains_in_prefix(c1, c2, DaemonCall::Connect(true));
            }
            if !asked {
                assert(sent_since(q0, q2) =~= c1);
            }
        }
        let ghost q2 = self.requests();
        assert(asked ==> (was_connected || sent_since(q0, q2).contains(DaemonCall::Connect(true))));
        assert(!asked ==> !(was_connected || sent_since(q0, q2).contains(DaemonCall::Connect(true))));
        let module = match loaded {
            Ok(module) => module,
            Err(e) => return Err(e),
        };
        let branch = CombineBranch { sink: real_sink.to_owned(), latency_ms };
        let kept = self.add_module(sink_name, branch, module);
        self.mark_links_pending(kept, now);
        proof {
            lemma_entry_put(old(self).pending(), id, now);
        }
        let ghost q3 = self.requests();
        let wired = self.wire_branch(sink_name, kept);
        proof {
            let q4 = self.requests();
            lemma_sent_split(q0, q3, q4);
            lemma_changes_concat(sent_since(q0, q3), sent_since(q3, q4));
            lemma_requests_concat(sent_since(q0, q3), sent_since(q3, q4));
            let c = sent_since(q0, q4);
            assert(changes(c) =~= seq![load_call] + changes(sent_since(q3, q4)));
            assert(changes(c).skip(1) =~= changes(sent_since(q3, q4)));
            assert forall|k: int| 1 <= k < changes(c).len() implies #[trigger] changes(c)[k] is Link by {
                assert(changes(c)[k] == changes(sent_since(q3, q4))[k - 1]);
            }
            lemma_opening(sent_since(q0, q1));
            assert(first_read(sent_since(q0, q3)) is None) by {
                lemma_requests_concat(sent_since(q0, q1), sent_since(q1, q3));
                assert(sent_since(q1, q3) =~= seq![load_call]);
                lemma_changes_one(load_call);
                lemma_sent_split(q0, q1, q3);
            }
            if wired matches Ok(true) {
                lemma_entry_without(put(old(self).pending(), id, now), id);
            }
            assert(q3.take(q2.len() as int) =~= q2);
            lemma_sent_split(q0, q2, q3);
            lemma_sent_split(q0, q3, q4);
            if !was_connected {
                lemma_contains_in_prefix(sent_since(q0, q2), sent_since(q2, q3), DaemonCall::Connect(true));
                lemma_contains_in_prefix(sent_since(q0, q3), sent_since(q3, q4), DaemonCall::Connect(true));
            }
        }
        let follow_up = match wired {
            Ok(_) => Ok(()),
            Err(e) => Err(e),
        };
        kept_branch_load(kept, follow_up)
    }

    /// Unload branch `id` by destroying its nodes, as the refreshed registry
    /// lists them: the module goes once its streams are gone. An id the graph
    /// does not hold is an error, and destroys nothing.
    pub fn unload_branch(&mut self, id: u32) -> (r: Result<(), AudioError>)
        requires
            old(self).wf(),
        ensures
            final(self).wf(),
            final(self).module_views() == old(self).module_views() || final(self).module_views() == without(
                old(self).module_views(),
                id,
            ),
            entry_of(old(self).module_views(), id) is None ==> r is Err,
            entry_of(old(self).module_views(), id) is None && first_read(
                sent_since(old(self).requests(), final(self).requests()),
            ) is Some ==> (r matches Err(AudioError::PipeWire(m)) && m@ == no_loopback_message(id)),
            r is Ok ==> entry_of(final(self).module_views(), id) is None,
            grows(old(self).requests(), final(self).requests()),
            match first_read(sent_since(old(self).requests(), final(self).requests())) {
                Some(m) => if entry_of(old(self).module_views(), id) is None {
                    changes(sent_since(old(self).requests(), final(self).requests())).len() == 0
                } else {
                    changes(sent_since(old(self).requests(), final(self).requests())) == destroy_requests(
                        spec_branch_node_ids(m.node_list(), id),
                    )
                },
                None => changes(sent_since(old(self).requests(), final(self).requests())).len() == 0 && r is Err,
            },
    {
        let ghost q0 = self.requests();
        let first = self.sync_mirror();
        let ghost q1 = self.requests();
        match first {
            Ok(()) => {},
            Err(e) => return Err(e),
        }
        proof {
            lemma_entry_map(self.modules@, id, module_view());
        }
        if self.take_module(id).is_none() {
            let mut m = String::from_str("no loopback branch ");
            let digits = u32_to_decimal(id);
            m.append(digits.as_str());
            return Err(AudioError::PipeWire(m));
        }
        proof {
            lemma_entry_without(old(self).module_views(), id);
        }
        let doomed = branch_node_ids(&self.mirror, id);
        match self.connection() {
            Ok(connection) => {
                let mut k: usize = 0;
                while k < doomed.len()
                    decreases doomed.len() - k,
                {
                    C::destroy_global(connection, doomed[k]);
                    k = k + 1;
                }
            },
            Err(e) => return Err(e),
        }
        proof {
            assert(self.requests() == q1);
            self.log@ = self.log@ + destroy_requests(doomed@);
            assert(self.requests().take(q1.len() as int) =~= q1);
            assert(sent_since(q1, self.requests()) =~= destroy_requests(doomed@));
        }
        let ghost q2 = self.requests();
        let last = self.sync_mirror();
        proof {
            let q3 = self.requests();
            lemma_destroy_requests(doomed@);
            lemma_sent_split(q0, q1, q2);
            lemma_sent_split(q0, q2, q3);
            lemma_requests_concat(sent_since(q0, q1), sent_since(q1, q2));
            lemma_requests_concat(sent_since(q0, q2), sent_since(q2, q3));
            lemma_changes_concat(sent_since(q0, q1), sent_since(q1, q2));
            lemma_changes_concat(sent_since(q0, q2), sent_since(q2, q3));
            assert(destroyed(sent_since(q0, q3)) =~= doomed@);
            assert(changes(sent_since(q0, q3)) =~= destroy_requests(doomed@));
        }
        last
    }

    /// Remove the combined sink `sink_name`: drop the proxy owning it and the
    /// modules of its branches, then, once the registry is read afresh,
    /// destroy whatever still belongs to it, whoever owns it. A partial view
    /// destroys nothing: the refresh must succeed first.
    pub fn teardown(&mut self, sink_name: &str) -> (r: Result<(), AudioError>)
        requires
            old(self).wf(),
        ensures
            final(self).wf(),
            !final(self).null_sink_names().contains(sink_name@),
            forall|k: int|
                0 <= k < modules_of(old(self).module_views(), sink_name@).len() ==> entry_of(
                    final(self).module_views(),
                    #[trigger] modules_of(old(self).module_views(), sink_name@)[k].0,
                ) is None,
            grows(old(self).requests(), final(self).requests()),
            match first_read(sent_since(old(self).requests(), final(self).requests())) {
                Some(m) => changes(sent_since(old(self).requests(), final(self).requests())) == destroy_requests(
                    doomed_ids(m.node_list(), m.node_list(), sink_name@),
                ),
                None => changes(sent_since(old(self).requests(), final(self).requests())).len() == 0 && r is Err,
            },
    {
        let ghost q0 = self.requests();
        let _ = self.take_null_sink(sink_name);
        let mods = self.modules_for(sink_name);
        let ghost ids = modules_of(old(self).module_views(), sink_name@);
        assert(id_branch_views(mods@) == ids);
        let mut k: usize = 0;
        while k < mods.len()
            invariant
                self.wf(),
                ids == id_branch_views(mods@),
                k <= mods@.len(),
                !self.null_sink_names().contains(sink_name@),
                forall|j: int| 0 <= j < k ==> entry_of(self.module_views(), #[trigger] ids[j].0) is None,
                self.requests() == q0,
            decreases mods.len() - k,
        {
            let id = mods[k].0;
            assert(ids[k as int].0 == id);
            let ghost before = self.module_views();
            let _ = self.take_module(id);
            proof {
                lemma_entry_without(before, id);
                assert forall|j: int| 0 <= j < k + 1 implies entry_of(self.module_views(), #[trigger] ids[j].0) is None by {
                    if j < k {
                        lemma_absent_stays_absent(before, ids[j].0, id);
                    }
                }
            }
            k = k + 1;
        }
        let first = self.sync_mirror();
        let ghost q1 = self.requests();
        match first {
            Ok(()) => {},
            Err(e) => return Err(e),
        }
        let ghost m1 = self.mirror_state();
        let doomed = foreign_combined_globals(&self.mirror, sink_name);
        match self.connection() {
            Ok(connection) => {
                let mut k: usize = 0;
                while k < doomed.len()
                    decreases doomed.len() - k,
                {
                    C::destroy_global(connection, doomed[k]);
                    k = k + 1;
                }
            },
            Err(e) => return Err(e),
        }
        proof {
            assert(self.requests() == q1);
            self.log@ = self.log@ + destroy_requests(doomed@);
            assert(self.requests().take(q1.len() as int) =~= q1);
            assert(sent_since(q1, self.requests()) =~= destroy_requests(doomed@));
        }
        let ghost q2 = self.requests();
        let last = self.sync_mirror();
        proof {
            let q3 = self.requests();
            lemma_destroy_requests(doomed@);
            lemma_sent_split(q0, q1, q2);
            lemma_sent_split(q0, q2, q3);
            lemma_requests_concat(sent_since(q0, q1), sent_since(q1, q2));
            lemma_requests_concat(sent_since(q0, q2), sent_since(q2, q3));
            lemma_changes_concat(sent_since(q0, q1), sent_since(q1, q2));
            lemma_changes_concat(sent_since(q0, q2), sent_since(q2, q3));
            assert(destroyed(sent_since(q0, q3)) =~= doomed@);
            assert(changes(sent_since(q0, q3)) =~= destroy_requests(doomed@));
        }
        last
    }

    /// Make `sink` the default sink, once the mirror is refreshed.
    pub fn set_default_sink(&mut self, sink: &str) -> (r: Result<(), AudioError>)
        requires
            old(self).wf(),
        ensures
            final(self).wf(),
            r is Ok ==> final(self).connected(),
            final(self).module_views() == old(self).module_views(),
            final(self).null_sink_names() == old(self).null_sink_names(),
            final(self).next_id() == old(self).next_id(),
            final(self).pending() == old(self).pending(),
            grows(old(self).requests(), final(self).requests()),
            destroyed(sent_since(old(self).requests(), final(self).requests())).len() == 0,
            first_read(sent_since(old(self).requests(), final(self).requests())) is None ==> r is Err,
            first_read(sent_since(old(self).requests(), final(self).requests())) is Some ==> final(self).requests().last()
                == DaemonCall::SetDefault(spec_default_sink_metadata_value(sink@), r) && changes(
                sent_since(old(self).requests(), final(self).requests()),
            ) == seq![DaemonCall::SetDefault(spec_default_sink_metadata_value(sink@), r)],
            first_read(sent_since(old(self).requests(), final(self).requests())) is None ==> changes(
                sent_since(old(self).requests(), final(self).requests()),
            ).len() == 0,
    {
        let ghost q0 = self.requests();
        let first = self.sync_mirror();
        match first {
            Ok(()) => {},
            Err(e) => return Err(e),
        }
        let ghost q1 = self.requests();
        let value = default_sink_metadata_value(sink);
        let (r, asked) = match self.connection() {
            Ok(connection) => (C::set_default_sink_metadata(connection, value.as_str()), true),
            Err(e) => (Err(e), false),
        };
        proof {
            assert(asked);
            assert(self.requests() == q1);
            self.log@ = self.log@.push(DaemonCall::SetDefault(value@, r));
            let q2 = self.requests();
            assert(q2.take(q1.len() as int) =~= q1);
            let one = sent_since(q1, q2);
            assert(one =~= seq![DaemonCall::SetDefault(value@, r)]);
            assert(one.drop_last() =~= Seq::<DaemonCall>::empty());
            assert(destroyed(one.drop_last()) =~= Seq::<u32>::empty());
            assert(first_read(one.drop_last()) is None);
            lemma_sent_split(q0, q1, q2);
            lemma_requests_concat(sent_since(q0, q1), one);
            lemma_changes_one(DaemonCall::SetDefault(value@, r));
            lemma_changes_concat(sent_since(q0, q1), one);
            assert(destroyed(sent_since(q0, q2)) =~= Seq::<u32>::empty());
            assert(changes(sent_since(q0, q2)) =~= seq![DaemonCall::SetDefault(value@, r)]);
        }
        r
    }
}

} // verus!
