//! Auto-reconnect policy for remembered speakers.
//!
//! Pure: it decides which addresses to dial and when, and never reads the
//! clock. Time comes in as a parameter, in milliseconds on whatever monotonic
//! scale the caller uses, and every delay is expressed in milliseconds too.

use vstd::hash_map::StringHashMap;
use crate::text::string_views;
use vstd::prelude::*;

verus! {

/// The widening waits between the first retries, in order, in milliseconds.
pub const BACKOFF_RAMP: [u64; 4] = [15_000, 30_000, 60_000, 120_000];

/// The interval the ramp settles on once it is exhausted, in milliseconds.
pub const BACKOFF_CAP: u64 = 300_000;

/// How many attempts are made at [`BACKOFF_CAP`] before the address is given up on.
pub const ATTEMPTS_AT_CAP: usize = 3;

/// How often the background pass wakes up, in milliseconds. No longer than the
/// first backoff step.
pub const RECONNECT_TICK: u64 = 15_000;

/// The `failures`-th rung of the ramp (valid for `failures < 4`).
pub open spec fn ramp_step(failures: int) -> u64 {
    if failures == 0 {
        15_000
    } else if failures == 1 {
        30_000
    } else if failures == 2 {
        60_000
    } else {
        120_000
    }
}

/// The delay before the next attempt once `failures` failures were recorded
/// before the one that just happened; `None` once the ladder is exhausted.
pub open spec fn spec_next_delay(failures: int) -> Option<u64> {
    if 0 <= failures < 4 {
        Some(ramp_step(failures))
    } else if 4 <= failures < 4 + 3 {
        Some(300_000)
    } else {
        None
    }
}

/// How long to wait before the next attempt, given how many failures were
/// already recorded **before** the one that just happened (`0` for the first
/// failure). `None` means the ladder is exhausted: the address is given up on.
pub fn next_delay(failures: usize) -> (delay: Option<u64>)
    ensures
        delay == spec_next_delay(failures as int),
{
    let ramp = BACKOFF_RAMP;
    if failures < ramp.len() {
        let step = ramp[failures];
        assert(step == ramp_step(failures as int));
        Some(step)
    } else if failures < ramp.len() + ATTEMPTS_AT_CAP {
        Some(BACKOFF_CAP)
    } else {
        None
    }
}

/// Whether the reconnect pass may run at all: `false` short-circuits the pass.
pub fn should_auto_reconnect(auto_reconnect: bool) -> (run: bool)
    ensures
        run == auto_reconnect,
{
    auto_reconnect
}

/// Whether `addr` is worth dialling: in `paired` and not in `connected`.
pub open spec fn is_candidate(addr: Seq<char>, paired: Seq<Seq<char>>, connected: Seq<Seq<char>>) -> bool {
    paired.contains(addr) && !connected.contains(addr)
}

/// Whether `addr` occurs among the views of `list`, by a loop over its indices.
fn contains_address(list: &[String], addr: &String) -> (found: bool)
    ensures
        found == string_views(list@).contains(addr@),
{
    let mut i: usize = 0;
    while i < list.len()
        invariant
            0 <= i <= list.len(),
            forall|j: int| 0 <= j < i ==> list@[j]@ != addr@,
        decreases list.len() - i,
    {
        if list[i] == *addr {
            assert(string_views(list@)[i as int] == addr@);
            return true;
        }
        i = i + 1;
    }
    proof {
        if string_views(list@).contains(addr@) {
            let k = choose|k: int| 0 <= k < string_views(list@).len() && string_views(list@)[k] == addr@;
            assert(list@[k]@ == addr@);
        }
    }
    false
}

/// The addresses worth dialling: the persisted playback intent, restricted to
/// what is **paired** and **not connected**, in intent order.
pub fn reconnect_candidates(intended: &[String], paired: &[String], connected: &[String]) -> (candidates: Vec<String>)
    ensures
        string_views(candidates@) == string_views(intended@).filter(
            |a: Seq<char>| is_candidate(a, string_views(paired@), string_views(connected@)),
        ),
{
    let ghost pred = |a: Seq<char>| is_candidate(a, string_views(paired@), string_views(connected@));
    let mut out: Vec<String> = Vec::new();
    let mut i: usize = 0;
    while i < intended.len()
        invariant
            0 <= i <= intended.len(),
            pred == (|a: Seq<char>| is_candidate(a, string_views(paired@), string_views(connected@))),
            string_views(out@) == string_views(intended@).take(i as int).filter(pred),
        decreases intended.len() - i,
    {
        let addr = &intended[i];
        proof {
            reveal_with_fuel(Seq::<_>::filter, 1);
            assert(string_views(intended@).take(i + 1).drop_last() =~= string_views(intended@).take(i as int));
        }
        if contains_address(paired, addr) && !contains_address(connected, addr) {
            out.push(addr.clone());
            assert(string_views(out@) =~= string_views(intended@).take(i as int).filter(pred).push(addr@));
        }
        i = i + 1;
    }
    assert(string_views(intended@).take(intended.len() as int) =~= string_views(intended@));
    out
}

/// Per-address retry bookkeeping.
#[derive(Clone, Copy)]
pub struct AddressState {
    /// Consecutive failed attempts recorded for this address.
    pub failures: usize,
    /// The earliest time the next attempt may be made, or `None` for "now".
    pub next_attempt: Option<u64>,
    /// Whether the ladder ran out and the backend stopped dialling this address.
    pub given_up: bool,
    /// Whether the user disconnected this address from the app.
    pub dismissed: bool,
}

/// The state of an address that has seen nothing yet.
pub open spec fn fresh_state() -> AddressState {
    AddressState { failures: 0, next_attempt: None, given_up: false, dismissed: false }
}

/// The state an address has once a failure at `now` is recorded on top of `s`.
pub open spec fn after_failure(s: AddressState, now: u64) -> AddressState {
    match spec_next_delay(s.failures as int) {
        Some(d) => AddressState {
            failures: (s.failures + 1) as usize,
            next_attempt: Some((now + d) as u64),
            ..s
        },
        None => AddressState { failures: (s.failures + 1) as usize, given_up: true, ..s },
    }
}

/// Whether an address in `states` may be dialled at `now`.
pub open spec fn is_due(states: Map<Seq<char>, AddressState>, addr: Seq<char>, now: u64) -> bool {
    match states.get(addr) {
        None => true,
        Some(s) => !s.given_up && !s.dismissed && match s.next_attempt {
            None => true,
            Some(due) => due <= now,
        },
    }
}

/// The state recorded for `addr`, or a fresh one when there is none.
pub open spec fn state_or_fresh(states: Map<Seq<char>, AddressState>, addr: Seq<char>) -> AddressState {
    match states.get(addr) {
        Some(s) => s,
        None => fresh_state(),
    }
}

/// Which remembered addresses are due for a reconnect attempt, and what the
/// backoff ladder has done to each of them so far.
pub struct ReconnectTracker {
    /// Per-address state, keyed by Bluetooth address.
    states: StringHashMap<AddressState>,
}

impl View for ReconnectTracker {
    type V = Map<Seq<char>, AddressState>;

    closed spec fn view(&self) -> Map<Seq<char>, AddressState> {
        self.states@
    }
}

impl ReconnectTracker {
    /// A tracker that has seen nothing yet: every candidate is due at once.
    pub fn new() -> (tracker: Self)
        ensures
            tracker@ == Map::<Seq<char>, AddressState>::empty(),
    {
        ReconnectTracker { states: StringHashMap::new() }
    }

    /// The candidates that may be dialled at `now`: those never tried, and those
    /// whose scheduled delay has elapsed; never the given-up nor the dismissed.
    pub fn due(&self, candidates: &[String], now: u64) -> (due: Vec<String>)
        ensures
            string_views(due@) == string_views(candidates@).filter(|a: Seq<char>| is_due(self@, a, now)),
    {
        let ghost pred = |a: Seq<char>| is_due(self@, a, now);
        let mut out: Vec<String> = Vec::new();
        let mut i: usize = 0;
        while i < candidates.len()
            invariant
                0 <= i <= candidates.len(),
                pred == (|a: Seq<char>| is_due(self@, a, now)),
                string_views(out@) == string_views(candidates@).take(i as int).filter(pred),
            decreases candidates.len() - i,
        {
            let addr = &candidates[i];
            proof {
                reveal_with_fuel(Seq::<_>::filter, 1);
                assert(string_views(candidates@).take(i + 1).drop_last() =~= string_views(candidates@).take(i as int));
            }
            let keep = match self.states.get(addr.as_str()) {
                None => true,
                Some(state) => !state.given_up && !state.dismissed && match state.next_attempt {
                    None => true,
                    Some(at) => at <= now,
                },
            };
            if keep {
                out.push(addr.clone());
                assert(string_views(out@) =~= string_views(candidates@).take(i as int).filter(pred).push(addr@));
            }
            i = i + 1;
        }
        assert(string_views(candidates@).take(candidates.len() as int) =~= string_views(candidates@));
        out
    }

    /// Record a failed attempt: count it and move the next attempt out by the
    /// current backoff step. Once the ladder is exhausted the address is given up on.
    pub fn record_failure(&mut self, addr: &str, now: u64)
        requires
            state_or_fresh(old(self)@, addr@).failures < usize::MAX,
            spec_next_delay(state_or_fresh(old(self)@, addr@).failures as int) matches Some(d) ==> now + d <= u64::MAX,
        ensures
            final(self)@ == old(self)@.insert(addr@, after_failure(state_or_fresh(old(self)@, addr@), now)),
    {
        let mut state = match self.states.get(addr) {
            Some(s) => *s,
            None => AddressState { failures: 0, next_attempt: None, given_up: false, dismissed: false },
        };
        match next_delay(state.failures) {
            Some(delay) => state.next_attempt = Some(now + delay),
            None => state.given_up = true,
        }
        state.failures = state.failures + 1;
        self.states.insert(addr.to_owned(), state);
    }

    /// Record that the address is connected again: its state is cleared entirely.
    pub fn record_success(&mut self, addr: &str)
        ensures
            final(self)@ == old(self)@.remove(addr@),
    {
        self.states.remove(addr);
    }

    /// The user disconnected this address from the app: stop dialling it.
    pub fn dismiss(&mut self, addr: &str)
        ensures
            final(self)@ == old(self)@.insert(
                addr@,
                AddressState { dismissed: true, ..state_or_fresh(old(self)@, addr@) },
            ),
    {
        let mut state = match self.states.get(addr) {
            Some(s) => *s,
            None => AddressState { failures: 0, next_attempt: None, given_up: false, dismissed: false },
        };
        state.dismissed = true;
        self.states.insert(addr.to_owned(), state);
    }

    /// The user acted on this address, or a fresh server started: clear the
    /// give-up **and** the dismissal, so it is due again immediately.
    pub fn rearm(&mut self, addr: &str)
        ensures
            final(self)@ == old(self)@.remove(addr@),
    {
        self.states.remove(addr);
    }

    /// Whether the backend has stopped dialling this address.
    pub fn given_up(&self, addr: &str) -> (gone: bool)
        ensures
            gone == (self@.contains_key(addr@) && self@[addr@].given_up),
    {
        match self.states.get(addr) {
            Some(state) => state.given_up,
            None => false,
        }
    }
}

/// The addresses of `intended` that `connected` does not hold, in order.
pub open spec fn spec_missing(intended: Seq<Seq<char>>, connected: Seq<Seq<char>>) -> Seq<Seq<char>> {
    intended.filter(|a: Seq<char>| !connected.contains(a))
}

/// How one dial of a remembered speaker went.
#[derive(Debug, Clone, PartialEq, Eq)]
pub enum DialOutcome {
    /// The link is up; the device reports this address.
    Connected(String),
    /// The stack accepted the dial but the link did not come up.
    NotUp,
    /// The dial failed, with the stack's message.
    Failed(String),
}

impl ReconnectTracker {
    /// Whether a reconnect pass has anything to ask the Bluetooth stack: the
    /// setting is on, and some speaker of the playback intent that the cached
    /// connected list lacks is due. A pass answering `false` ends there,
    /// without listing the paired devices. The cache may be stale; it only
    /// ever cuts a pass short.
    pub fn pass_needs_listing(&self, auto_reconnect: bool, intended: &[String], cached: &[String], now: u64) -> (go: bool)
        ensures
            go == (auto_reconnect && spec_missing(string_views(intended@), string_views(cached@)).filter(
                |a: Seq<char>| is_due(self@, a, now),
            ).len() > 0),
    {
        if !should_auto_reconnect(auto_reconnect) || intended.len() == 0 {
            proof {
                if intended.len() == 0 {
                    assert(string_views(intended@) =~= Seq::<Seq<char>>::empty());
                    assert(spec_missing(string_views(intended@), string_views(cached@)) =~= Seq::<Seq<char>>::empty());
                    assert(Seq::<Seq<char>>::empty().filter(|a: Seq<char>| is_due(self@, a, now)) =~= Seq::<Seq<char>>::empty());
                }
            }
            return false;
        }
        let ghost pred = |a: Seq<char>| !string_views(cached@).contains(a);
        let mut missing: Vec<String> = Vec::new();
        let mut i: usize = 0;
        while i < intended.len()
            invariant
                0 <= i <= intended.len(),
                pred == (|a: Seq<char>| !string_views(cached@).contains(a)),
                string_views(missing@) == string_views(intended@).take(i as int).filter(pred),
            decreases intended.len() - i,
        {
            let addr = &intended[i];
            proof {
                reveal_with_fuel(Seq::<_>::filter, 1);
                assert(string_views(intended@).take(i + 1).drop_last() =~= string_views(intended@).take(i as int));
            }
            if !contains_address(cached, addr) {
                missing.push(addr.clone());
                assert(string_views(missing@) =~= string_views(intended@).take(i as int).filter(pred).push(addr@));
            }
            i = i + 1;
        }
        assert(string_views(intended@).take(intended.len() as int) =~= string_views(intended@));
        self.due(&missing, now).len() > 0
    }

    /// The speakers a pass dials once the paired devices are listed: the
    /// candidates of the playback intent (paired, not connected) that are due,
    /// in intent order.
    pub fn pass_dials(&self, intended: &[String], paired: &[String], connected: &[String], now: u64) -> (dials: Vec<String>)
        ensures
            string_views(dials@) == string_views(intended@).filter(
                |a: Seq<char>| is_candidate(a, string_views(paired@), string_views(connected@)),
            ).filter(|a: Seq<char>| is_due(self@, a, now)),
    {
        self.due(&reconnect_candidates(intended, paired, connected), now)
    }

    /// Clear the ladder of every speaker of the playback intent that is
    /// connected again, whether a pass dialled it or it came back on its own,
    /// so that a later loss starts over from the first backoff step.
    pub fn record_connected(&mut self, intended: &[String], connected: &[String])
        ensures
            final(self)@ == old(self)@.remove_keys(
                Set::new(|a: Seq<char>| string_views(intended@).contains(a) && string_views(connected@).contains(a)),
            ),
    {
        let ghost iv = string_views(intended@);
        let ghost cv = string_views(connected@);
        let mut i: usize = 0;
        assert(old(self)@.remove_keys(Set::new(|a: Seq<char>| iv.take(0).contains(a) && cv.contains(a)))
            =~= old(self)@);
        while i < intended.len()
            invariant
                i <= intended@.len(),
                iv == string_views(intended@),
                cv == string_views(connected@),
                self@ == old(self)@.remove_keys(Set::new(|a: Seq<char>| iv.take(i as int).contains(a) && cv.contains(a))),
            decreases intended.len() - i,
        {
            let addr = &intended[i];
            let ghost before = self@;
            assert(iv[i as int] == addr@);
            if contains_address(connected, addr) {
                self.record_success(addr.as_str());
            }
            assert forall|a: Seq<char>| iv.take(i + 1).contains(a) <==> (iv.take(i as int).contains(a) || a == addr@) by {
                if iv.take(i + 1).contains(a) {
                    let k = choose|k: int| 0 <= k < iv.take(i + 1).len() && #[trigger] iv.take(i + 1)[k] == a;
                    if k < i {
                        assert(iv.take(i as int)[k] == a);
                    }
                }
                if iv.take(i as int).contains(a) {
                    let k = choose|k: int| 0 <= k < iv.take(i as int).len() && #[trigger] iv.take(i as int)[k] == a;
                    assert(iv.take(i + 1)[k] == a);
                }
                if a == addr@ {
                    assert(iv.take(i + 1)[i as int] == a);
                }
            }
            assert(self@ =~= old(self)@.remove_keys(
                Set::new(|a: Seq<char>| iv.take(i + 1).contains(a) && cv.contains(a)),
            ));
            i = i + 1;
        }
        assert(iv.take(intended@.len() as int) =~= iv);
    }

    /// Record how the dial of `addr` went. A link that came up clears the
    /// device's ladder and joins the connected cache, once; a dial that failed,
    /// or whose link did not come up, counts as a failure, or the ladder would
    /// reset on every such pass.
    pub fn record_dial(&mut self, connected: &mut Vec<String>, addr: &str, outcome: &DialOutcome, now: u64)
        requires
            !(outcome is Connected) ==> state_or_fresh(old(self)@, addr@).failures < usize::MAX,
            !(outcome is Connected) ==> (spec_next_delay(state_or_fresh(old(self)@, addr@).failures as int) matches Some(
                d,
            ) ==> now + d <= u64::MAX),
        ensures
            match outcome {
                DialOutcome::Connected(a) => final(self)@ == old(self)@.remove(a@) && string_views(final(connected)@) == (
                if string_views(old(connected)@).contains(a@) {
                    string_views(old(connected)@)
                } else {
                    string_views(old(connected)@).push(a@)
                }),
                _ => final(self)@ == old(self)@.insert(addr@, after_failure(state_or_fresh(old(self)@, addr@), now))
                    && final(connected)@ == old(connected)@,
            },
    {
        match outcome {
            DialOutcome::Connected(a) => {
                self.record_success(a.as_str());
                if !contains_address(connected.as_slice(), a) {
                    connected.push(a.clone());
                    assert(string_views(connected@) =~= string_views(old(connected)@).push(a@));
                }
            },
            _ => {
                self.record_failure(addr, now);
            },
        }
    }
}

/// The connected cache a pass keeps never lists an address twice: recording
/// a success for an address it already holds leaves it as it was.
pub proof fn law_connected_cache_lists_each_address_once(cache: Seq<Seq<char>>, a: Seq<char>)
    requires
        cache.no_duplicates(),
    ensures
        (if cache.contains(a) { cache } else { cache.push(a) }).no_duplicates(),
{
}

/// A fresh tracker holds nothing back: every candidate is due, at any time.
pub proof fn law_fresh_tracker_dials_everything(addr: Seq<char>, now: u64)
    ensures
        is_due(Map::<Seq<char>, AddressState>::empty(), addr, now),
{
}

/// The ladder runs the ramp, then [`ATTEMPTS_AT_CAP`] attempts at the cap, and
/// then gives up: starting from a fresh address, the first seven failures each
/// schedule a retry, and the eighth gives the address up.
pub proof fn law_ladder_gives_up_after_the_cap_attempts(failures: int)
    requires
        0 <= failures,
    ensures
        spec_next_delay(failures) is None <==> failures >= 7,
        failures < 4 ==> spec_next_delay(failures) == Some(ramp_step(failures)),
        4 <= failures < 7 ==> spec_next_delay(failures) == Some(BACKOFF_CAP),
        failures < 3 ==> ramp_step(failures) < ramp_step(failures + 1),
        failures < 7 ==> spec_next_delay(failures)->0 >= RECONNECT_TICK,
{
}

/// A failure holds the address back for exactly the current step: it is not
/// due before `now + step`, and due again from then on, unless the ladder ran
/// out, after which no time brings it back.
pub proof fn law_failure_holds_for_the_current_step(
    states: Map<Seq<char>, AddressState>,
    addr: Seq<char>,
    now: u64,
    later: u64,
)
    requires
        !state_or_fresh(states, addr).dismissed,
        !state_or_fresh(states, addr).given_up,
        spec_next_delay(state_or_fresh(states, addr).failures as int) matches Some(d) ==> now + d <= u64::MAX,
    ensures
        ({
            let after = states.insert(addr, after_failure(state_or_fresh(states, addr), now));
            match spec_next_delay(state_or_fresh(states, addr).failures as int) {
                Some(d) => is_due(after, addr, later) <==> later >= now + d,
                None => !is_due(after, addr, later),
            }
        }),
{
}

/// The state of an address after the failures of `times`, in order, from a
/// fresh one.
pub open spec fn after_failures(times: Seq<u64>) -> AddressState
    decreases times.len(),
{
    if times.len() == 0 {
        fresh_state()
    } else {
        after_failure(after_failures(times.drop_last()), times.last())
    }
}

/// Consecutive failures climb the ladder, then give up: after the failures of
/// `times` an address counts them all; the last of the first seven holds it
/// back for the step the ladder gives that many failures, from the instant it
/// was recorded; and the eighth gives the address up, for good.
pub proof fn law_failures_climb_the_ladder_then_give_up(times: Seq<u64>)
    requires
        times.len() < 0x1_0000,
    ensures
        after_failures(times).failures == times.len(),
        after_failures(times).given_up <==> times.len() > 7,
        !after_failures(times).dismissed,
        times.len() == 0 ==> after_failures(times).next_attempt is None,
        1 <= times.len() <= 7 ==> after_failures(times).next_attempt == Some(
            (times.last() + spec_next_delay(times.len() - 1)->0) as u64,
        ),
    decreases times.len(),
{
    if times.len() > 0 {
        law_failures_climb_the_ladder_then_give_up(times.drop_last());
        law_ladder_gives_up_after_the_cap_attempts(times.len() - 1);
    }
}

/// Clearing an address (a success, or a re-arm) makes it due at once, whatever
/// the ladder or the user had done to it before.
pub proof fn law_cleared_address_is_due_at_once(states: Map<Seq<char>, AddressState>, addr: Seq<char>, now: u64)
    ensures
        is_due(states.remove(addr), addr, now),
        !(states.remove(addr).contains_key(addr)),
{
}

/// A dismissed address is never due, whatever the time, until it is cleared.
pub proof fn law_dismissed_address_is_never_due(states: Map<Seq<char>, AddressState>, addr: Seq<char>, now: u64)
    ensures
        !is_due(states.insert(addr, AddressState { dismissed: true, ..state_or_fresh(states, addr) }), addr, now),
{
}

/// The backoff state is kept per address: acting on one address leaves
/// whether any other address is due unchanged.
pub proof fn law_state_is_kept_per_address(
    states: Map<Seq<char>, AddressState>,
    addr: Seq<char>,
    other: Seq<char>,
    s: AddressState,
    now: u64,
)
    requires
        addr != other,
    ensures
        is_due(states.insert(addr, s), other, now) == is_due(states, other, now),
        is_due(states.remove(addr), other, now) == is_due(states, other, now),
{
    assert(states.insert(addr, s).get(other) == states.get(other));
    assert(states.remove(addr).get(other) == states.get(other));
}

} // verus!

verus! {

/// The due speakers a pass dials, in order: a remembered address the stack
/// cannot parse (`parsed[i]` false; a hand-edited store can hold anything) is
/// skipped, and never stops the pass.
pub fn dialable(due: &[String], parsed: &[bool]) -> (dials: Vec<String>)
    requires
        parsed@.len() == due@.len(),
    ensures
        string_views(dials@) == spec_dialable(string_views(due@), parsed@),
{
    let mut out: Vec<String> = Vec::new();
    let mut i: usize = 0;
    while i < due.len()
        invariant
            i <= due@.len(),
            parsed@.len() == due@.len(),
            string_views(out@) == spec_dialable(string_views(due@).take(i as int), parsed@.take(i as int)),
        decreases due.len() - i,
    {
        assert(string_views(due@).take(i + 1).drop_last() =~= string_views(due@).take(i as int));
        assert(parsed@.take(i + 1).drop_last() =~= parsed@.take(i as int));
        if parsed[i] {
            out.push(due[i].clone());
            assert(string_views(out@) =~= spec_dialable(string_views(due@).take(i as int), parsed@.take(i as int)).push(
                due@[i as int]@,
            ));
        }
        i = i + 1;
    }
    assert(string_views(due@).take(due@.len() as int) =~= string_views(due@));
    assert(parsed@.take(due@.len() as int) =~= parsed@);
    out
}

/// The addresses of `due` whose parse succeeded, in order.
pub open spec fn spec_dialable(due: Seq<Seq<char>>, parsed: Seq<bool>) -> Seq<Seq<char>>
    decreases due.len(),
{
    if due.len() == 0 || parsed.len() != due.len() {
        seq![]
    } else {
        let rest = spec_dialable(due.drop_last(), parsed.drop_last());
        if parsed.last() {
            rest.push(due.last())
        } else {
            rest
        }
    }
}

} // verus!
