//! The backend's own name and its user-facing settings.
//!
//! The app is the source of truth for the name and pushes it over the LAN; the
//! backend re-validates it with the backend-name rule rather than trusting the
//! client. Nothing here touches the disk: the caller persists what
//! [`ServerName::config`] returns, and hands back what it read at start-up.

use crate::state_store::{opt_view, spec_state_store_path, state_store_path};
use crate::text::{chars_of, skip_spaces, string_of_range, trim, trim_end_index};
use vstd::prelude::*;

verus! {

/// The name a backend answers to until the app configures another one.
pub const DEFAULT_BACKEND_NAME: &'static str = "blue2th-PC";

/// The longest backend name accepted, in characters.
pub const MAX_BACKEND_NAME_LEN: usize = 32;

/// The default name, as characters.
pub open spec fn default_name() -> Seq<char> {
    "blue2th-PC"@
}

/// Why a backend name was refused.
#[derive(Debug, Clone, Copy, PartialEq, Eq)]
pub enum NameError {
    /// Nothing but white space.
    Empty,
    /// Longer than [`MAX_BACKEND_NAME_LEN`] characters.
    TooLong,
    /// Does not start with an ASCII letter.
    BadStart,
    /// Holds a character other than an ASCII letter, digit, `-` or `_`.
    BadChar,
}

/// Whether `c` is an ASCII letter.
pub open spec fn is_ascii_letter(c: char) -> bool {
    ('A' <= c <= 'Z') || ('a' <= c <= 'z')
}

/// Whether `c` may appear in a backend name.
pub open spec fn is_name_char(c: char) -> bool {
    is_ascii_letter(c) || ('0' <= c <= '9') || c == '-' || c == '_'
}

/// The backend-name rule: the name is trimmed, then must be non-empty, at most
/// [`MAX_BACKEND_NAME_LEN`] characters, start with an ASCII letter and hold only
/// ASCII letters, digits, `-` and `_`. The first failing check is reported.
pub open spec fn spec_validate_name(raw: Seq<char>) -> Result<Seq<char>, NameError> {
    let name = trim(raw);
    if name.len() == 0 {
        Err(NameError::Empty)
    } else if name.len() > MAX_BACKEND_NAME_LEN {
        Err(NameError::TooLong)
    } else if !is_ascii_letter(name[0]) {
        Err(NameError::BadStart)
    } else if exists|i: int| 0 <= i < name.len() && !is_name_char(#[trigger] name[i]) {
        Err(NameError::BadChar)
    } else {
        Ok(name)
    }
}

/// The view of a validation result.
pub open spec fn name_result_view(r: Result<String, NameError>) -> Result<Seq<char>, NameError> {
    match r {
        Ok(s) => Ok(s@),
        Err(e) => Err(e),
    }
}

/// Validate and trim a backend name.
pub fn validate_backend_name(raw: &str) -> (res: Result<String, NameError>)
    ensures
        name_result_view(res) == spec_validate_name(raw@),
{
    let v = chars_of(raw);
    let start = skip_spaces(&v, 0);
    let end = trim_end_index(&v, start, v.len());
    proof {
        assert(v@.skip(0) =~= v@);
        assert(v@.skip(start as int) =~= v@.subrange(start as int, v@.len() as int));
    }
    let ghost name = v@.subrange(start as int, end as int);
    assert(trim(raw@) == name);
    if start == end {
        return Err(NameError::Empty);
    }
    if end - start > MAX_BACKEND_NAME_LEN {
        return Err(NameError::TooLong);
    }
    let first = v[start];
    if !(('A' <= first && first <= 'Z') || ('a' <= first && first <= 'z')) {
        return Err(NameError::BadStart);
    }
    let mut i = start;
    while i < end
        invariant
            start <= i <= end <= v@.len(),
            name == v@.subrange(start as int, end as int),
            trim(raw@) == name,
            0 < name.len() <= MAX_BACKEND_NAME_LEN,
            is_ascii_letter(name[0]),
            forall|j: int| 0 <= j < i - start ==> is_name_char(#[trigger] name[j]),
        decreases end - i,
    {
        let c = v[i];
        if !(('A' <= c && c <= 'Z') || ('a' <= c && c <= 'z') || ('0' <= c && c <= '9') || c == '-'
            || c == '_') {
            assert(!is_name_char(name[i - start]));
            return Err(NameError::BadChar);
        }
        i = i + 1;
    }
    Ok(string_of_range(&v, start, end))
}

/// The persisted settings, as read back from or written to the store.
#[derive(Debug, Clone, PartialEq, Eq)]
pub struct ServerConfig {
    /// The configured name.
    pub name: String,
    /// Whether a returning speaker is restored mid-playback.
    pub restore_during_playback: bool,
    /// Whether the backend dials remembered speakers back by itself.
    pub auto_reconnect: bool,
    /// Whether the Spotify Connect level is pinned to 100.
    pub spotify_volume_lock: bool,
}

/// The abstract content of a [`ServerName`].
pub ghost struct ServerNameView {
    pub name: Seq<char>,
    pub restore_during_playback: bool,
    pub auto_reconnect: bool,
    pub spotify_volume_lock: bool,
}

/// The name this backend answers to, and the settings stored next to it.
pub struct ServerName {
    name: String,
    restore_during_playback: bool,
    auto_reconnect: bool,
    spotify_volume_lock: bool,
}

impl View for ServerName {
    type V = ServerNameView;

    closed spec fn view(&self) -> ServerNameView {
        ServerNameView {
            name: self.name@,
            restore_during_playback: self.restore_during_playback,
            auto_reconnect: self.auto_reconnect,
            spotify_volume_lock: self.spotify_volume_lock,
        }
    }
}

/// The settings of a fresh backend: the default name, restoration and
/// auto-reconnect on, the volume lock off.
pub open spec fn default_settings() -> ServerNameView {
    ServerNameView {
        name: default_name(),
        restore_during_playback: true,
        auto_reconnect: true,
        spotify_volume_lock: false,
    }
}

/// What a store holding `stored` reloads as: the stored flags, and the stored
/// name only when the backend-name rule accepts it; the defaults for a missing
/// or unreadable store.
pub open spec fn spec_reloaded(stored: Option<ServerConfig>) -> ServerNameView {
    match stored {
        None => default_settings(),
        Some(c) => ServerNameView {
            name: match spec_validate_name(c.name@) {
                Ok(n) => n,
                Err(_) => default_name(),
            },
            restore_during_playback: c.restore_during_playback,
            auto_reconnect: c.auto_reconnect,
            spotify_volume_lock: c.spotify_volume_lock,
        },
    }
}

impl ServerName {
    /// The name held always passes the backend-name rule, unchanged.
    #[verifier::type_invariant]
    spec fn held_name_is_valid(self) -> bool {
        spec_validate_name(self.name@) == Ok::<Seq<char>, NameError>(self.name@)
    }

    /// The default name and settings.
    pub fn new() -> (config: Self)
        ensures
            config@ == default_settings(),
    {
        let name = String::from_str(DEFAULT_BACKEND_NAME);
        proof {
            law_default_name_is_valid();
        }
        ServerName { name, restore_during_playback: true, auto_reconnect: true, spotify_volume_lock: false }
    }

    /// The settings reloaded from a store: `stored` is what the store held, or
    /// `None` when it was missing or malformed. A stored name the rule refuses
    /// is never resurrected: the default takes its place.
    pub fn with_store(stored: Option<ServerConfig>) -> (config: Self)
        ensures
            config@ == spec_reloaded(stored),
    {
        match stored {
            None => ServerName::new(),
            Some(c) => {
                let name = match validate_backend_name(c.name.as_str()) {
                    Ok(n) => {
                        proof {
                            law_validated_name_is_stable(c.name@);
                        }
                        n
                    },
                    Err(_) => {
                        proof {
                            law_default_name_is_valid();
                        }
                        String::from_str(DEFAULT_BACKEND_NAME)
                    },
                };
                ServerName {
                    name,
                    restore_during_playback: c.restore_during_playback,
                    auto_reconnect: c.auto_reconnect,
                    spotify_volume_lock: c.spotify_volume_lock,
                }
            },
        }
    }

    /// The settings as they are to be persisted: all of them together, since
    /// they share one file and a partial write would drop the rest.
    pub fn config(&self) -> (c: ServerConfig)
        ensures
            c.name@ == self@.name,
            c.restore_during_playback == self@.restore_during_playback,
            c.auto_reconnect == self@.auto_reconnect,
            c.spotify_volume_lock == self@.spotify_volume_lock,
            spec_reloaded(Some(c)) == self@,
    {
        proof {
            use_type_invariant(self);
        }
        ServerConfig {
            name: self.name.clone(),
            restore_during_playback: self.restore_during_playback,
            auto_reconnect: self.auto_reconnect,
            spotify_volume_lock: self.spotify_volume_lock,
        }
    }

    /// The current name.
    pub fn name(&self) -> (name: &str)
        ensures
            name@ == self@.name,
            spec_validate_name(name@) == Ok::<Seq<char>, NameError>(name@),
    {
        proof {
            use_type_invariant(self);
        }
        self.name.as_str()
    }

    /// Whether a returning speaker may be restored while playback runs.
    pub fn restore_during_playback(&self) -> (on: bool)
        ensures
            on == self@.restore_during_playback,
    {
        self.restore_during_playback
    }

    /// Store the restore-during-playback setting.
    pub fn set_restore_during_playback(&mut self, enabled: bool)
        ensures
            final(self)@ == (ServerNameView { restore_during_playback: enabled, ..old(self)@ }),
    {
        proof {
            use_type_invariant(&*self);
        }
        self.restore_during_playback = enabled;
    }

    /// Whether the backend may dial a remembered speaker back by itself.
    pub fn auto_reconnect(&self) -> (on: bool)
        ensures
            on == self@.auto_reconnect,
    {
        self.auto_reconnect
    }

    /// Store the auto-reconnect setting.
    pub fn set_auto_reconnect(&mut self, enabled: bool)
        ensures
            final(self)@ == (ServerNameView { auto_reconnect: enabled, ..old(self)@ }),
    {
        proof {
            use_type_invariant(&*self);
        }
        self.auto_reconnect = enabled;
    }

    /// Whether the Spotify Connect level is pinned to 100.
    pub fn spotify_volume_lock(&self) -> (on: bool)
        ensures
            on == self@.spotify_volume_lock,
    {
        self.spotify_volume_lock
    }

    /// Store the Spotify volume lock.
    pub fn set_spotify_volume_lock(&mut self, enabled: bool)
        ensures
            final(self)@ == (ServerNameView { spotify_volume_lock: enabled, ..old(self)@ }),
    {
        proof {
            use_type_invariant(&*self);
        }
        self.spotify_volume_lock = enabled;
    }

    /// Validate, trim and store a new name, returning what was stored. A
    /// refused name leaves the current one in place.
    pub fn set_name(&mut self, raw: &str) -> (res: Result<String, NameError>)
        ensures
            name_result_view(res) == spec_validate_name(raw@),
            match spec_validate_name(raw@) {
                Ok(n) => final(self)@ == (ServerNameView { name: n, ..old(self)@ }),
                Err(_) => final(self)@ == old(self)@,
            },
    {
        let name = validate_backend_name(raw)?;
        proof {
            law_validated_name_is_stable(raw@);
        }
        self.name = name.clone();
        Ok(name)
    }
}

/// The settings after a configuration request, and its answer: whether
/// auto-reconnect was switched back on. The name is validated first; a refused
/// name leaves every setting as it was.
pub open spec fn spec_apply_request(s: ServerNameView, name: Seq<char>, restore: bool, auto: bool) -> (
    ServerNameView,
    Result<bool, NameError>,
) {
    match spec_validate_name(name) {
        Ok(n) => (
            ServerNameView { name: n, restore_during_playback: restore, auto_reconnect: auto, ..s },
            Ok(!s.auto_reconnect && auto),
        ),
        Err(e) => (s, Err(e)),
    }
}

impl ServerName {
    /// Apply a configuration request: the name is validated first, and only
    /// once it is accepted are the settings applied, so a refused request
    /// changes nothing at all. Answers whether auto-reconnect was switched back
    /// on (the off to on edge alone, never a repeated on), which re-arms every
    /// remembered speaker.
    pub fn apply_request(&mut self, name: &str, restore_during_playback: bool, auto_reconnect: bool) -> (res: Result<bool, NameError>)
        ensures
            (final(self)@, res) == spec_apply_request(old(self)@, name@, restore_during_playback, auto_reconnect),
    {
        match self.set_name(name) {
            Err(e) => Err(e),
            Ok(_) => {
                self.set_restore_during_playback(restore_during_playback);
                let resumed = !self.auto_reconnect && auto_reconnect;
                self.set_auto_reconnect(auto_reconnect);
                Ok(resumed)
            },
        }
    }
}

/// A refused configuration request changes nothing, and an accepted one is
/// idempotent: pushing the same request again leaves the settings as they are
/// and re-arms nothing, since only the off to on edge of auto-reconnect does.
pub proof fn law_config_request_is_all_or_nothing(s: ServerNameView, name: Seq<char>, restore: bool, auto: bool)
    ensures
        spec_apply_request(s, name, restore, auto).1 is Err ==> spec_apply_request(s, name, restore, auto).0 == s,
        ({
            let once = spec_apply_request(s, name, restore, auto).0;
            let twice = spec_apply_request(once, name, restore, auto);
            spec_apply_request(s, name, restore, auto).1 is Ok ==> twice.0 == once && twice.1
                == Ok::<bool, NameError>(false)
        }),
{
    if spec_validate_name(name) is Ok {
        law_validated_name_is_stable(name);
    }
}

/// Path of the name store, given `$XDG_STATE_HOME` and `$HOME`.
pub fn name_store_path(xdg_state_home: Option<&str>, home: Option<&str>) -> (path: Option<String>)
    ensures
        match path {
            Some(p) => spec_state_store_path(opt_view(xdg_state_home), opt_view(home), "name.json"@) == Some(p@),
            None => spec_state_store_path(opt_view(xdg_state_home), opt_view(home), "name.json"@) is None,
        },
{
    state_store_path(xdg_state_home, home, "name.json")
}

/// The settings survive a store round trip: what [`ServerName::config`] hands
/// out reloads as the very same settings, since a held name always satisfies
/// the rule.
pub proof fn law_settings_round_trip_through_the_store(s: ServerNameView, c: ServerConfig)
    requires
        spec_validate_name(s.name) == Ok::<Seq<char>, NameError>(s.name),
        c.name@ == s.name,
        c.restore_during_playback == s.restore_during_playback,
        c.auto_reconnect == s.auto_reconnect,
        c.spotify_volume_lock == s.spotify_volume_lock,
    ensures
        spec_reloaded(Some(c)) == s,
{
}

/// The default name satisfies the backend-name rule: the backend never holds a
/// name its own rule would refuse.
pub proof fn law_default_name_is_valid()
    ensures
        spec_validate_name(default_name()) == Ok::<Seq<char>, NameError>(default_name()),
{
    reveal_strlit("blue2th-PC");
    let n = default_name();
    crate::text::lemma_trim_of_unspaced_ends(n);
    assert forall|i: int| 0 <= i < n.len() implies is_name_char(#[trigger] n[i]) by {}
}

/// A name the rule accepted is accepted again unchanged, so what a rename
/// stored always reloads as itself.
pub proof fn law_validated_name_is_stable(raw: Seq<char>)
    requires
        spec_validate_name(raw) is Ok,
    ensures
        spec_validate_name(spec_validate_name(raw)->Ok_0) == spec_validate_name(raw),
{
    let name = trim(raw);
    assert(is_name_char(name[0]));
    assert(!crate::text::is_space(name[0]));
    assert(!crate::text::is_space(name[name.len() - 1]));
    crate::text::lemma_trim_of_unspaced_ends(name);
}

/// The backend-name rule, checked in order on the trimmed name `t`: nothing
/// left is refused as `Empty`; more than 32 characters as `TooLong`; a first
/// character that is not an ASCII letter (`A`–`Z`, `a`–`z`; a digit, `-` or
/// `_` included) as `BadStart`; any character other than an ASCII letter,
/// digit, `-` or `_` as `BadChar`; anything else is accepted as `t` itself.
pub proof fn law_validation_refuses_by_the_first_broken_rule(raw: Seq<char>)
    ensures
        trim(raw).len() == 0 ==> spec_validate_name(raw) == Err::<Seq<char>, NameError>(NameError::Empty),
        trim(raw).len() > 32 ==> spec_validate_name(raw) == Err::<Seq<char>, NameError>(NameError::TooLong),
        0 < trim(raw).len() <= 32 && !(('A' <= trim(raw)[0] <= 'Z') || ('a' <= trim(raw)[0] <= 'z'))
            ==> spec_validate_name(raw) == Err::<Seq<char>, NameError>(NameError::BadStart),
        0 < trim(raw).len() <= 32 && (('A' <= trim(raw)[0] <= 'Z') || ('a' <= trim(raw)[0] <= 'z')) && (exists|i: int|
            0 <= i < trim(raw).len() && !(('A' <= #[trigger] trim(raw)[i] <= 'Z') || ('a' <= trim(raw)[i] <= 'z') || (
            '0' <= trim(raw)[i] <= '9') || trim(raw)[i] == '-' || trim(raw)[i] == '_')) ==> spec_validate_name(raw)
            == Err::<Seq<char>, NameError>(NameError::BadChar),
        0 < trim(raw).len() <= 32 && (('A' <= trim(raw)[0] <= 'Z') || ('a' <= trim(raw)[0] <= 'z')) && (forall|i: int|
            0 <= i < trim(raw).len() ==> (('A' <= #[trigger] trim(raw)[i] <= 'Z') || ('a' <= trim(raw)[i] <= 'z') || (
            '0' <= trim(raw)[i] <= '9') || trim(raw)[i] == '-' || trim(raw)[i] == '_')) ==> spec_validate_name(raw)
            == Ok::<Seq<char>, NameError>(trim(raw)),
{
}

/// An accepted name is the trimmed input, is 1 to 32 characters long, starts
/// with an ASCII letter and holds only ASCII letters, digits, `-` and `_`.
pub proof fn law_an_accepted_name_starts_with_a_letter(raw: Seq<char>)
    ensures
        spec_validate_name(raw) matches Ok(n) ==> {
            &&& n == trim(raw)
            &&& 0 < n.len() <= 32
            &&& ('A' <= n[0] <= 'Z') || ('a' <= n[0] <= 'z')
            &&& forall|i: int|
                0 <= i < n.len() ==> (('A' <= #[trigger] n[i] <= 'Z') || ('a' <= n[i] <= 'z') || ('0' <= n[i] <= '9')
                    || n[i] == '-' || n[i] == '_')
        },
{
}

/// White space around a name changes nothing: a name padded with a space on
/// each side is judged, and accepted or refused, exactly as the name itself.
pub proof fn law_surrounding_space_is_ignored(raw: Seq<char>)
    ensures
        spec_validate_name(seq![' '] + raw + seq![' ']) == spec_validate_name(raw),
{
    crate::text::lemma_trim_padded(raw);
}

} // verus!
