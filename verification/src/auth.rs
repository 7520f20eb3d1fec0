//! Authentication for the LAN API.
//!
//! Every route requires `Authorization: Bearer <token>`, except the health
//! check and the pairing route, which is the one open door: the pairing code
//! is armed only briefly, one-shot, and rate limited. Times are milliseconds
//! since the Unix epoch, handed in by the caller; nothing here reads a clock.

use crate::entropy::{all_url_safe, b64_url_no_pad, random_below, random_url_safe};
use crate::state_store::{spec_state_store_path, state_store_path};
use crate::text::{chars_of, find_char, find_from, skip_spaces, trim_start};
use vstd::prelude::*;
use vstd::string::StrSliceExecFns;
use vstd::utf8::encode_utf8_decode_utf8;

verus! {

/// How long a minted pairing code stays armed, in milliseconds.
pub const PAIRING_TTL: u64 = 300_000;

/// How many failed attempts invalidate the armed code.
pub const MAX_PAIRING_ATTEMPTS: u32 = 5;

/// Number of characters in a minted pairing code.
pub const PAIRING_CODE_LEN: usize = 6;

/// Entropy of the long-lived API token, in bytes.
pub const TOKEN_ENTROPY_BYTES: usize = 32;

/// Path of the token store, given `$XDG_STATE_HOME` and `$HOME`.
pub fn auth_store_path(xdg_state_home: Option<&str>, home: Option<&str>) -> (path: Option<String>)
    ensures
        match path {
            Some(p) => spec_state_store_path(opt_str_view(xdg_state_home), opt_str_view(home), "auth.json"@) == Some(p@),
            None => spec_state_store_path(opt_str_view(xdg_state_home), opt_str_view(home), "auth.json"@) is None,
        },
{
    state_store_path(xdg_state_home, home, "auth.json")
}

/// Why a pairing attempt was refused.
///
/// **One variant on purpose**: an unknown code, an expired one, an already-used
/// one and "no code armed at all" must be indistinguishable to the caller.
#[derive(Debug, Clone, Copy, PartialEq, Eq)]
pub enum PairError {
    /// The submitted code was not accepted. That is all the client learns.
    Rejected,
}

impl PairError {
    /// The message shown to the client; the same for every refusal.
    pub fn to_string(&self) -> (msg: String)
        ensures
            msg@ == pair_error_message(),
    {
        let msg = String::from_str("pairing refused — ask for a fresh pairing code");
        proof {
            reveal_strlit("pairing refused — ask for a fresh pairing code");
        }
        msg
    }
}

/// The text of a refused pairing.
pub open spec fn pair_error_message() -> Seq<char> {
    "pairing refused — ask for a fresh pairing code"@
}

/// Mint a long-lived, URL-safe API token carrying [`TOKEN_ENTROPY_BYTES`]
/// bytes of entropy.
pub fn generate_token() -> (token: String)
    ensures
        is_minted_token(token@),
{
    random_url_safe(TOKEN_ENTROPY_BYTES)
}

/// Whether `t` has the shape of a minted token: the URL-safe encoding of
/// [`TOKEN_ENTROPY_BYTES`] random bytes, hence 43 URL-safe characters.
pub open spec fn is_minted_token(t: Seq<char>) -> bool {
    &&& exists|b: Seq<u8>| b.len() == TOKEN_ENTROPY_BYTES && t == b64_url_no_pad(b)
    &&& t.len() == 43
    &&& all_url_safe(t)
}

/// The alphabet of a typed pairing code: `0`/`O` and `1`/`I`/`l` are left out.
pub open spec fn pairing_alphabet() -> Seq<char> {
    "ABCDEFGHJKMNPQRSTUVWXYZ23456789"@
}

/// The abstract content of a [`PairingCode`].
pub ghost struct PairingCodeView {
    pub code: Seq<char>,
    pub expires_at: u64,
    pub attempts: u32,
    pub consumed: bool,
}

/// A pairing code armed by the server: short, URL-safe, short-lived, one-shot
/// and rate limited.
#[derive(Debug, Clone, PartialEq, Eq)]
pub struct PairingCode {
    code: String,
    expires_at: u64,
    attempts: u32,
    consumed: bool,
}

impl View for PairingCode {
    type V = PairingCodeView;

    closed spec fn view(&self) -> PairingCodeView {
        PairingCodeView {
            code: self.code@,
            expires_at: self.expires_at,
            attempts: self.attempts,
            consumed: self.consumed,
        }
    }
}

impl PairingCode {
    /// Mint a fresh code, armed for [`PAIRING_TTL`] from `now`.
    pub fn mint(now: u64) -> (minted: Self)
        requires
            now + PAIRING_TTL <= u64::MAX,
        ensures
            minted@.code.len() == PAIRING_CODE_LEN,
            forall|i: int| 0 <= i < PAIRING_CODE_LEN ==> pairing_alphabet().contains(#[trigger] minted@.code[i]),
            minted@.expires_at == now + PAIRING_TTL,
            minted@.attempts == 0,
            !minted@.consumed,
    {
        let alphabet = "ABCDEFGHJKMNPQRSTUVWXYZ23456789";
        proof {
            reveal_strlit("ABCDEFGHJKMNPQRSTUVWXYZ23456789");
        }
        let n = alphabet.unicode_len();
        let mut code = String::new();
        let mut i: usize = 0;
        while i < PAIRING_CODE_LEN
            invariant
                alphabet@ == pairing_alphabet(),
                n == pairing_alphabet().len(),
                n == 31,
                0 <= i <= PAIRING_CODE_LEN,
                code@.len() == i,
                forall|j: int| 0 <= j < i ==> pairing_alphabet().contains(#[trigger] code@[j]),
            decreases PAIRING_CODE_LEN - i,
        {
            let index = random_below(n);
            let c = alphabet.get_char(index);
            crate::text::push_char(&mut code, c);
            assert(code@[i as int] == pairing_alphabet()[index as int]);
            i = i + 1;
        }
        PairingCode { code, expires_at: now + PAIRING_TTL, attempts: 0, consumed: false }
    }

    /// An explicitly armed code.
    pub fn armed(code: &str, expires_at: u64) -> (armed: Self)
        ensures
            armed@ == (PairingCodeView { code: code@, expires_at, attempts: 0, consumed: false }),
    {
        PairingCode { code: code.to_owned(), expires_at, attempts: 0, consumed: false }
    }

    /// The code the operator reads off the terminal.
    pub fn code(&self) -> (code: &str)
        ensures
            code@ == self@.code,
    {
        self.code.as_str()
    }

    /// When the code stops being accepted.
    pub fn expires_at(&self) -> (at: u64)
        ensures
            at == self@.expires_at,
    {
        self.expires_at
    }

    /// Failed attempts recorded so far.
    pub fn attempts(&self) -> (n: u32)
        ensures
            n == self@.attempts,
    {
        self.attempts
    }

    /// Whether the code was already exchanged for the token.
    pub fn is_consumed(&self) -> (spent: bool)
        ensures
            spent == self@.consumed,
    {
        self.consumed
    }

    /// Mark the code as spent (one-shot).
    pub fn consume(&mut self)
        ensures
            final(self)@ == (PairingCodeView { consumed: true, ..old(self)@ }),
    {
        self.consumed = true;
    }

    /// Record a failed attempt; the count saturates.
    pub fn register_failure(&mut self)
        ensures
            final(self)@ == (PairingCodeView { attempts: saturating_inc(old(self)@.attempts), ..old(self)@ }),
    {
        self.attempts = self.attempts.saturating_add(1);
    }
}

/// `n + 1`, saturating at `u32::MAX`.
pub open spec fn saturating_inc(n: u32) -> u32 {
    if n == u32::MAX {
        n
    } else {
        (n + 1) as u32
    }
}

/// Whether `submitted` is accepted against the armed code at `now`: an
/// exactly-matching, unexpired, unconsumed code whose attempt count is still
/// under [`MAX_PAIRING_ATTEMPTS`].
pub open spec fn accepts(stored: Option<PairingCodeView>, submitted: Seq<char>, now: u64) -> bool {
    match stored {
        None => false,
        Some(c) => !c.consumed && c.attempts < MAX_PAIRING_ATTEMPTS && now < c.expires_at
            && c.code == submitted,
    }
}

/// The view of an optional borrowed code.
pub open spec fn opt_view(stored: Option<&PairingCode>) -> Option<PairingCodeView> {
    match stored {
        None => None,
        Some(c) => Some(c@),
    }
}

/// Whether `submitted` matches the armed code. Every refusal returns the
/// same [`PairError`], on purpose.
pub fn verify_code(stored: Option<&PairingCode>, submitted: &str, now: u64) -> (res: Result<(), PairError>)
    ensures
        res is Ok <==> accepts(opt_view(stored), submitted@, now),
        res is Err ==> res == Err::<(), PairError>(PairError::Rejected),
{
    let stored = match stored {
        None => return Err(PairError::Rejected),
        Some(c) => c,
    };
    if stored.is_consumed() || stored.attempts() >= MAX_PAIRING_ATTEMPTS || now >= stored.expires_at()
        || !constant_time_eq(stored.code(), submitted) {
        return Err(PairError::Rejected);
    }
    Ok(())
}

/// Compare two secrets without an early exit on the first differing byte.
fn constant_time_eq(expected: &str, presented: &str) -> (eq: bool)
    ensures
        eq == (expected@ == presented@),
{
    let e = expected.as_bytes();
    let p = presented.as_bytes();
    proof {
        encode_utf8_decode_utf8(expected@);
        encode_utf8_decode_utf8(presented@);
    }
    if e.len() != p.len() {
        return false;
    }
    let mut acc: u8 = 0;
    let mut i: usize = 0;
    while i < e.len()
        invariant
            e@.len() == p@.len(),
            0 <= i <= e@.len(),
            (acc == 0) <==> (forall|k: int| 0 <= k < i ==> e@[k] == p@[k]),
        decreases e.len() - i,
    {
        let a = e[i];
        let b = p[i];
        let next = acc | (a ^ b);
        assert((next == 0) <==> (acc == 0 && a == b)) by (bit_vector)
            requires
                next == acc | (a ^ b),
        ;
        acc = next;
        i = i + 1;
    }
    assert((acc == 0) ==> e@ =~= p@);
    acc == 0
}

/// Whether `s` is the scheme `Bearer`, compared ignoring ASCII case.
pub open spec fn is_bearer_scheme(s: Seq<char>) -> bool {
    &&& s.len() == 6
    &&& (s[0] == 'B' || s[0] == 'b')
    &&& (s[1] == 'E' || s[1] == 'e')
    &&& (s[2] == 'A' || s[2] == 'a')
    &&& (s[3] == 'R' || s[3] == 'r')
    &&& (s[4] == 'E' || s[4] == 'e')
    &&& (s[5] == 'R' || s[5] == 'r')
}

/// The credential an `Authorization` header value carries: the header is split
/// at its first space, the part before it must be the `Bearer` scheme in any
/// ASCII case, and the part after it, with its leading white space dropped,
/// must not be empty.
pub open spec fn spec_bearer(header: Seq<char>) -> Option<Seq<char>> {
    let k = find_from(header, ' ', 0);
    let credential = trim_start(header.skip(k + 1));
    if k < header.len() && is_bearer_scheme(header.take(k)) && credential.len() > 0 {
        Some(credential)
    } else {
        None
    }
}

/// [`spec_bearer`] lifted to an optional header.
pub open spec fn spec_bearer_opt(header: Option<Seq<char>>) -> Option<Seq<char>> {
    match header {
        None => None,
        Some(h) => spec_bearer(h),
    }
}

/// The view of an optional borrowed string.
pub open spec fn opt_str_view(s: Option<&str>) -> Option<Seq<char>> {
    match s {
        None => None,
        Some(s) => Some(s@),
    }
}

/// Extract the credential from an `Authorization` header value.
///
/// `None` for a missing header, a non-`Bearer` scheme or an empty credential.
/// Leading spaces before the credential are dropped; trailing ones are kept,
/// since the token is opaque.
pub fn bearer_token<'a>(header: Option<&'a str>) -> (credential: Option<&'a str>)
    ensures
        opt_str_view(credential) == spec_bearer_opt(opt_str_view(header)),
{
    let h = match header {
        None => return None,
        Some(h) => h,
    };
    let v = chars_of(h);
    let k = find_char(&v, ' ', 0);
    proof {
        crate::text::lemma_find_from(v@, ' ', 0);
    }
    if k == v.len() {
        return None;
    }
    let is_bearer = k == 6 && (v[0] == 'B' || v[0] == 'b') && (v[1] == 'E' || v[1] == 'e') && (v[2]
        == 'A' || v[2] == 'a') && (v[3] == 'R' || v[3] == 'r') && (v[4] == 'E' || v[4] == 'e') && (
    v[5] == 'R' || v[5] == 'r');
    assert(is_bearer == is_bearer_scheme(v@.take(k as int)));
    if !is_bearer {
        return None;
    }
    let start = skip_spaces(&v, k + 1);
    if start == v.len() {
        assert(v@.skip(start as int).len() == 0);
        return None;
    }
    Some(h.substring_char(start, v.len()))
}

/// Whether an `Authorization` header carries exactly `expected`.
pub fn is_authorised(expected: &str, header: Option<&str>) -> (ok: bool)
    ensures
        ok == (spec_bearer_opt(opt_str_view(header)) == Some(expected@)),
{
    match bearer_token(header) {
        Some(presented) => constant_time_eq(expected, presented),
        None => false,
    }
}

/// The abstract content of an [`AuthStore`]: the token and the armed code.
pub ghost struct AuthStoreView {
    pub token: Seq<char>,
    pub pairing: Option<PairingCodeView>,
}

/// The pairing state after a refused attempt: the attempt is counted, and the
/// code is gone once the count reaches [`MAX_PAIRING_ATTEMPTS`].
pub open spec fn after_rejection(pairing: Option<PairingCodeView>) -> Option<PairingCodeView> {
    match pairing {
        None => None,
        Some(c) => {
            let counted = PairingCodeView { attempts: saturating_inc(c.attempts), ..c };
            if counted.attempts >= MAX_PAIRING_ATTEMPTS {
                None
            } else {
                Some(counted)
            }
        },
    }
}

/// What redeeming `submitted` at `now` does to a store: the state after the
/// call, and the answer.
pub open spec fn spec_redeem(st: AuthStoreView, submitted: Seq<char>, now: u64) -> (
    AuthStoreView,
    Result<Seq<char>, PairError>,
) {
    if accepts(st.pairing, submitted, now) {
        (
            AuthStoreView { pairing: Some(PairingCodeView { consumed: true, ..st.pairing->0 }), ..st },
            Ok(st.token),
        )
    } else {
        (AuthStoreView { pairing: after_rejection(st.pairing), ..st }, Err(PairError::Rejected))
    }
}

/// The view of a redemption's answer.
pub open spec fn redeem_view(res: Result<String, PairError>) -> Result<Seq<char>, PairError> {
    match res {
        Ok(t) => Ok(t@),
        Err(e) => Err(e),
    }
}

/// The backend's API token and the pairing code currently armed.
///
/// Holds no store: persisting the token is the caller's, so constructing one
/// never reads or writes the disk.
pub struct AuthStore {
    token: String,
    pairing: Option<PairingCode>,
}

impl View for AuthStore {
    type V = AuthStoreView;

    closed spec fn view(&self) -> AuthStoreView {
        AuthStoreView {
            token: self.token@,
            pairing: match self.pairing {
                None => None,
                Some(c) => Some(c@),
            },
        }
    }
}

impl AuthStore {
    /// A fresh token and no armed code.
    pub fn new() -> (store: Self)
        ensures
            is_minted_token(store@.token),
            store@.pairing is None,
    {
        AuthStore { token: generate_token(), pairing: None }
    }

    /// A store around an explicit token.
    pub fn with_token(token: &str) -> (store: Self)
        ensures
            store@ == (AuthStoreView { token: token@, pairing: None }),
    {
        AuthStore { token: token.to_owned(), pairing: None }
    }

    /// A store around the token read back from persistent storage: `stored` is
    /// that token, or `None` when the store was missing, unreadable or malformed.
    /// An absent or empty token is replaced by a freshly minted one — never by
    /// no authentication at all.
    pub fn with_store(stored: Option<String>) -> (store: Self)
        ensures
            store@.pairing is None,
            match stored {
                Some(t) if t@.len() > 0 => store@.token == t@,
                _ => is_minted_token(store@.token),
            },
    {
        let token = match stored {
            Some(t) => {
                if t.unicode_len() > 0 {
                    t
                } else {
                    generate_token()
                }
            },
            None => generate_token(),
        };
        AuthStore { token, pairing: None }
    }

    /// The current API token.
    pub fn token(&self) -> (token: &str)
        ensures
            token@ == self@.token,
    {
        self.token.as_str()
    }

    /// The pairing code currently armed, if any.
    pub fn armed(&self) -> (code: Option<&PairingCode>)
        ensures
            opt_view(code) == self@.pairing,
    {
        match &self.pairing {
            Some(c) => Some(c),
            None => None,
        }
    }

    /// Mint a new API token and return it: every paired client must pair again.
    pub fn rotate(&mut self) -> (token: String)
        ensures
            is_minted_token(final(self)@.token),
            final(self)@.pairing == old(self)@.pairing,
            token@ == final(self)@.token,
    {
        self.token = generate_token();
        self.token.clone()
    }

    /// Arm a fresh pairing code and return it, replacing any previous one.
    pub fn arm_pairing(&mut self, now: u64) -> (code: String)
        requires
            now + PAIRING_TTL <= u64::MAX,
        ensures
            final(self)@.token == old(self)@.token,
            final(self)@.pairing matches Some(c) && c.code == code@ && c.expires_at == now + PAIRING_TTL
                && c.attempts == 0 && !c.consumed,
            code@.len() == PAIRING_CODE_LEN,
            forall|i: int| 0 <= i < PAIRING_CODE_LEN ==> pairing_alphabet().contains(#[trigger] code@[i]),
    {
        let minted = PairingCode::mint(now);
        let code = minted.code.clone();
        self.pairing = Some(minted);
        code
    }

    /// Exchange a submitted code for the API token.
    ///
    /// On success the code is consumed (one-shot); on failure the attempt is
    /// recorded, and reaching [`MAX_PAIRING_ATTEMPTS`] invalidates the armed
    /// code. Every failure returns the same [`PairError`].
    pub fn redeem(&mut self, submitted: &str, now: u64) -> (res: Result<String, PairError>)
        ensures
            (final(self)@, redeem_view(res)) == spec_redeem(old(self)@, submitted@, now),
    {
        match verify_code(self.armed(), submitted, now) {
            Ok(()) => {
                match &mut self.pairing {
                    Some(code) => code.consume(),
                    None => {},
                }
                Ok(self.token.clone())
            },
            Err(err) => {
                let mut drop_code = false;
                match &mut self.pairing {
                    Some(code) => {
                        code.register_failure();
                        drop_code = code.attempts() >= MAX_PAIRING_ATTEMPTS;
                    },
                    None => {},
                }
                if drop_code {
                    self.pairing = None;
                }
                Err(err)
            },
        }
    }

    /// Whether an `Authorization` header value authorises a guarded route.
    pub fn authorises(&self, header: Option<&str>) -> (ok: bool)
        ensures
            ok == (spec_bearer_opt(opt_str_view(header)) == Some(self@.token)),
    {
        is_authorised(self.token.as_str(), header)
    }
}

/// A code is one-shot: once a redemption succeeded, redeeming any code again
/// fails until a new one is armed, whatever the time.
pub proof fn law_code_is_one_shot(st: AuthStoreView, code: Seq<char>, again: Seq<char>, now: u64, later: u64)
    requires
        spec_redeem(st, code, now).1 is Ok,
    ensures
        spec_redeem(spec_redeem(st, code, now).0, again, later).1 is Err,
{
}

/// A successful redemption answers exactly the store's token and never
/// changes it; a refused one answers the same error whatever made it fail.
pub proof fn law_redeem_answers_the_token_or_one_refusal(st: AuthStoreView, code: Seq<char>, now: u64)
    ensures
        spec_redeem(st, code, now).1 is Ok ==> spec_redeem(st, code, now).1 == Ok::<Seq<char>, PairError>(st.token),
        spec_redeem(st, code, now).1 is Err ==> spec_redeem(st, code, now).1 == Err::<Seq<char>, PairError>(PairError::Rejected),
        spec_redeem(st, code, now).0.token == st.token,
{
}

/// Without an armed code nothing is accepted, and nothing is armed by trying.
pub proof fn law_no_code_no_pairing(st: AuthStoreView, code: Seq<char>, now: u64)
    requires
        st.pairing is None,
    ensures
        spec_redeem(st, code, now).1 is Err,
        spec_redeem(st, code, now).0.pairing is None,
{
}

/// The attempt cap: a refusal counts one attempt, and the refusal that brings
/// the count to [`MAX_PAIRING_ATTEMPTS`] retires the code, so even the right
/// code is refused afterwards.
pub proof fn law_attempt_cap_retires_the_code(st: AuthStoreView, wrong: Seq<char>, right: Seq<char>, now: u64)
    requires
        st.pairing matches Some(c) && c.attempts < MAX_PAIRING_ATTEMPTS,
        spec_redeem(st, wrong, now).1 is Err,
    ensures
        st.pairing->0.attempts + 1 < MAX_PAIRING_ATTEMPTS ==> spec_redeem(st, wrong, now).0.pairing
            == Some(PairingCodeView { attempts: (st.pairing->0.attempts + 1) as u32, ..st.pairing->0 }),
        st.pairing->0.attempts + 1 == MAX_PAIRING_ATTEMPTS ==> spec_redeem(st, wrong, now).0.pairing is None,
        st.pairing->0.attempts + 1 == MAX_PAIRING_ATTEMPTS ==> spec_redeem(spec_redeem(st, wrong, now).0, right, now).1 is Err,
{
}

/// A code expires: accepted strictly before its deadline, refused from it on.
pub proof fn law_code_expires(c: PairingCodeView, now: u64)
    requires
        !c.consumed,
        c.attempts < MAX_PAIRING_ATTEMPTS,
    ensures
        accepts(Some(c), c.code, now) <==> now < c.expires_at,
{
}

/// Only an exact match is accepted: any other submission is refused.
pub proof fn law_only_the_exact_code_is_accepted(c: PairingCodeView, submitted: Seq<char>, now: u64)
    requires
        submitted != c.code,
    ensures
        !accepts(Some(c), submitted, now),
{
}

} // verus!
