//! The backend's stable identity: an id minted once and published, so the app
//! recognises this machine across address changes. It lives apart from the
//! API token, so re-minting the token never changes who the machine is.

use crate::entropy::{all_url_safe, b64_url_no_pad, random_url_safe};
use crate::state_store::{opt_view, spec_state_store_path, state_store_path};
use vstd::prelude::*;
use vstd::string::StrSliceExecFns;

verus! {

/// How many random bytes an id carries.
pub const ID_ENTROPY_BYTES: usize = 16;

/// Whether `id` has the shape of a minted id: the URL-safe encoding of
/// [`ID_ENTROPY_BYTES`] random bytes, hence 22 URL-safe characters.
pub open spec fn is_minted_id(id: Seq<char>) -> bool {
    &&& exists|b: Seq<u8>| b.len() == ID_ENTROPY_BYTES && id == b64_url_no_pad(b)
    &&& id.len() == 22
    &&& all_url_safe(id)
}

/// Mint a URL-safe id from fresh random bytes: it rides in a TXT record and
/// in the app's settings blob.
pub fn generate_id() -> (id: String)
    ensures
        is_minted_id(id@),
{
    random_url_safe(ID_ENTROPY_BYTES)
}

/// Path of the identity store, given `$XDG_STATE_HOME` and `$HOME`.
pub fn identity_store_path(xdg_state_home: Option<&str>, home: Option<&str>) -> (path: Option<String>)
    ensures
        match path {
            Some(p) => spec_state_store_path(opt_view(xdg_state_home), opt_view(home), "identity.json"@) == Some(p@),
            None => spec_state_store_path(opt_view(xdg_state_home), opt_view(home), "identity.json"@) is None,
        },
{
    state_store_path(xdg_state_home, home, "identity.json")
}

/// Whether a store holding `stored` reloads as the id `id`, minted or not: a
/// stored id that is not blank comes back as it is; anything else is replaced
/// by a freshly minted one.
pub open spec fn reloads_as(stored: Option<Seq<char>>, id: Seq<char>, minted: bool) -> bool {
    match stored {
        Some(s) if s.len() > 0 => id == s && !minted,
        _ => is_minted_id(id) && minted,
    }
}

/// The stable id this backend advertises.
pub struct BackendIdentity {
    id: String,
    minted: bool,
}

impl BackendIdentity {
    /// The id, as characters.
    pub closed spec fn spec_id(&self) -> Seq<char> {
        self.id@
    }

    /// Whether the id was minted rather than reloaded.
    pub closed spec fn spec_minted(&self) -> bool {
        self.minted
    }

    /// A freshly minted id.
    pub fn new() -> (identity: Self)
        ensures
            is_minted_id(identity.spec_id()),
            identity.spec_minted(),
    {
        BackendIdentity { id: generate_id(), minted: true }
    }

    /// The id reloaded from a store: `stored` is the id it held, or `None` when
    /// it was missing, unreadable or malformed. A missing or blank id is
    /// replaced by a freshly minted one, which the caller persists.
    pub fn with_store(stored: Option<String>) -> (identity: Self)
        ensures
            reloads_as(
                match stored {
                    Some(id) => Some(id@),
                    None => None,
                },
                identity.spec_id(),
                identity.spec_minted(),
            ),
    {
        match stored {
            Some(id) => {
                if id.unicode_len() > 0 {
                    BackendIdentity { id, minted: false }
                } else {
                    BackendIdentity::new()
                }
            },
            None => BackendIdentity::new(),
        }
    }

    /// The current stable id.
    pub fn id(&self) -> (id: &str)
        ensures
            id@ == self.spec_id(),
    {
        self.id.as_str()
    }

    /// Whether the id was minted rather than reloaded from the store.
    pub fn minted_a_new_id(&self) -> (minted: bool)
        ensures
            minted == self.spec_minted(),
    {
        self.minted
    }
}

/// An id survives its store: a minted id, persisted and reloaded, comes back
/// as the very same id, and is not reported as newly minted.
pub proof fn law_persisted_id_reloads_unchanged(id: Seq<char>, reloaded: Seq<char>, minted: bool)
    requires
        is_minted_id(id),
        reloads_as(Some(id), reloaded, minted),
    ensures
        reloaded == id,
        !minted,
{
}

} // verus!
