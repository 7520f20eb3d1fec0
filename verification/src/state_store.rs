//! Where the backend keeps its small state files: an app-scoped directory
//! under the XDG state home.

use vstd::prelude::*;
use vstd::string::StrSliceExecFns;

verus! {

/// The directory, under the state home, that holds every blue2th state file.
pub open spec fn app_dir() -> Seq<char> {
    "blue2th"@
}

/// The state home the XDG base directory rules pick: `$XDG_STATE_HOME` when it
/// is set to an absolute path, else `$HOME/.local/state` when `$HOME` is set.
pub open spec fn spec_state_home(xdg_state_home: Option<Seq<char>>, home: Option<Seq<char>>) -> Option<Seq<char>> {
    match xdg_state_home {
        Some(x) if x.len() > 0 && x[0] == '/' => Some(x),
        _ => match home {
            Some(h) if h.len() > 0 => Some(h + "/.local/state"@),
            _ => None,
        },
    }
}

/// Path of the state file `file`, given the two environment variables the XDG
/// rules read: `<state home>/blue2th/<file>`, or `None` when no state home
/// can be resolved.
pub open spec fn spec_state_store_path(
    xdg_state_home: Option<Seq<char>>,
    home: Option<Seq<char>>,
    file: Seq<char>,
) -> Option<Seq<char>> {
    match spec_state_home(xdg_state_home, home) {
        Some(dir) => Some(dir + "/"@ + app_dir() + "/"@ + file),
        None => None,
    }
}

/// The view of an optional borrowed string.
pub open spec fn opt_view(s: Option<&str>) -> Option<Seq<char>> {
    match s {
        Some(s) => Some(s@),
        None => None,
    }
}

/// Path of the state file `file` under the app-scoped state directory, given
/// the values of `$XDG_STATE_HOME` and `$HOME`.
pub fn state_store_path(xdg_state_home: Option<&str>, home: Option<&str>, file: &str) -> (path: Option<String>)
    ensures
        match path {
            Some(p) => spec_state_store_path(opt_view(xdg_state_home), opt_view(home), file@) == Some(p@),
            None => spec_state_store_path(opt_view(xdg_state_home), opt_view(home), file@) is None,
        },
{
    let mut dir = String::new();
    let mut found = false;
    match xdg_state_home {
        Some(x) => {
            if x.unicode_len() > 0 && x.get_char(0) == '/' {
                dir.append(x);
                found = true;
            }
        },
        None => {},
    }
    if !found {
        match home {
            Some(h) => {
                if h.unicode_len() > 0 {
                    dir.append(h);
                    dir.append("/.local/state");
                    found = true;
                }
            },
            None => {},
        }
    }
    if !found {
        return None;
    }
    dir.append("/");
    dir.append("blue2th");
    dir.append("/");
    dir.append(file);
    Some(dir)
}

} // verus!
