//! Where the append-only journal of a campaign is kept.

use vstd::prelude::*;

use crate::text::{decimal, spell};

verus! {

/// A directory of the user's that a path starts from.
#[derive(Clone, Copy, Debug, PartialEq, Eq, Structural)]
pub enum Base {
    /// `$XDG_STATE_HOME`.
    StateHome,
    /// `$HOME`.
    Home,
}

/// What lies between the base directory and the journal.
pub open spec fn journal_parts(state_home: bool, pid: u32) -> Seq<Seq<char>> {
    let below = seq!["crucible"@, "logs"@, decimal(pid as nat), "journal.ndjson"@];
    if state_home {
        below
    } else {
        seq![".local/state"@] + below
    }
}

/// Default journal path under `$XDG_STATE_HOME/crucible/logs/{pid}/journal.ndjson`,
/// falling back to `$HOME/.local/state/...` when `XDG_STATE_HOME` is unset, as
/// the directory it starts from and the parts to join behind it.
pub fn default_path(state_home: bool, pid: u32) -> (r: (Base, Vec<String>))
    ensures
        r.0 == (if state_home {
            Base::StateHome
        } else {
            Base::Home
        }),
        r.1.deep_view() == journal_parts(state_home, pid),
{
    let mut parts: Vec<String> = Vec::new();
    let base = if state_home {
        Base::StateHome
    } else {
        parts.push(".local/state".to_owned());
        Base::Home
    };
    parts.push("crucible".to_owned());
    parts.push("logs".to_owned());
    parts.push(spell(pid as u128));
    parts.push("journal.ndjson".to_owned());
    assert(parts.deep_view() =~= journal_parts(state_home, pid));
    (base, parts)
}

} // verus!
