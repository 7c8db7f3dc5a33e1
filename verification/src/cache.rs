//! Decisions of the usage-graph loader around its disk cache. The cache
//! holds the last computed payload with the mtime token of the source logs it
//! was computed from; the loader serves it instead of re-parsing the logs
//! when the logs are unchanged, or unconditionally in stale-ok mode.

use vstd::prelude::*;

verus! {

/// What the cache file holds: the token it was written for (when it reads as
/// an unsigned integer) and whether a payload is present.
pub struct CacheEntry {
    pub token: Option<u64>,
    pub has_payload: bool,
}

/// The loader's next step.
pub enum LoadStep {
    /// Serve the cached payload.
    UseCache,
    /// Take the source logs' mtime token and look again.
    CheckToken,
    /// Parse the logs; on success store the payload under `persist`, if any.
    RunReport { persist: Option<u64> },
}

pub open spec fn entry_has_payload(entry: Option<CacheEntry>) -> bool {
    match entry {
        Some(e) => e.has_payload,
        None => false,
    }
}

/// First step: in stale-ok mode any cached payload is served; otherwise
/// the freshness token decides.
pub fn first_step(stale_ok: bool, entry: &Option<CacheEntry>) -> (step: LoadStep)
    ensures
        step == if stale_ok && entry_has_payload(*entry) {
            LoadStep::UseCache
        } else {
            LoadStep::CheckToken
        },
{
    let has = match entry {
        Some(e) => e.has_payload,
        None => false,
    };
    if stale_ok && has {
        LoadStep::UseCache
    } else {
        LoadStep::CheckToken
    }
}

/// After the token: the cached payload is served when it was computed for
/// exactly this token; otherwise the logs are parsed and the result is
/// stored under the token (when there is one).
pub fn step_after_token(token: Option<u64>, entry: &Option<CacheEntry>) -> (step: LoadStep)
    ensures
        step == match (token, *entry) {
            (Some(t), Some(e)) => if e.token == Some(t) && e.has_payload {
                LoadStep::UseCache
            } else {
                LoadStep::RunReport { persist: token }
            },
            _ => LoadStep::RunReport { persist: token },
        },
{
    match (token, entry) {
        (Some(t), Some(e)) => {
            let fresh = match e.token {
                Some(c) => c == t,
                None => false,
            };
            if fresh && e.has_payload {
                LoadStep::UseCache
            } else {
                LoadStep::RunReport { persist: token }
            }
        },
        _ => LoadStep::RunReport { persist: token },
    }
}

} // verus!
