//! Decisions of the ordered, first-success fallback over preferred languages
//! when asking the remote source for caption tracks.
use vstd::prelude::*;

verus! {

/// Why a transcript could not be produced.
#[derive(Debug, Clone, Copy, PartialEq, Eq, Structural)]
pub enum TranscriptError {
    /// No preferred language yielded a usable track listing, or none of the
    /// listed tracks matches a preference.
    NoCaptionsAvailable,
    /// The chosen track's payload could not be retrieved.
    TrackFetchFailed,
    /// The payload did not have the expected structure.
    DecodeError,
    /// No connection to the captioning service could be set up, so nothing
    /// was asked.
    TransportUnavailable,
}

/// What the caller does next while looking for a track listing.
#[derive(Debug, Clone, Copy, PartialEq, Eq, Structural)]
pub enum FetchAction {
    /// Ask the remote source for the listing under the preference at this position.
    Request(usize),
    /// Use the listing obtained under the preference at this position.
    Accept(usize),
    /// Every preference was tried and none gave a usable listing.
    GiveUp,
}

/// The first step: ask under the first preference, or give up when there is none.
pub fn first_fetch_action(n_prefs: usize) -> (r: FetchAction)
    ensures
        n_prefs == 0 ==> r == FetchAction::GiveUp,
        n_prefs > 0 ==> r == FetchAction::Request(0),
{
    if n_prefs == 0 {
        FetchAction::GiveUp
    } else {
        FetchAction::Request(0)
    }
}

/// The step after the request under preference `attempt` came back: `None`
/// when it failed, else the number of tracks listed. A non-empty listing is
/// accepted and ends the search; a failed or empty one moves on to the next
/// preference, and after the last one the search gives up. Each preference is
/// asked at most once, in order.
pub fn next_fetch_action(n_prefs: usize, attempt: usize, listed: Option<usize>) -> (r: FetchAction)
    requires
        attempt < n_prefs,
    ensures
        (listed matches Some(n) && n > 0) ==> r == FetchAction::Accept(attempt),
        !(listed matches Some(n) && n > 0) && attempt + 1 < n_prefs ==> r == FetchAction::Request(
            (attempt + 1) as usize,
        ),
        !(listed matches Some(n) && n > 0) && attempt + 1 == n_prefs ==> r == FetchAction::GiveUp,
{
    match listed {
        Some(n) if n > 0 => FetchAction::Accept(attempt),
        _ => {
            if attempt + 1 < n_prefs {
                FetchAction::Request(attempt + 1)
            } else {
                FetchAction::GiveUp
            }
        },
    }
}

} // verus!
