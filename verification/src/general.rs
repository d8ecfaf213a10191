//! The general commands' computing core: the ping reply and the snapshot
//! of both stores as two independent blobs. Reading and writing the blobs
//! on disk is the persistence collaborator's business.

use vstd::prelude::*;
use crate::players::PlayerContainer;
use crate::snapshot::{enc_player_store, enc_sugg_store, save_players, save_suggestions};
use crate::suggest::GameSuggestions;

verus! {

/// The general command group: liveness and persistence.
pub struct General;

impl General {
    /// The reply to a liveness check.
    pub fn ping() -> (r: String)
        ensures
            r@ == "Pong!"@,
    {
        String::from_str("Pong!")
    }

    /// Serializes both stores to their two independent snapshot blobs:
    /// suggestions first, player mappings second.
    pub fn save(suggestions: &GameSuggestions, mappings: &PlayerContainer) -> (r: (String, String))
        ensures
            r.0@ == enc_sugg_store(suggestions.model()),
            r.1@ == enc_player_store(mappings.model()),
    {
        (save_suggestions(suggestions), save_players(mappings))
    }
}

} // verus!
