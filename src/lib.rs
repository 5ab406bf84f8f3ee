//! An interactive chooser's core: fuzzy ranking of a fixed candidate list
//! against a query, and the session state driven by classified input events.

mod matcher;
mod session;

pub use matcher::{find_closest, rank_scored};
pub use session::{App, SessionEvent, MAX_RESULTS};
