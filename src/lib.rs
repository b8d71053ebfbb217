//! Authoritative session and replication-scope core of a multiplayer car
//! simulation server.
//!
//! The [`Session`] state machine owns the mapping from transport
//! connections to cars, gates car creation behind a join request, keeps the
//! replication targets of every car equal to the set of linked connections,
//! schedules the initial-state resync for newly linked connections and cleans
//! up on disconnect. Every lifecycle call returns the actions that the host
//! (the game engine and replication layer) has to perform.

mod color;
mod protocol;
mod session;

pub use color::{hue_of, lemma_consecutive_hues, player_hue, FULL_TURN_MILLIDEG, GOLDEN_ANGLE_MILLIDEG};
pub use protocol::{key, CarInput, InputChannel, JoinRequest, Player};
pub use session::{
    count_down, ids, lemma_links_unique, lemma_one_car_per_connection, lemma_scope_complete, linked, owners, player_of,
    position, resync_all, routed, scope_update, sync_wait_of, Action, CarEntity, ConnState,
    Connection, LinkView, Session, Warning, INITIAL_SYNC_WAIT,
};
