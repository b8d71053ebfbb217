//! The session manager: which transport connections are linked, which car
//! each of them owns, where every car is replicated to, and which newly
//! linked connections still wait for their initial snapshot.
//!
//! Connections are kept in the order in which they linked; every list the
//! manager hands out (active connections, replication targets, actions)
//! follows that order, so a run is reproducible from its event sequence.

use crate::color::{hue_of, player_hue};
use crate::protocol::{CarInput, Player};
use vstd::prelude::*;

verus! {

/// Ticks that a newly linked connection waits before every existing car is
/// resent to it.
pub const INITIAL_SYNC_WAIT: u8 = 3;

/// A car in the world: the player that drives it and the connections its
/// state is replicated to.
pub struct CarEntity {
    pub player: Player,
    pub targets: Vec<u64>,
}

/// Where a linked connection stands in the join handshake.
pub enum ConnState {
    /// Linked, no join request accepted yet; owns no car.
    JoinPending,
    /// Joined: owns exactly this car.
    Active(CarEntity),
}

/// A linked connection and its transient markers.
pub struct Connection {
    pub id: u64,
    pub state: ConnState,
    /// Ticks left before the initial snapshot; `None` once it was sent.
    pub sync_wait: Option<u8>,
}

/// What the manager records of one linked connection, replication targets
/// aside (those always equal the list of linked connections).
pub struct LinkView {
    pub id: u64,
    pub player: Option<Player>,
    pub sync_wait: Option<u8>,
}

impl View for Connection {
    type V = LinkView;

    open spec fn view(&self) -> LinkView {
        LinkView {
            id: self.id,
            player: match self.state {
                ConnState::Active(car) => Some(car.player),
                ConnState::JoinPending => None,
            },
            sync_wait: self.sync_wait,
        }
    }
}

/// Anomalies that the manager absorbs and reports instead of failing.
#[derive(Clone, Copy, Debug, PartialEq, Eq, Structural)]
pub enum Warning {
    /// A join request from a connection that already owns a car.
    DuplicateJoin,
    /// A join request from a connection that is not linked.
    UnlinkedJoin,
    /// A teardown of a connection that owned no car.
    OrphanDisconnect,
}

/// Work for the host, in the order in which it is to be done.
#[derive(Debug, PartialEq, Eq)]
pub enum Action {
    /// Spawn the car of this connection (its player is `Session::player`).
    Spawn { owner: u64 },
    /// Destroy the car of this connection.
    Despawn { owner: u64 },
    /// Replace the replication targets of this connection's car.
    SetTargets { owner: u64, targets: Vec<u64> },
    /// Resend the full state of this connection's car.
    ForceResync { owner: u64 },
    /// Report an absorbed anomaly.
    Warn(Warning),
}

/// The ids of the linked connections, in link order.
pub open spec fn ids(v: Seq<LinkView>) -> Seq<u64> {
    v.map_values(|l: LinkView| l.id)
}

/// Whether connection `c` is linked.
pub open spec fn linked(v: Seq<LinkView>, c: u64) -> bool {
    exists|i: int| 0 <= i < v.len() && #[trigger] v[i].id == c
}

/// The place of connection `c` among the linked ones (meaningful when linked).
pub open spec fn position(v: Seq<LinkView>, c: u64) -> int {
    choose|i: int| 0 <= i < v.len() && #[trigger] v[i].id == c
}

/// The player of connection `c`, if it is linked and owns a car.
pub open spec fn player_of(v: Seq<LinkView>, c: u64) -> Option<Player> {
    if linked(v, c) {
        v[position(v, c)].player
    } else {
        None
    }
}

/// The initial-sync countdown of connection `c`, if it is linked and has one.
pub open spec fn sync_wait_of(v: Seq<LinkView>, c: u64) -> Option<u8> {
    if linked(v, c) {
        v[position(v, c)].sync_wait
    } else {
        None
    }
}

/// The owners of the cars, in link order.
pub open spec fn owners(v: Seq<LinkView>) -> Seq<u64>
    decreases v.len(),
{
    if v.len() == 0 {
        Seq::empty()
    } else if v.last().player is Some {
        owners(v.drop_last()).push(v.last().id)
    } else {
        owners(v.drop_last())
    }
}

/// `r` sets the replication targets of the cars of `owners`, in that order,
/// each to `active`.
pub open spec fn scope_update(r: Seq<Action>, owners: Seq<u64>, active: Seq<u64>) -> bool {
    &&& r.len() == owners.len()
    &&& forall|i: int|
        0 <= i < r.len() ==> match #[trigger] r[i] {
            Action::SetTargets { owner, targets } => owner == owners[i] && targets@ == active,
            _ => false,
        }
}

/// `r` forces a resync of the cars of `owners`, in that order.
pub open spec fn resync_all(r: Seq<Action>, owners: Seq<u64>) -> bool {
    &&& r.len() == owners.len()
    &&& forall|i: int| 0 <= i < r.len() ==> #[trigger] r[i] == Action::ForceResync { owner: owners[i] }
}

/// One tick of an initial-sync countdown: a pending count goes down by one;
/// a count of zero is served and cleared.
pub open spec fn count_down(w: Option<u8>) -> Option<u8> {
    match w {
        Some(n) => if n == 0 {
            None
        } else {
            Some((n - 1) as u8)
        },
        None => None,
    }
}

/// The inputs of `batch` that drive a car: those from connections that own
/// one, in arrival order. The others are dropped.
pub open spec fn routed(v: Seq<LinkView>, batch: Seq<(u64, CarInput)>) -> Seq<(u64, CarInput)> {
    batch.filter(|m: (u64, CarInput)| player_of(v, m.0) is Some)
}

/// The connection-to-car bookkeeping of one server run.
pub struct Session {
    conns: Vec<Connection>,
}

impl View for Session {
    type V = Seq<LinkView>;

    closed spec fn view(&self) -> Seq<LinkView> {
        self.conns@.map_values(|c: Connection| c@)
    }
}

/// Copies a list of connection ids.
fn copy_ids(v: &Vec<u64>) -> (r: Vec<u64>)
    ensures
        r@ == v@,
{
    let mut r: Vec<u64> = Vec::new();
    let mut i: usize = 0;
    while i < v.len()
        invariant
            i <= v.len(),
            r@ == v@.take(i as int),
        decreases v.len() - i,
    {
        r.push(v[i]);
        i += 1;
        assert(r@ =~= v@.take(i as int));
    }
    assert(v@.take(v.len() as int) =~= v@);
    r
}

/// With unique ids, the connection at place `i` is found at place `i`.
proof fn lemma_position(v: Seq<LinkView>, i: int)
    requires
        ids(v).no_duplicates(),
        0 <= i < v.len(),
    ensures
        linked(v, v[i].id),
        position(v, v[i].id) == i,
{
    assert(v[i].id == v[i].id);  // witness for `linked`
    let j = position(v, v[i].id);
    assert(ids(v)[j] == ids(v)[i]);
}

/// How the owners of a prefix grow by one connection.
proof fn lemma_owners_step(v: Seq<LinkView>, i: int)
    requires
        0 <= i < v.len(),
    ensures
        owners(v.take(i + 1)) == (if v[i].player is Some {
            owners(v.take(i)).push(v[i].id)
        } else {
            owners(v.take(i))
        }),
{
    assert(v.take(i + 1).drop_last() =~= v.take(i));
}

/// Owners are linked and appear once each.
proof fn lemma_owners_unique(v: Seq<LinkView>)
    requires
        ids(v).no_duplicates(),
    ensures
        owners(v).no_duplicates(),
        forall|o: u64| owners(v).contains(o) ==> linked(v, o),
    decreases v.len(),
{
    if v.len() > 0 {
        let w = v.drop_last();
        assert(ids(w) =~= ids(v).drop_last());
        lemma_owners_unique(w);
        assert forall|o: u64| owners(w).contains(o) implies linked(v, o) by {
            assert(linked(w, o));
            let k = choose|k: int| 0 <= k < w.len() && #[trigger] w[k].id == o;
            assert(v[k].id == o);
        }
        if v.last().player is Some {
            let l = v.last().id;
            assert(!owners(w).contains(l)) by {
                if owners(w).contains(l) {
                    assert(linked(w, l));
                    let k = choose|k: int| 0 <= k < w.len() && #[trigger] w[k].id == l;
                    assert(ids(v)[k] == ids(v)[v.len() - 1]);
                }
            }
            assert(v[v.len() - 1].id == l);
            assert forall|a: int, b: int|
                0 <= a < b < owners(v).len() implies owners(v)[a] != owners(v)[b] by {
                if b == owners(v).len() - 1 {
                    assert(owners(w).contains(owners(w)[a]));
                }
            }
        }
    }
}

/// The prefix of full length has the same owners as the whole sequence.
proof fn lemma_owners_all(v: Seq<LinkView>)
    ensures
        owners(v.take(v.len() as int)) == owners(v),
{
    assert(v.take(v.len() as int) =~= v);
}

/// Appending a connection that is not linked yet: it is found with its own
/// record, and every other connection is found as before.
proof fn lemma_push_lookup(v: Seq<LinkView>, l: LinkView)
    requires
        ids(v).no_duplicates(),
        !linked(v, l.id),
    ensures
        ids(v.push(l)).no_duplicates(),
        linked(v.push(l), l.id),
        player_of(v.push(l), l.id) == l.player,
        sync_wait_of(v.push(l), l.id) == l.sync_wait,
        forall|d: u64|
            d != l.id ==> linked(v.push(l), d) == linked(v, d) && player_of(v.push(l), d)
                == player_of(v, d) && sync_wait_of(v.push(l), d) == sync_wait_of(v, d),
{
    let w = v.push(l);
    assert(ids(w) =~= ids(v).push(l.id));
    assert forall|a: int, b: int| 0 <= a < b < ids(w).len() implies ids(w)[a] != ids(w)[b] by {
        if b == ids(w).len() - 1 {
            assert(v[a].id == ids(v)[a]);
        }
    }
    lemma_position(w, v.len() as int);
    assert forall|d: u64| d != l.id implies linked(w, d) == linked(v, d) && player_of(w, d)
        == player_of(v, d) && sync_wait_of(w, d) == sync_wait_of(v, d) by {
        if linked(v, d) {
            let j = position(v, d);
            assert(w[j] == v[j]);
            lemma_position(w, j);
        } else if linked(w, d) {
            let k = position(w, d);
            assert(v[k].id == d);
        }
    }
}

/// Replacing the record at place `i` by one with the same id: that
/// connection is found with the new record, every other one as before.
proof fn lemma_update_lookup(v: Seq<LinkView>, i: int, l: LinkView)
    requires
        ids(v).no_duplicates(),
        0 <= i < v.len(),
        l.id == v[i].id,
    ensures
        ids(v.update(i, l)) == ids(v),
        player_of(v.update(i, l), l.id) == l.player,
        sync_wait_of(v.update(i, l), l.id) == l.sync_wait,
        forall|d: u64| #[trigger] linked(v.update(i, l), d) == linked(v, d),
        forall|d: u64|
            d != l.id ==> player_of(v.update(i, l), d) == player_of(v, d) && sync_wait_of(
                v.update(i, l),
                d,
            ) == sync_wait_of(v, d),
{
    let w = v.update(i, l);
    assert(ids(w) =~= ids(v));
    lemma_position(w, i);
    assert forall|d: u64| #[trigger] linked(w, d) == linked(v, d) by {
        if linked(v, d) {
            let j = position(v, d);
            assert(w[j].id == d);
        }
        if linked(w, d) {
            let k = position(w, d);
            assert(v[k].id == d);
        }
    }
    assert forall|d: u64| d != l.id implies player_of(w, d) == player_of(v, d) && sync_wait_of(w, d)
        == sync_wait_of(v, d) by {
        if linked(v, d) {
            let j = position(v, d);
            assert(w[j] == v[j]);
            lemma_position(w, j);
        }
    }
}

/// Removing the record at place `i`: its connection is no longer linked,
/// every other one is found as before.
proof fn lemma_remove_lookup(v: Seq<LinkView>, i: int)
    requires
        ids(v).no_duplicates(),
        0 <= i < v.len(),
    ensures
        ids(v.remove(i)).no_duplicates(),
        !linked(v.remove(i), v[i].id),
        forall|d: u64|
            d != v[i].id ==> linked(v.remove(i), d) == linked(v, d) && player_of(v.remove(i), d)
                == player_of(v, d) && sync_wait_of(v.remove(i), d) == sync_wait_of(v, d),
{
    let w = v.remove(i);
    assert(ids(w) =~= ids(v).remove(i));
    assert forall|a: int, b: int| 0 <= a < b < ids(w).len() implies ids(w)[a] != ids(w)[b] by {
        let a0 = if a < i { a } else { a + 1 };
        let b0 = if b < i { b } else { b + 1 };
        assert(ids(v)[a0] != ids(v)[b0]);
    }
    if linked(w, v[i].id) {
        let k = position(w, v[i].id);
        let k0 = if k < i { k } else { k + 1 };
        assert(ids(v)[k0] == ids(v)[i]);
    }
    assert forall|d: u64| d != v[i].id implies linked(w, d) == linked(v, d) && player_of(w, d)
        == player_of(v, d) && sync_wait_of(w, d) == sync_wait_of(v, d) by {
        if linked(v, d) {
            let j = position(v, d);
            assert(j != i);
            let j1 = if j < i { j } else { j - 1 };
            assert(w[j1] == v[j]);
            lemma_position(w, j1);
        } else if linked(w, d) {
            let k = position(w, d);
            let k0 = if k < i { k } else { k + 1 };
            assert(v[k0].id == d);
        }
    }
}

/// One countdown tick on every record: each connection is found with its
/// car and with its countdown ticked.
proof fn lemma_tick_lookup(v: Seq<LinkView>, w: Seq<LinkView>)
    requires
        ids(v).no_duplicates(),
        w.len() == v.len(),
        forall|i: int|
            0 <= i < v.len() ==> #[trigger] w[i] == (LinkView {
                id: v[i].id,
                player: v[i].player,
                sync_wait: count_down(v[i].sync_wait),
            }),
    ensures
        ids(w) == ids(v),
        forall|d: u64|
            linked(w, d) == linked(v, d) && player_of(w, d) == player_of(v, d) && sync_wait_of(w, d)
                == count_down(sync_wait_of(v, d)),
{
    assert(ids(w) =~= ids(v));
    assert forall|d: u64|
        linked(w, d) == linked(v, d) && player_of(w, d) == player_of(v, d) && sync_wait_of(w, d)
            == count_down(sync_wait_of(v, d)) by {
        if linked(v, d) {
            let j = position(v, d);
            assert(w[j].id == d);
            lemma_position(w, j);
        } else if linked(w, d) {
            let k = position(w, d);
            assert(v[k].id == d);
        }
    }
}

impl Session {
    /// Ids are unique and each car's player names its own connection.
    closed spec fn links_ok(&self) -> bool {
        &&& ids(self@).no_duplicates()
        &&& forall|i: int|
            0 <= i < self.conns.len() ==> match #[trigger] self.conns@[i].state {
                ConnState::Active(car) => car.player.client_id == self.conns@[i].id,
                ConnState::JoinPending => true,
            }
    }

    /// Whether every car is replicated to exactly `active`.
    closed spec fn scope_is(&self, active: Seq<u64>) -> bool {
        forall|i: int|
            0 <= i < self.conns.len() ==> match #[trigger] self.conns@[i].state {
                ConnState::Active(car) => car.targets@ == active,
                ConnState::JoinPending => true,
            }
    }

    /// The manager's invariant: unique connections, each car owned by its
    /// connection's player, and every car replicated to exactly the linked
    /// connections.
    pub closed spec fn wf(&self) -> bool {
        &&& self.links_ok()
        &&& self.scope_is(ids(self@))
    }

    /// The replication targets of connection `c`'s car, if it owns one.
    pub closed spec fn targets_of(&self, c: u64) -> Option<Seq<u64>> {
        if linked(self@, c) {
            match self.conns@[position(self@, c)].state {
                ConnState::Active(car) => Some(car.targets@),
                ConnState::JoinPending => None,
            }
        } else {
            None
        }
    }

    /// An empty session: nothing linked, no car.
    pub fn new() -> (s: Session)
        ensures
            s.wf(),
            s@ == Seq::<LinkView>::empty(),
    {
        let s = Session { conns: Vec::new() };
        assert(s@ =~= Seq::<LinkView>::empty());
        s
    }

    /// The linked connections, in link order.
    pub fn list_active(&self) -> (r: Vec<u64>)
        ensures
            r@ == ids(self@),
    {
        let mut r: Vec<u64> = Vec::new();
        let mut i: usize = 0;
        while i < self.conns.len()
            invariant
                i <= self.conns.len(),
                r@ == ids(self@).take(i as int),
            decreases self.conns.len() - i,
        {
            r.push(self.conns[i].id);
            i += 1;
            assert(r@ =~= ids(self@).take(i as int));
        }
        assert(ids(self@).take(i as int) =~= ids(self@));
        r
    }

    /// The place of connection `c`, if it is linked.
    fn find(&self, c: u64) -> (r: Option<usize>)
        requires
            self.links_ok(),
        ensures
            match r {
                Some(i) => i < self@.len() && self@[i as int].id == c && linked(self@, c)
                    && position(self@, c) == i,
                None => !linked(self@, c),
            },
    {
        let mut i: usize = 0;
        while i < self.conns.len()
            invariant
                self.links_ok(),
                i <= self.conns.len(),
                forall|j: int| 0 <= j < i ==> self@[j].id != c,
            decreases self.conns.len() - i,
        {
            if self.conns[i].id == c {
                proof {
                    lemma_position(self@, i as int);
                }
                return Some(i);
            }
            i += 1;
        }
        None
    }

    /// Whether connection `c` is linked.
    pub fn is_linked(&self, c: u64) -> (r: bool)
        requires
            self.wf(),
        ensures
            r == linked(self@, c),
    {
        self.find(c).is_some()
    }

    /// Whether connection `c` owns a car.
    pub fn has_entity(&self, c: u64) -> (r: bool)
        requires
            self.wf(),
        ensures
            r == player_of(self@, c) is Some,
    {
        match self.find(c) {
            Some(i) => match &self.conns[i].state {
                ConnState::Active(_) => true,
                ConnState::JoinPending => false,
            },
            None => false,
        }
    }

    /// The player of connection `c`'s car, if it owns one.
    pub fn player(&self, c: u64) -> (r: Option<&Player>)
        requires
            self.wf(),
        ensures
            r is Some == player_of(self@, c) is Some,
            r matches Some(p) ==> player_of(self@, c) == Some(*p),
    {
        match self.find(c) {
            Some(i) => match &self.conns[i].state {
                ConnState::Active(car) => Some(&car.player),
                ConnState::JoinPending => None,
            },
            None => None,
        }
    }

    /// The car that an input from connection `c` drives: the car `c` owns.
    /// Input from a connection without a car is dropped (`None`).
    pub fn input_target(&self, c: u64) -> (r: Option<u64>)
        requires
            self.wf(),
        ensures
            r == (if player_of(self@, c) is Some {
                Some(c)
            } else {
                None
            }),
    {
        if self.has_entity(c) {
            Some(c)
        } else {
            None
        }
    }

    /// The initial-sync countdown of connection `c`, if it has one.
    pub fn sync_countdown(&self, c: u64) -> (r: Option<u8>)
        requires
            self.wf(),
        ensures
            r == sync_wait_of(self@, c),
    {
        match self.find(c) {
            Some(i) => self.conns[i].sync_wait,
            None => None,
        }
    }

    /// The replication targets of connection `c`'s car, if it owns one.
    pub fn replication_targets(&self, c: u64) -> (r: Option<Vec<u64>>)
        requires
            self.wf(),
        ensures
            r is Some == player_of(self@, c) is Some,
            r matches Some(t) ==> self.targets_of(c) == Some(t@) && t@ == ids(self@),
    {
        match self.find(c) {
            Some(i) => match &self.conns[i].state {
                ConnState::Active(car) => Some(copy_ids(&car.targets)),
                ConnState::JoinPending => None,
            },
            None => None,
        }
    }

    /// The number of cars.
    pub fn entity_count(&self) -> (r: usize)
        requires
            self.wf(),
        ensures
            r == owners(self@).len(),
    {
        let mut n: usize = 0;
        let mut i: usize = 0;
        while i < self.conns.len()
            invariant
                i <= self.conns.len(),
                n <= i,
                n == owners(self@.take(i as int)).len(),
            decreases self.conns.len() - i,
        {
            proof {
                lemma_owners_step(self@, i as int);
            }
            match &self.conns[i].state {
                ConnState::Active(_) => {
                    n += 1;
                },
                ConnState::JoinPending => {},
            }
            i += 1;
        }
        proof {
            lemma_owners_all(self@);
        }
        n
    }

    /// Sorts one tick's buffered inputs, given as (connection, input) in
    /// arrival order: those whose connection owns a car are kept, in order,
    /// each to be applied to that car; the rest are dropped.
    pub fn route_inputs(&self, batch: &Vec<(u64, CarInput)>) -> (r: Vec<(u64, CarInput)>)
        requires
            self.wf(),
        ensures
            r@ == routed(self@, batch@),
    {
        let ghost keep = |m: (u64, CarInput)| player_of(self@, m.0) is Some;
        let mut r: Vec<(u64, CarInput)> = Vec::new();
        let mut i: usize = 0;
        while i < batch.len()
            invariant
                self.wf(),
                i <= batch.len(),
                keep == (|m: (u64, CarInput)| player_of(self@, m.0) is Some),
                r@ == batch@.take(i as int).filter(keep),
            decreases batch.len() - i,
        {
            let m = batch[i];
            proof {
                assert(batch@.take(i + 1).drop_last() =~= batch@.take(i as int));
                reveal_with_fuel(Seq::filter, 1);
            }
            if self.has_entity(m.0) {
                r.push(m);
            }
            i += 1;
        }
        assert(batch@.take(batch.len() as int) =~= batch@);
        r
    }

    /// Sets the replication targets of every car to the linked connections,
    /// and returns the matching actions.
    fn refresh_scope(&mut self) -> (r: Vec<Action>)
        requires
            old(self).links_ok(),
        ensures
            final(self).wf(),
            final(self)@ == old(self)@,
            scope_update(r@, owners(final(self)@), ids(final(self)@)),
    {
        let active = self.list_active();
        let mut r: Vec<Action> = Vec::new();
        let n = self.conns.len();
        let mut i: usize = 0;
        while i < n
            invariant
                n == self.conns.len(),
                i <= n,
                self@ == old(self)@,
                self.links_ok(),
                active@ == ids(self@),
                forall|j: int|
                    0 <= j < i ==> match #[trigger] self.conns@[j].state {
                        ConnState::Active(car) => car.targets@ == active@,
                        ConnState::JoinPending => true,
                    },
                scope_update(r@, owners(self@.take(i as int)), active@),
            decreases n - i,
        {
            proof {
                lemma_owners_step(self@, i as int);
            }
            let id = self.conns[i].id;
            let conn = &mut self.conns[i];
            match &mut conn.state {
                ConnState::Active(car) => {
                    car.targets = copy_ids(&active);
                    r.push(Action::SetTargets { owner: id, targets: copy_ids(&active) });
                },
                ConnState::JoinPending => {},
            }
            assert(self@ =~= old(self)@);
            i += 1;
        }
        proof {
            lemma_owners_all(self@);
        }
        r
    }
    /// A connection linked: it is recorded as waiting for its join request,
    /// with an initial-sync countdown of `INITIAL_SYNC_WAIT` ticks, and every
    /// car is now replicated to it too. A connection that is already linked
    /// changes nothing.
    pub fn on_link_established(&mut self, c: u64) -> (r: Vec<Action>)
        requires
            old(self).wf(),
        ensures
            final(self).wf(),
            linked(old(self)@, c) ==> final(self)@ == old(self)@ && r@.len() == 0,
            !linked(old(self)@, c) ==> final(self)@ == old(self)@.push(
                (LinkView { id: c, player: None, sync_wait: Some(INITIAL_SYNC_WAIT) }),
            ) && scope_update(r@, owners(final(self)@), ids(final(self)@)),
            linked(final(self)@, c),
            !linked(old(self)@, c) ==> player_of(final(self)@, c) is None && sync_wait_of(
                final(self)@,
                c,
            ) == Some(INITIAL_SYNC_WAIT),
            forall|d: u64| d != c ==> #[trigger] linked(final(self)@, d) == linked(old(self)@, d),
            forall|d: u64| d != c ==> #[trigger] player_of(final(self)@, d) == player_of(old(self)@, d),
            forall|d: u64|
                d != c ==> #[trigger] sync_wait_of(final(self)@, d) == sync_wait_of(old(self)@, d),
    {
        if self.find(c).is_some() {
            return Vec::new();
        }
        let ghost before = self@;
        self.conns.push(
            Connection { id: c, state: ConnState::JoinPending, sync_wait: Some(INITIAL_SYNC_WAIT) },
        );
        proof {
            assert(self@ =~= before.push(
                (LinkView { id: c, player: None, sync_wait: Some(INITIAL_SYNC_WAIT) }),
            ));
            lemma_push_lookup(
                before,
                (LinkView { id: c, player: None, sync_wait: Some(INITIAL_SYNC_WAIT) }),
            );
            assert forall|i: int| 0 <= i < self.conns.len() implies match #[trigger] self.conns@[i].state {
                ConnState::Active(car) => car.player.client_id == self.conns@[i].id,
                ConnState::JoinPending => true,
            } by {
                if i < self.conns.len() - 1 {
                    assert(self.conns@[i] == old(self).conns@[i]);
                }
            }
        }
        self.refresh_scope()
    }

    /// A join request from connection `c` under `username`. A linked
    /// connection without a car gets one: its player carries `c`, the name
    /// and the hue derived from `c`; the car is spawned and every car's
    /// replication targets are set anew. A connection that already owns a
    /// car, or is not linked, changes nothing and is reported.
    pub fn on_join_request(&mut self, c: u64, username: String) -> (r: Vec<Action>)
        requires
            old(self).wf(),
        ensures
            final(self).wf(),
            !linked(old(self)@, c) ==> final(self)@ == old(self)@ && r@ == seq![
                Action::Warn(Warning::UnlinkedJoin),
            ],
            player_of(old(self)@, c) is Some ==> final(self)@ == old(self)@ && r@ == seq![
                Action::Warn(Warning::DuplicateJoin),
            ],
            linked(old(self)@, c) && player_of(old(self)@, c) is None ==> {
                &&& final(self)@ == old(self)@.update(
                    position(old(self)@, c),
                    (LinkView {
                        id: c,
                        player: Some((Player { client_id: c, username: username, hue: hue_of(c) as u32 })),
                        sync_wait: sync_wait_of(old(self)@, c),
                    }),
                )
                &&& r@.len() >= 1
                &&& r@[0] == (Action::Spawn { owner: c })
                &&& scope_update(r@.drop_first(), owners(final(self)@), ids(final(self)@))
                &&& player_of(final(self)@, c) == Some(
                    (Player { client_id: c, username: username, hue: hue_of(c) as u32 }),
                )
                &&& sync_wait_of(final(self)@, c) == sync_wait_of(old(self)@, c)
            },
            linked(old(self)@, c) ==> player_of(final(self)@, c) is Some,
            forall|d: u64| #[trigger] linked(final(self)@, d) == linked(old(self)@, d),
            forall|d: u64| d != c ==> #[trigger] player_of(final(self)@, d) == player_of(old(self)@, d),
            forall|d: u64|
                d != c ==> #[trigger] sync_wait_of(final(self)@, d) == sync_wait_of(old(self)@, d),
    {
        let mut r: Vec<Action> = Vec::new();
        let i = match self.find(c) {
            Some(i) => i,
            None => {
                r.push(Action::Warn(Warning::UnlinkedJoin));
                return r;
            },
        };
        if let ConnState::Active(_) = &self.conns[i].state {
            r.push(Action::Warn(Warning::DuplicateJoin));
            return r;
        }
        let ghost before = self@;
        let player = Player { client_id: c, username, hue: player_hue(c) };
        let conn = &mut self.conns[i];
        conn.state = ConnState::Active(CarEntity { player, targets: Vec::new() });
        proof {
            assert(self@ =~= before.update(
                i as int,
                (LinkView { id: c, player: Some(player), sync_wait: before[i as int].sync_wait }),
            ));
            lemma_update_lookup(
                before,
                i as int,
                (LinkView { id: c, player: Some(player), sync_wait: before[i as int].sync_wait }),
            );
            lemma_position(before, i as int);
            assert forall|j: int| 0 <= j < self.conns.len() implies match #[trigger] self.conns@[j].state {
                ConnState::Active(car) => car.player.client_id == self.conns@[j].id,
                ConnState::JoinPending => true,
            } by {
                if j != i {
                    assert(self.conns@[j] == old(self).conns@[j]);
                }
            }
        }
        r.push(Action::Spawn { owner: c });
        let mut rest = self.refresh_scope();
        let ghost refreshed = rest@;
        r.append(&mut rest);
        assert(r@.drop_first() =~= refreshed);
        r
    }

    /// Connection `c` went away: its record goes, with its car and markers,
    /// and every remaining car is replicated to the remaining connections
    /// only. The first action destroys `c`'s car, or reports that it had
    /// none.
    pub fn on_link_teardown(&mut self, c: u64) -> (r: Vec<Action>)
        requires
            old(self).wf(),
        ensures
            final(self).wf(),
            final(self)@ == (if linked(old(self)@, c) {
                old(self)@.remove(position(old(self)@, c))
            } else {
                old(self)@
            }),
            !linked(final(self)@, c),
            player_of(final(self)@, c) is None,
            sync_wait_of(final(self)@, c) is None,
            forall|d: u64| d != c ==> #[trigger] linked(final(self)@, d) == linked(old(self)@, d),
            forall|d: u64| d != c ==> #[trigger] player_of(final(self)@, d) == player_of(old(self)@, d),
            forall|d: u64|
                d != c ==> #[trigger] sync_wait_of(final(self)@, d) == sync_wait_of(old(self)@, d),
            forall|d: u64| #[trigger] final(self).targets_of(d) matches Some(t) ==> !t.contains(c),
            r@.len() >= 1,
            r@[0] == (if player_of(old(self)@, c) is Some {
                Action::Despawn { owner: c }
            } else {
                Action::Warn(Warning::OrphanDisconnect)
            }),
            scope_update(r@.drop_first(), owners(final(self)@), ids(final(self)@)),
    {
        let mut r: Vec<Action> = Vec::new();
        match self.find(c) {
            Some(i) => {
                let ghost before = self@;
                let gone = self.conns.remove(i);
                match gone.state {
                    ConnState::Active(_) => r.push(Action::Despawn { owner: c }),
                    ConnState::JoinPending => r.push(Action::Warn(Warning::OrphanDisconnect)),
                }
                proof {
                    assert(self@ =~= before.remove(i as int));
                    lemma_remove_lookup(before, i as int);
                    assert forall|j: int| 0 <= j < self.conns.len() implies match #[trigger] self.conns@[j].state {
                        ConnState::Active(car) => car.player.client_id == self.conns@[j].id,
                        ConnState::JoinPending => true,
                    } by {
                        let j0 = if j < i { j } else { j + 1 };
                        assert(self.conns@[j] == old(self).conns@[j0]);
                    }
                    assert forall|j: int| 0 <= j < self@.len() implies self@[j].id != c by {
                        let j0 = if j < i { j } else { j + 1 };
                        assert(ids(before)[j0] != ids(before)[i as int]);
                    }
                }
            },
            None => r.push(Action::Warn(Warning::OrphanDisconnect)),
        }
        let mut rest = self.refresh_scope();
        let ghost refreshed = rest@;
        r.append(&mut rest);
        assert(r@.drop_first() =~= refreshed);
        proof {
            assert forall|d: u64| #[trigger] self.targets_of(d) matches Some(t) ==> !t.contains(c) by {
                lemma_scope_complete(self, d);
            }
        }
        r
    }

    /// One simulation tick of the initial-sync scheduler. Every countdown
    /// above zero goes down by one; every countdown at zero is served and
    /// cleared. If any was served, every car is resent.
    pub fn tick_initial_sync(&mut self) -> (r: Vec<Action>)
        requires
            old(self).wf(),
        ensures
            final(self).wf(),
            final(self)@.len() == old(self)@.len(),
            forall|i: int|
                0 <= i < old(self)@.len() ==> #[trigger] final(self)@[i] == (LinkView {
                    id: old(self)@[i].id,
                    player: old(self)@[i].player,
                    sync_wait: count_down(old(self)@[i].sync_wait),
                }),
            (exists|i: int| 0 <= i < old(self)@.len() && #[trigger] old(self)@[i].sync_wait == Some(0u8))
                ==> resync_all(r@, owners(final(self)@)),
            !(exists|i: int| 0 <= i < old(self)@.len() && #[trigger] old(self)@[i].sync_wait == Some(0u8))
                ==> r@.len() == 0,
            forall|d: u64| #[trigger] linked(final(self)@, d) == linked(old(self)@, d),
            forall|d: u64| #[trigger] player_of(final(self)@, d) == player_of(old(self)@, d),
            forall|d: u64|
                #[trigger] sync_wait_of(final(self)@, d) == count_down(sync_wait_of(old(self)@, d)),
            forall|d: u64|
                #[trigger] sync_wait_of(old(self)@, d) == Some(0u8) ==> resync_all(
                    r@,
                    owners(final(self)@),
                ),
            (forall|d: u64| #[trigger] sync_wait_of(old(self)@, d) != Some(0u8)) ==> r@.len() == 0,
            (forall|d: u64| #[trigger] sync_wait_of(old(self)@, d) is None) ==> final(self)@ == old(
                self,
            )@ && r@.len() == 0,
    {
        let n = self.conns.len();
        let mut due = false;
        let mut i: usize = 0;
        while i < n
            invariant
                n == self.conns.len(),
                n == old(self).conns.len(),
                i <= n,
                forall|j: int|
                    0 <= j < n ==> #[trigger] self.conns@[j].id == old(self).conns@[j].id
                        && self.conns@[j].state == old(self).conns@[j].state,
                forall|j: int| i <= j < n ==> #[trigger] self.conns@[j] == old(self).conns@[j],
                forall|j: int|
                    0 <= j < i ==> #[trigger] self.conns@[j].sync_wait == count_down(
                        old(self).conns@[j].sync_wait,
                    ),
                due == (exists|j: int| 0 <= j < i && #[trigger] old(self).conns@[j].sync_wait == Some(0u8)),
            decreases n - i,
        {
            let ghost was_due = due;
            let conn = &mut self.conns[i];
            match conn.sync_wait {
                Some(w) => {
                    if w == 0 {
                        assert(old(self).conns@[i as int].sync_wait == Some(0u8));
                        due = true;
                        conn.sync_wait = None;
                    } else {
                        conn.sync_wait = Some(w - 1);
                    }
                },
                None => {},
            }
            proof {
                if !was_due && old(self).conns@[i as int].sync_wait != Some(0u8) {
                    assert forall|j: int| 0 <= j < i + 1 implies #[trigger] old(self).conns@[j].sync_wait != Some(0u8) by {
                        if j < i {
                            assert(!(0 <= j < i && old(self).conns@[j].sync_wait == Some(0u8)));
                        }
                    }
                }
            }
            i += 1;
        }
        proof {
            assert forall|j: int| 0 <= j < n implies #[trigger] old(self)@[j].sync_wait == old(self).conns@[j].sync_wait by {}
            if due {
                let j = choose|j: int| 0 <= j < n && #[trigger] old(self).conns@[j].sync_wait == Some(0u8);
                assert(old(self)@[j].sync_wait == Some(0u8));
            }
            assert(ids(self@) =~= ids(old(self)@));
            assert forall|j: int| 0 <= j < old(self)@.len() implies #[trigger] self@[j] == (LinkView {
                id: old(self)@[j].id,
                player: old(self)@[j].player,
                sync_wait: count_down(old(self)@[j].sync_wait),
            }) by {
                assert(self.conns@[j].state == old(self).conns@[j].state);
            }
        }
        let mut r: Vec<Action> = Vec::new();
        if due {
            let mut k: usize = 0;
            while k < n
                invariant
                    n == self.conns.len(),
                    k <= n,
                    resync_all(r@, owners(self@.take(k as int))),
                decreases n - k,
            {
                proof {
                    lemma_owners_step(self@, k as int);
                }
                match &self.conns[k].state {
                    ConnState::Active(_) => r.push(Action::ForceResync { owner: self.conns[k].id }),
                    ConnState::JoinPending => {},
                }
                k += 1;
            }
            proof {
                lemma_owners_all(self@);
            }
        }
        proof {
            lemma_tick_lookup(old(self)@, self@);
            assert forall|d: u64| #[trigger] sync_wait_of(old(self)@, d) == Some(0u8) implies due by {
                let j = position(old(self)@, d);
                assert(old(self).conns@[j].sync_wait == Some(0u8));
            }
            if due {
                let j = choose|j: int| 0 <= j < n && #[trigger] old(self).conns@[j].sync_wait == Some(0u8);
                lemma_position(old(self)@, j);
                assert(sync_wait_of(old(self)@, old(self)@[j].id) == Some(0u8));
            }
            if forall|d: u64| #[trigger] sync_wait_of(old(self)@, d) is None {
                assert forall|j: int| 0 <= j < old(self)@.len() implies #[trigger] old(self)@[j].sync_wait is None by {
                    lemma_position(old(self)@, j);
                    assert(sync_wait_of(old(self)@, old(self)@[j].id) is None);
                }
                assert(self@ =~= old(self)@);
            }
        }
        r
    }
}

/// Scope completeness: every car is replicated to exactly the linked
/// connections, in link order, and only connections that own a car have
/// replication targets.
pub proof fn lemma_scope_complete(s: &Session, c: u64)
    requires
        s.wf(),
    ensures
        s.targets_of(c) is Some == player_of(s@, c) is Some,
        s.targets_of(c) matches Some(t) ==> t == ids(s@),
{
}

/// The linked connections are pairwise distinct, and the player of every
/// car carries the id of the connection that owns it.
pub proof fn lemma_links_unique(s: &Session)
    requires
        s.wf(),
    ensures
        ids(s@).no_duplicates(),
        forall|i: int|
            0 <= i < s@.len() ==> ((#[trigger] s@[i]).player is Some ==> s@[i].player.unwrap().client_id
                == s@[i].id),
{
    assert forall|i: int| 0 <= i < s@.len() && (#[trigger] s@[i]).player is Some implies
        s@[i].player.unwrap().client_id == s@[i].id by {
        assert(s@[i] == s.conns@[i]@);
    }
}

/// No connection owns two cars: the owners of the cars of a session are
/// pairwise distinct, and each of them is linked.
pub proof fn lemma_one_car_per_connection(s: &Session)
    requires
        s.wf(),
    ensures
        owners(s@).no_duplicates(),
        forall|o: u64| owners(s@).contains(o) ==> linked(s@, o),
{
    lemma_owners_unique(s@);
}

} // verus!
