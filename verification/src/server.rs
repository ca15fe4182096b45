//! The authoritative world: the three entity tables and the session table,
//! with the handlers of client messages. Every handler changes the tables
//! and returns the messages that the change calls for; sending them is the
//! caller's part.

use vstd::prelude::*;
use crate::net::{
    all_fit, note_to_one, notes, post, post_all, to_all, to_one, Address, Note, Outbound, ServerMsg,
    ServerPacket,
};
use crate::obj::{PhysicsObject, Planet, Player, RotatableObject, Scalar, Vect, FULL_HEALTH};
use crate::wire::{lemma_bounded_messages_fit, server_wire_len, BUFFER_SIZE};
use crate::table::{first_free, lemma_slot_unique, slot_of, Idx, Slot, Table, ID_SPACE};

verus! {

/// The most projectiles that one `Lasers` message lists.
pub const LASERS_PER_PACKET: usize = 33;

/// The most players that a snapshot lists; the others follow one by one.
pub const SNAPSHOT_PLAYERS: usize = 16;

/// The most planets that a snapshot lists; the others follow one by one.
pub const SNAPSHOT_PLANETS: usize = 20;

/// How many of the projectiles with the smallest identifiers are dropped when
/// a client reports that it could not decode a message.
pub const SHED_ON_ERROR: usize = 5;

/// The number of planets below which new ones are due.
pub const PLANET_FLOOR: usize = 5;

/// The time without a full set of planets, in nanoseconds, after which one
/// new planet appears.
pub const SPAWN_NANOS: u64 = 10_000_000_000;

/// The time waited after `elapsed` more nanoseconds; it stops at the largest
/// value that the counter holds.
pub open spec fn spec_waited(aggregate: u64, elapsed: u64) -> u64 {
    if aggregate + elapsed > u64::MAX {
        u64::MAX
    } else {
        (aggregate + elapsed) as u64
    }
}

/// The binding of a network endpoint to the player that it steers.
#[derive(Clone, Copy, Debug, PartialEq, Eq, Structural)]
pub struct Session {
    pub address: Address,
    pub player_id: Idx,
}

/// The state that the server owns.
#[derive(Clone, Debug, PartialEq, Eq)]
pub struct Server {
    pub planets: Table<Planet>,
    pub players: Table<Player>,
    pub lasers: Table<RotatableObject>,
    /// The sessions, in the order in which they connected.
    pub sessions: Vec<Session>,
    /// Time without a full set of planets, in nanoseconds.
    pub aggregate_time: u64,
}

/// Whether some session of `sessions` belongs to `address`.
pub open spec fn knows(sessions: Seq<Session>, address: Address) -> bool {
    exists|i: int| 0 <= i < sessions.len() && #[trigger] sessions[i].address == address
}

/// The position of the session of `address`, where there is one.
pub open spec fn session_at(sessions: Seq<Session>, address: Address) -> int {
    choose|i: int| 0 <= i < sessions.len() && #[trigger] sessions[i].address == address
}

/// The player that `address` steers, where it has a session.
pub open spec fn player_of(sessions: Seq<Session>, address: Address) -> Idx {
    sessions[session_at(sessions, address)].player_id
}

/// The endpoints of `sessions`, in order.
pub open spec fn addresses_of(sessions: Seq<Session>) -> Seq<Address> {
    sessions.map_values(|s: Session| s.address)
}

/// No endpoint has two sessions and no player is steered by two.
pub open spec fn sessions_distinct(sessions: Seq<Session>) -> bool {
    forall|i: int, j: int|
        0 <= i < j < sessions.len() ==> (#[trigger] sessions[i]).address != (#[trigger] sessions[j]).address
            && sessions[i].player_id != sessions[j].player_id
}

/// The state of each player of `slots`, under the player's identifier.
pub open spec fn player_states(slots: Seq<Slot<Player>>) -> Seq<Slot<RotatableObject>> {
    slots.map_values(|s: Slot<Player>| Slot { id: s.id, item: s.item.obj })
}

/// The state of each planet of `slots`, under the planet's identifier.
pub open spec fn planet_states(slots: Seq<Slot<Planet>>) -> Seq<Slot<PhysicsObject>> {
    slots.map_values(|s: Slot<Planet>| Slot { id: s.id, item: s.item.obj })
}

/// The listing of `lasers` for `to`, cut into messages of at most
/// `LASERS_PER_PACKET` entries, the last entries first.
pub open spec fn laser_batches(to: Address, lasers: Seq<Slot<RotatableObject>>) -> Seq<Note>
    decreases lasers.len(),
{
    if lasers.len() == 0 {
        Seq::empty()
    } else {
        let start = if lasers.len() > LASERS_PER_PACKET {
            lasers.len() - LASERS_PER_PACKET
        } else {
            0
        };
        seq![note_to_one(to, ServerMsg::Lasers(lasers.subrange(start, lasers.len() as int)))]
            + laser_batches(to, lasers.subrange(0, start))
    }
}

/// The first `n` entries of `list`; all of it where it has fewer.
pub open spec fn first_of<T>(list: Seq<T>, n: nat) -> Seq<T> {
    if list.len() <= n {
        list
    } else {
        list.subrange(0, n as int)
    }
}

/// The snapshot of `players` and `planets`: as many of each, from the
/// smallest identifier up, as a datagram has room for.
pub open spec fn snapshot_of(players: Seq<Slot<Player>>, planets: Seq<Slot<Planet>>) -> ServerMsg {
    ServerMsg::PlayersAndPlanets {
        players: first_of(player_states(players), SNAPSHOT_PLAYERS as nat),
        planets: first_of(planet_states(planets), SNAPSHOT_PLANETS as nat),
    }
}

/// An update of each planet of `planets` from position `from` on, for
/// `remote` alone.
pub open spec fn planet_updates(remote: Address, planets: Seq<Slot<Planet>>, from: int) -> Seq<Note>
    decreases planets.len(),
{
    if planets.len() <= from || from < 0 {
        Seq::empty()
    } else {
        planet_updates(remote, planets.drop_last(), from).push(
            note_to_one(remote, ServerMsg::UpdatePlanet(planets.last().id, planets.last().item.obj)),
        )
    }
}

/// An update of each player of `players` from position `from` on, for
/// `remote` alone.
pub open spec fn player_updates(remote: Address, players: Seq<Slot<Player>>, from: int) -> Seq<Note>
    decreases players.len(),
{
    if players.len() <= from || from < 0 {
        Seq::empty()
    } else {
        player_updates(remote, players.drop_last(), from).push(
            note_to_one(remote, ServerMsg::UpdatePlayer(players.last().id, players.last().item.obj)),
        )
    }
}

/// What a client is sent when it connects: the snapshot and its health; the
/// planets and players that the snapshot had no room for; the projectiles in
/// flight; all these to it alone; and its own player, to every session.
pub open spec fn connect_notes(
    planets: Seq<Slot<Planet>>,
    players: Seq<Slot<Player>>,
    lasers: Seq<Slot<RotatableObject>>,
    sessions: Seq<Session>,
    remote: Address,
    id: Idx,
) -> Seq<Note> {
    seq![
        note_to_one(remote, snapshot_of(players, planets)),
        note_to_one(remote, ServerMsg::UpdateHealth(FULL_HEALTH)),
    ] + planet_updates(remote, planets, SNAPSHOT_PLANETS as int) + player_updates(
        remote,
        players,
        SNAPSHOT_PLAYERS as int,
    ) + laser_batches(remote, lasers) + seq![
        Note {
            to: addresses_of(sessions),
            msg: ServerMsg::UpdatePlayer(id, RotatableObject::spec_rest()),
        },
    ]
}

/// `player` with `acceleration` as its acceleration.
pub open spec fn pushed(player: Player, acceleration: Vect) -> Player {
    Player {
        obj: RotatableObject {
            physics_obj: PhysicsObject {
                position: player.obj.physics_obj.position,
                velocity: player.obj.physics_obj.velocity,
                acceleration,
            },
            rotation: player.obj.rotation,
        },
        health: player.health,
    }
}

/// `player` facing `rotation`.
pub open spec fn turned(player: Player, rotation: Scalar) -> Player {
    Player {
        obj: RotatableObject { physics_obj: player.obj.physics_obj, rotation },
        health: player.health,
    }
}

/// What the removal of the session of `remote` calls for: an
/// acknowledgement to `remote` alone and, where it had a player, the
/// player's deletion to the sessions that remain.
pub open spec fn farewell_notes(remaining: Seq<Session>, remote: Address, gone: Option<Idx>) -> Seq<
    Note,
> {
    seq![note_to_one(remote, ServerMsg::DisconnectAck)] + (match gone {
        Some(id) => seq![Note { to: addresses_of(remaining), msg: ServerMsg::DeletePlayer(id) }],
        None => Seq::empty(),
    })
}

/// The identifiers of `slots`, in order.
pub open spec fn ids_of<T>(slots: Seq<Slot<T>>) -> Seq<Idx> {
    slots.map_values(|s: Slot<T>| s.id)
}

impl Server {
    /// The tables are in order, no endpoint has two sessions, no player has
    /// two, and every session names a player that exists.
    pub open spec fn wf(&self) -> bool {
        &&& self.planets.wf()
        &&& self.players.wf()
        &&& self.lasers.wf()
        &&& sessions_distinct(self.sessions@)
        &&& forall|i: int|
            0 <= i < self.sessions@.len() ==> self.players@.contains_key(
                (#[trigger] self.sessions@[i]).player_id,
            )
    }

    /// A server with the planets of `planets` under the identifiers
    /// `0, 1, ...` in this order, and nothing else.
    pub fn new(planets: &Vec<Planet>) -> (s: Server)
        requires
            planets@.len() <= ID_SPACE,
        ensures
            s.wf(),
            s.planets.slots@.len() == planets@.len(),
            forall|i: int|
                0 <= i < planets@.len() ==> #[trigger] s.planets.slots@[i] == (Slot {
                    id: i as Idx,
                    item: planets@[i],
                }),
            s.players.slots@.len() == 0,
            s.lasers.slots@.len() == 0,
            s.sessions@.len() == 0,
            s.aggregate_time == 0,
    {
        let mut slots: Vec<Slot<Planet>> = Vec::new();
        let mut i: usize = 0;
        while i < planets.len()
            invariant
                i <= planets@.len() <= ID_SPACE,
                slots@.len() == i,
                forall|k: int|
                    0 <= k < i ==> #[trigger] slots@[k] == (Slot { id: k as Idx, item: planets@[k] }),
            decreases planets@.len() - i,
        {
            slots.push(Slot { id: i as Idx, item: planets[i] });
            i += 1;
        }
        Server {
            planets: Table { slots },
            players: Table::new(),
            lasers: Table::new(),
            sessions: Vec::new(),
            aggregate_time: 0,
        }
    }

    /// Whether the state is consistent: see `wf`.
    pub fn is_wf(&self) -> (b: bool)
        ensures
            b == self.wf(),
    {
        if !self.planets.is_wf() || !self.players.is_wf() || !self.lasers.is_wf() {
            return false;
        }
        let mut j: usize = 0;
        while j < self.sessions.len()
            invariant
                j <= self.sessions@.len(),
                self.players.wf(),
                forall|a: int, b: int|
                    0 <= a < b < j ==> (#[trigger] self.sessions@[a]).address != (
                    #[trigger] self.sessions@[b]).address && self.sessions@[a].player_id
                        != self.sessions@[b].player_id,
                forall|a: int|
                    0 <= a < j ==> self.players@.contains_key(
                        (#[trigger] self.sessions@[a]).player_id,
                    ),
            decreases self.sessions@.len() - j,
        {
            let s = self.sessions[j];
            if !self.players.contains_key(s.player_id) {
                return false;
            }
            let mut i: usize = 0;
            while i < j
                invariant
                    i <= j < self.sessions@.len(),
                    s == self.sessions@[j as int],
                    forall|a: int|
                        0 <= a < i ==> (#[trigger] self.sessions@[a]).address != s.address
                            && self.sessions@[a].player_id != s.player_id,
                decreases j - i,
            {
                let t = self.sessions[i];
                if t.address == s.address || t.player_id == s.player_id {
                    assert(!((self.sessions@[i as int]).address != (self.sessions@[j as int]).address
                        && self.sessions@[i as int].player_id != self.sessions@[j as int].player_id));
                    return false;
                }
                i += 1;
            }
            j += 1;
        }
        true
    }

    /// The position of the session of `remote`, if it has one.
    pub fn find_session(&self, remote: Address) -> (at: Option<usize>)
        ensures
            match at {
                Some(i) => i < self.sessions@.len() && self.sessions@[i as int].address == remote
                    && knows(self.sessions@, remote),
                None => !knows(self.sessions@, remote),
            },
            sessions_distinct(self.sessions@) && at.is_some() ==> at.unwrap() == session_at(
                self.sessions@,
                remote,
            ),
    {
        let mut i: usize = 0;
        while i < self.sessions.len()
            invariant
                i <= self.sessions@.len(),
                forall|k: int| 0 <= k < i ==> (#[trigger] self.sessions@[k]).address != remote,
            decreases self.sessions@.len() - i,
        {
            if self.sessions[i].address == remote {
                proof {
                    if sessions_distinct(self.sessions@) {
                        lemma_session_unique(self.sessions@, i as int);
                    }
                }
                return Some(i);
            }
            i += 1;
        }
        None
    }

    /// The endpoints of all sessions, in the order of the sessions.
    pub fn addresses(&self) -> (list: Vec<Address>)
        ensures
            list@ == addresses_of(self.sessions@),
    {
        let mut list: Vec<Address> = Vec::new();
        let mut i: usize = 0;
        while i < self.sessions.len()
            invariant
                i <= self.sessions@.len(),
                list@ == addresses_of(self.sessions@.subrange(0, i as int)),
            decreases self.sessions@.len() - i,
        {
            list.push(self.sessions[i].address);
            assert(list@ =~= addresses_of(self.sessions@.subrange(0, i + 1)));
            i += 1;
        }
        assert(self.sessions@.subrange(0, i as int) =~= self.sessions@);
        list
    }

    /// The player that `remote` steers, if it has a session.
    pub fn player_at(&self, remote: Address) -> (found: Option<(Idx, Player)>)
        requires
            self.wf(),
        ensures
            found == (if knows(self.sessions@, remote) {
                Some(
                    (
                        player_of(self.sessions@, remote),
                        self.players@[player_of(self.sessions@, remote)],
                    ),
                )
            } else {
                None
            }),
    {
        match self.find_session(remote) {
            Some(i) => {
                let id = self.sessions[i].player_id;
                match self.players.get(id) {
                    Some(p) => Some((id, p)),
                    None => None,
                }
            },
            None => None,
        }
    }

    /// The snapshot for a new client: the players and planets with the
    /// smallest identifiers, as many as a datagram has room for.
    pub fn snapshot(&self) -> (packet: ServerPacket)
        ensures
            packet@ == snapshot_of(self.players.slots@, self.planets.slots@),
            server_wire_len(packet@) <= BUFFER_SIZE,
    {
        let mut players: Vec<Slot<RotatableObject>> = Vec::new();
        let np: usize = if self.players.slots.len() <= SNAPSHOT_PLAYERS {
            self.players.slots.len()
        } else {
            SNAPSHOT_PLAYERS
        };
        let mut i: usize = 0;
        while i < np
            invariant
                i <= np <= self.players.slots@.len(),
                players@ == player_states(self.players.slots@).subrange(0, i as int),
            decreases np - i,
        {
            let s = self.players.slots[i];
            players.push(Slot { id: s.id, item: s.item.obj });
            assert(players@ =~= player_states(self.players.slots@).subrange(0, i + 1));
            i += 1;
        }
        assert(players@ =~= first_of(player_states(self.players.slots@), SNAPSHOT_PLAYERS as nat));
        let mut planets: Vec<Slot<PhysicsObject>> = Vec::new();
        let nq: usize = if self.planets.slots.len() <= SNAPSHOT_PLANETS {
            self.planets.slots.len()
        } else {
            SNAPSHOT_PLANETS
        };
        let mut j: usize = 0;
        while j < nq
            invariant
                j <= nq <= self.planets.slots@.len(),
                planets@ == planet_states(self.planets.slots@).subrange(0, j as int),
            decreases nq - j,
        {
            let s = self.planets.slots[j];
            planets.push(Slot { id: s.id, item: s.item.obj });
            assert(planets@ =~= planet_states(self.planets.slots@).subrange(0, j + 1));
            j += 1;
        }
        assert(planets@ =~= first_of(planet_states(self.planets.slots@), SNAPSHOT_PLANETS as nat));
        ServerPacket::PlayersAndPlanets { players, planets }
    }

    /// What the snapshot had no room for: an update of each planet and of
    /// each player beyond those that it lists, for `remote` alone.
    pub fn snapshot_rest(&self, remote: Address) -> (out: Vec<Outbound>)
        ensures
            notes(out@) == planet_updates(remote, self.planets.slots@, SNAPSHOT_PLANETS as int)
                + player_updates(remote, self.players.slots@, SNAPSHOT_PLAYERS as int),
            all_fit(out@),
    {
        let mut out: Vec<Outbound> = Vec::new();
        let ghost planets = self.planets.slots@;
        let ghost players = self.players.slots@;
        let mut i: usize = if self.planets.slots.len() <= SNAPSHOT_PLANETS {
            self.planets.slots.len()
        } else {
            SNAPSHOT_PLANETS
        };
        assert(notes(out@) =~= planet_updates(
            remote,
            planets.subrange(0, i as int),
            SNAPSHOT_PLANETS as int,
        ));
        while i < self.planets.slots.len()
            invariant
                i <= planets.len(),
                i >= SNAPSHOT_PLANETS || i == planets.len(),
                planets == self.planets.slots@,
                notes(out@) == planet_updates(
                    remote,
                    planets.subrange(0, i as int),
                    SNAPSHOT_PLANETS as int,
                ),
                all_fit(out@),
            decreases planets.len() - i,
        {
            let s = self.planets.slots[i];
            proof {
                assert(planets.subrange(0, i + 1).drop_last() =~= planets.subrange(0, i as int));
                assert(planets.subrange(0, i + 1).last() == s);
            }
            post(&mut out, to_one(remote, ServerPacket::UpdatePlanet(s.id, s.item.obj)));
            i += 1;
        }
        assert(planets.subrange(0, i as int) =~= planets);
        let ghost told = notes(out@);
        let mut k: usize = if self.players.slots.len() <= SNAPSHOT_PLAYERS {
            self.players.slots.len()
        } else {
            SNAPSHOT_PLAYERS
        };
        assert(notes(out@) =~= told + player_updates(
            remote,
            players.subrange(0, k as int),
            SNAPSHOT_PLAYERS as int,
        ));
        while k < self.players.slots.len()
            invariant
                k <= players.len(),
                k >= SNAPSHOT_PLAYERS || k == players.len(),
                players == self.players.slots@,
                notes(out@) == told + player_updates(
                    remote,
                    players.subrange(0, k as int),
                    SNAPSHOT_PLAYERS as int,
                ),
                all_fit(out@),
            decreases players.len() - k,
        {
            let s = self.players.slots[k];
            proof {
                assert(players.subrange(0, k + 1).drop_last() =~= players.subrange(0, k as int));
                assert(players.subrange(0, k + 1).last() == s);
            }
            post(&mut out, to_one(remote, ServerPacket::UpdatePlayer(s.id, s.item.obj)));
            assert(notes(out@) =~= told + player_updates(
                remote,
                players.subrange(0, k + 1),
                SNAPSHOT_PLAYERS as int,
            ));
            k += 1;
        }
        assert(players.subrange(0, k as int) =~= players);
        out
    }

    /// The projectiles in flight, for `remote`, in messages of at most
    /// `LASERS_PER_PACKET` entries each.
    pub fn laser_listing(&self, remote: Address) -> (out: Vec<Outbound>)
        ensures
            notes(out@) == laser_batches(remote, self.lasers.slots@),
            forall|i: int|
                0 <= i < out@.len() ==> match (#[trigger] out@[i]).packet {
                    ServerPacket::Lasers(list) => 0 < list@.len() <= LASERS_PER_PACKET,
                    _ => false,
                },
            all_fit(out@),
    {
        let mut out: Vec<Outbound> = Vec::new();
        let mut rest: usize = self.lasers.slots.len();
        let ghost all = self.lasers.slots@;
        assert(all.subrange(0, rest as int) =~= all);
        while rest > 0
            invariant
                rest <= all.len(),
                all == self.lasers.slots@,
                notes(out@) + laser_batches(remote, all.subrange(0, rest as int)) == laser_batches(
                    remote,
                    all,
                ),
                forall|i: int|
                    0 <= i < out@.len() ==> match (#[trigger] out@[i]).packet {
                        ServerPacket::Lasers(list) => 0 < list@.len() <= LASERS_PER_PACKET,
                        _ => false,
                    },
            decreases rest,
        {
            let start: usize = if rest > LASERS_PER_PACKET {
                rest - LASERS_PER_PACKET
            } else {
                0
            };
            let mut batch: Vec<Slot<RotatableObject>> = Vec::new();
            let mut k: usize = start;
            while k < rest
                invariant
                    start <= k <= rest <= all.len(),
                    all == self.lasers.slots@,
                    batch@ == all.subrange(start as int, k as int),
                decreases rest - k,
            {
                batch.push(self.lasers.slots[k]);
                assert(batch@ =~= all.subrange(start as int, k + 1));
                k += 1;
            }
            proof {
                let head = all.subrange(0, rest as int);
                assert(head.subrange(start as int, head.len() as int) =~= batch@);
                assert(head.subrange(0, start as int) =~= all.subrange(0, start as int));
                assert(laser_batches(remote, head) == seq![
                    note_to_one(remote, ServerMsg::Lasers(batch@)),
                ] + laser_batches(remote, all.subrange(0, start as int)));
                assert((notes(out@).push(note_to_one(remote, ServerMsg::Lasers(batch@))))
                    + laser_batches(remote, all.subrange(0, start as int)) =~= notes(out@)
                    + laser_batches(remote, head));
            }
            let o = to_one(remote, ServerPacket::Lasers(batch));
            post(&mut out, o);
            rest = start;
        }
        assert(notes(out@) + laser_batches(remote, all.subrange(0, 0)) =~= notes(out@));
        assert forall|i: int| 0 <= i < out@.len() implies crate::net::fits(#[trigger] out@[i]) by {
            lemma_bounded_messages_fit(out@[i].packet@);
        }
        out
    }

    /// A client asks to join. An endpoint that has no session gets a player
    /// under the smallest free identifier and a session, and is told the
    /// state; everyone is told of the new player. An endpoint that has a
    /// session already is ignored, and so is every new one while all player
    /// identifiers are taken.
    pub fn on_connect(&mut self, remote: Address) -> (out: Vec<Outbound>)
        requires
            old(self).wf(),
        ensures
            final(self).wf(),
            all_fit(out@),
            final(self).planets == old(self).planets,
            final(self).lasers == old(self).lasers,
            final(self).aggregate_time == old(self).aggregate_time,
            knows(old(self).sessions@, remote) || old(self).players.spec_is_full() ==> {
                &&& final(self).players == old(self).players
                &&& final(self).sessions@ == old(self).sessions@
                &&& out@.len() == 0
            },
            !knows(old(self).sessions@, remote) && !old(self).players.spec_is_full() ==> {
                let id = first_free(old(self).players@);
                &&& final(self).players@ == old(self).players@.insert(id, Player::spec_fresh())
                &&& final(self).players.slots@ == old(self).players.slots@.insert(
                    id as int,
                    Slot { id, item: Player::spec_fresh() },
                )
                &&& final(self).sessions@ == old(self).sessions@.push(
                    Session { address: remote, player_id: id },
                )
                &&& notes(out@) == connect_notes(
                    final(self).planets.slots@,
                    final(self).players.slots@,
                    final(self).lasers.slots@,
                    final(self).sessions@,
                    remote,
                    id,
                )
            },
    {
        let mut out: Vec<Outbound> = Vec::new();
        if self.find_session(remote).is_some() || self.players.is_full() {
            return out;
        }
        let id = self.players.fit_in(Player::default());
        self.sessions.push(Session { address: remote, player_id: id });
        proof {
            let before = old(self).sessions@;
            let after = self.sessions@;
            assert forall|i: int, j: int| 0 <= i < j < after.len() implies (#[trigger] after[i]).address
                != (#[trigger] after[j]).address && after[i].player_id != after[j].player_id by {
                if j == before.len() {
                    assert(before[i].address != remote);
                    assert(old(self).players@.contains_key(before[i].player_id));
                } else {
                    assert(before[i].address != before[j].address);
                }
            }
            assert forall|i: int| 0 <= i < after.len() implies self.players@.contains_key(
                (#[trigger] after[i]).player_id,
            ) by {
                if i < before.len() {
                    assert(old(self).players@.contains_key(before[i].player_id));
                }
            }
        }
        let snap = self.snapshot();
        post(&mut out, to_one(remote, snap));
        post(&mut out, to_one(remote, ServerPacket::UpdateHealth(FULL_HEALTH)));
        let rest = self.snapshot_rest(remote);
        post_all(&mut out, rest);
        let listing = self.laser_listing(remote);
        post_all(&mut out, listing);
        let everyone = self.addresses();
        let state = Player::default().obj;
        post(&mut out, to_all(&everyone, ServerPacket::UpdatePlayer(id, state)));
        assert(notes(out@) =~= connect_notes(
            self.planets.slots@,
            self.players.slots@,
            self.lasers.slots@,
            self.sessions@,
            remote,
            id,
        ));
        out
    }

    /// Gives the player of `remote` the state `state` and tells every
    /// session; does nothing where `remote` has no session.
    fn put_player(&mut self, remote: Address, player: Player) -> (out: Vec<Outbound>)
        requires
            old(self).wf(),
        ensures
            final(self).wf(),
            all_fit(out@),
            final(self).planets == old(self).planets,
            final(self).lasers == old(self).lasers,
            final(self).sessions == old(self).sessions,
            final(self).aggregate_time == old(self).aggregate_time,
            !knows(old(self).sessions@, remote) ==> final(self).players == old(self).players
                && out@.len() == 0,
            knows(old(self).sessions@, remote) ==> {
                let id = player_of(old(self).sessions@, remote);
                &&& final(self).players@ == old(self).players@.insert(id, player)
                &&& notes(out@) == seq![
                    Note {
                        to: addresses_of(old(self).sessions@),
                        msg: ServerMsg::UpdatePlayer(id, player.obj),
                    },
                ]
            },
    {
        let mut out: Vec<Outbound> = Vec::new();
        match self.find_session(remote) {
            Some(i) => {
                let id = self.sessions[i].player_id;
                let found = self.players.replace(id, player);
                assert(found);
                assert(self.players@.dom() =~= old(self).players@.dom());
                let everyone = self.addresses();
                post(&mut out, to_all(&everyone, ServerPacket::UpdatePlayer(id, player.obj)));
                assert(notes(out@) =~= seq![
                    Note {
                        to: addresses_of(old(self).sessions@),
                        msg: ServerMsg::UpdatePlayer(id, player.obj),
                    },
                ]);
                out
            },
            None => out,
        }
    }

    /// A client fires its engine: the player of `remote` gets `acceleration`
    /// as its acceleration, and every session is told the player's new state.
    /// A message from an endpoint without a session changes nothing.
    pub fn on_impulse(&mut self, remote: Address, acceleration: Vect) -> (out: Vec<Outbound>)
        requires
            old(self).wf(),
        ensures
            final(self).wf(),
            all_fit(out@),
            final(self).planets == old(self).planets,
            final(self).lasers == old(self).lasers,
            final(self).sessions == old(self).sessions,
            final(self).aggregate_time == old(self).aggregate_time,
            !knows(old(self).sessions@, remote) ==> final(self).players == old(self).players
                && out@.len() == 0,
            knows(old(self).sessions@, remote) ==> {
                let id = player_of(old(self).sessions@, remote);
                let player = pushed(old(self).players@[id], acceleration);
                &&& final(self).players@ == old(self).players@.insert(id, player)
                &&& notes(out@) == seq![
                    Note {
                        to: addresses_of(old(self).sessions@),
                        msg: ServerMsg::UpdatePlayer(id, player.obj),
                    },
                ]
            },
    {
        match self.player_at(remote) {
            Some((_, p)) => {
                let player = Player {
                    obj: RotatableObject {
                        physics_obj: PhysicsObject {
                            position: p.obj.physics_obj.position,
                            velocity: p.obj.physics_obj.velocity,
                            acceleration,
                        },
                        rotation: p.obj.rotation,
                    },
                    health: p.health,
                };
                self.put_player(remote, player)
            },
            None => Vec::new(),
        }
    }

    /// A client turns: the player of `remote` faces `rotation`, and every
    /// session is told the player's new state. A message from an endpoint
    /// without a session changes nothing.
    pub fn on_rotate(&mut self, remote: Address, rotation: Scalar) -> (out: Vec<Outbound>)
        requires
            old(self).wf(),
        ensures
            final(self).wf(),
            all_fit(out@),
            final(self).planets == old(self).planets,
            final(self).lasers == old(self).lasers,
            final(self).sessions == old(self).sessions,
            final(self).aggregate_time == old(self).aggregate_time,
            !knows(old(self).sessions@, remote) ==> final(self).players == old(self).players
                && out@.len() == 0,
            knows(old(self).sessions@, remote) ==> {
                let id = player_of(old(self).sessions@, remote);
                let player = turned(old(self).players@[id], rotation);
                &&& final(self).players@ == old(self).players@.insert(id, player)
                &&& notes(out@) == seq![
                    Note {
                        to: addresses_of(old(self).sessions@),
                        msg: ServerMsg::UpdatePlayer(id, player.obj),
                    },
                ]
            },
    {
        match self.player_at(remote) {
            Some((_, p)) => {
                let player = Player {
                    obj: RotatableObject { physics_obj: p.obj.physics_obj, rotation },
                    health: p.health,
                };
                self.put_player(remote, player)
            },
            None => Vec::new(),
        }
    }

    /// A client shoots: `laser` enters the table of projectiles under the
    /// smallest free identifier, and every session is told. Nothing happens
    /// where `remote` has no session, or while all projectile identifiers are
    /// taken.
    pub fn on_shoot(&mut self, remote: Address, laser: RotatableObject) -> (out: Vec<Outbound>)
        requires
            old(self).wf(),
        ensures
            final(self).wf(),
            all_fit(out@),
            final(self).planets == old(self).planets,
            final(self).players == old(self).players,
            final(self).sessions == old(self).sessions,
            final(self).aggregate_time == old(self).aggregate_time,
            !knows(old(self).sessions@, remote) || old(self).lasers.spec_is_full() ==> {
                &&& final(self).lasers == old(self).lasers
                &&& out@.len() == 0
            },
            knows(old(self).sessions@, remote) && !old(self).lasers.spec_is_full() ==> {
                let id = first_free(old(self).lasers@);
                &&& final(self).lasers@ == old(self).lasers@.insert(id, laser)
                &&& final(self).lasers.slots@ == old(self).lasers.slots@.insert(
                    id as int,
                    Slot { id, item: laser },
                )
                &&& notes(out@) == seq![
                    Note {
                        to: addresses_of(old(self).sessions@),
                        msg: ServerMsg::UpdateLaser(id, laser),
                    },
                ]
            },
    {
        let mut out: Vec<Outbound> = Vec::new();
        if self.find_session(remote).is_none() || self.lasers.is_full() {
            return out;
        }
        let id = self.lasers.fit_in(laser);
        let everyone = self.addresses();
        post(&mut out, to_all(&everyone, ServerPacket::UpdateLaser(id, laser)));
        assert(notes(out@) =~= seq![
            Note { to: addresses_of(old(self).sessions@), msg: ServerMsg::UpdateLaser(id, laser) },
        ]);
        out
    }

    /// Ends the session of `dead`: the session and its player leave the
    /// tables, `dead` is sent an acknowledgement and the sessions that remain
    /// are told of the deletion. An endpoint without a session is sent the
    /// acknowledgement and nothing changes.
    pub fn remove_player(&mut self, dead: Address) -> (out: Vec<Outbound>)
        requires
            old(self).wf(),
        ensures
            final(self).wf(),
            all_fit(out@),
            final(self).planets == old(self).planets,
            final(self).lasers == old(self).lasers,
            final(self).aggregate_time == old(self).aggregate_time,
            !knows(old(self).sessions@, dead) ==> {
                &&& final(self).players == old(self).players
                &&& final(self).sessions@ == old(self).sessions@
                &&& notes(out@) == farewell_notes(final(self).sessions@, dead, None)
            },
            knows(old(self).sessions@, dead) ==> {
                let id = player_of(old(self).sessions@, dead);
                &&& final(self).players@ == old(self).players@.remove(id)
                &&& final(self).players.slots@ == old(self).players.slots@.remove(
                    slot_of(old(self).players.slots@, id),
                )
                &&& final(self).sessions@ == old(self).sessions@.remove(
                    session_at(old(self).sessions@, dead),
                )
                &&& !knows(final(self).sessions@, dead)
                &&& notes(out@) == farewell_notes(final(self).sessions@, dead, Some(id))
            },
    {
        let mut out: Vec<Outbound> = Vec::new();
        post(&mut out, to_one(dead, ServerPacket::DisconnectAck));
        match self.find_session(dead) {
            Some(i) => {
                let ghost before = self.sessions@;
                let session = self.sessions.remove(i);
                let id = session.player_id;
                self.players.remove(id);
                proof {
                    let after = self.sessions@;
                    assert forall|a: int, b: int| 0 <= a < b < after.len() implies (#[trigger] after[a]).address
                        != (#[trigger] after[b]).address && after[a].player_id != after[b].player_id by {
                        let oa = if a < i { a } else { a + 1 };
                        let ob = if b < i { b } else { b + 1 };
                        assert(before[oa].address != before[ob].address);
                    }
                    assert forall|a: int| 0 <= a < after.len() implies self.players@.contains_key(
                        (#[trigger] after[a]).player_id,
                    ) by {
                        let oa = if a < i { a } else { a + 1 };
                        assert(old(self).players@.contains_key(before[oa].player_id));
                        if oa < i {
                            assert(before[oa].player_id != before[i as int].player_id);
                        } else {
                            assert(before[i as int].player_id != before[oa].player_id);
                        }
                    }
                    assert forall|a: int| 0 <= a < after.len() implies (#[trigger] after[a]).address
                        != dead by {
                        let oa = if a < i { a } else { a + 1 };
                        if oa < i {
                            assert(before[oa].address != before[i as int].address);
                        } else {
                            assert(before[i as int].address != before[oa].address);
                        }
                    }
                }
                let everyone = self.addresses();
                post(&mut out, to_all(&everyone, ServerPacket::DeletePlayer(id)));
                assert(notes(out@) =~= farewell_notes(self.sessions@, dead, Some(id)));
                out
            },
            None => {
                assert(notes(out@) =~= farewell_notes(self.sessions@, dead, None));
                out
            },
        }
    }

    /// A client leaves: see `remove_player`.
    pub fn on_disconnect(&mut self, remote: Address) -> (out: Vec<Outbound>)
        requires
            old(self).wf(),
        ensures
            final(self).wf(),
            all_fit(out@),
            final(self).planets == old(self).planets,
            final(self).lasers == old(self).lasers,
            final(self).aggregate_time == old(self).aggregate_time,
            !knows(old(self).sessions@, remote) ==> {
                &&& final(self).players == old(self).players
                &&& final(self).sessions@ == old(self).sessions@
                &&& notes(out@) == farewell_notes(final(self).sessions@, remote, None)
            },
            knows(old(self).sessions@, remote) ==> {
                let id = player_of(old(self).sessions@, remote);
                &&& final(self).players@ == old(self).players@.remove(id)
                &&& final(self).players.slots@ == old(self).players.slots@.remove(
                    slot_of(old(self).players.slots@, id),
                )
                &&& final(self).sessions@ == old(self).sessions@.remove(
                    session_at(old(self).sessions@, remote),
                )
                &&& !knows(final(self).sessions@, remote)
                &&& notes(out@) == farewell_notes(final(self).sessions@, remote, Some(id))
            },
    {
        self.remove_player(remote)
    }

    /// A client reports that it could not decode a message: the
    /// `SHED_ON_ERROR` projectiles with the smallest identifiers (all, where
    /// there are fewer) leave the table, and every session is told which.
    pub fn on_decode_error(&mut self) -> (out: Vec<Outbound>)
        requires
            old(self).wf(),
        ensures
            final(self).wf(),
            all_fit(out@),
            final(self).planets == old(self).planets,
            final(self).players == old(self).players,
            final(self).sessions == old(self).sessions,
            final(self).aggregate_time == old(self).aggregate_time,
            ({
                let all = old(self).lasers.slots@;
                let n = if all.len() < SHED_ON_ERROR {
                    all.len() as int
                } else {
                    SHED_ON_ERROR as int
                };
                &&& final(self).lasers.slots@ == all.subrange(n, all.len() as int)
                &&& notes(out@) == (if n == 0 {
                    Seq::<Note>::empty()
                } else {
                    seq![
                        Note {
                            to: addresses_of(old(self).sessions@),
                            msg: ServerMsg::DeleteLasers(ids_of(all.subrange(0, n))),
                        },
                    ]
                })
            }),
    {
        let mut out: Vec<Outbound> = Vec::new();
        let mut shed: Vec<Idx> = Vec::new();
        let ghost all = self.lasers.slots@;
        assert(all.subrange(0, all.len() as int) =~= all);
        while shed.len() < SHED_ON_ERROR && self.lasers.slots.len() > 0
            invariant
                self.lasers.wf(),
                self.planets == old(self).planets,
                self.players == old(self).players,
                self.sessions == old(self).sessions,
                self.aggregate_time == old(self).aggregate_time,
                all == old(self).lasers.slots@,
                shed@.len() <= SHED_ON_ERROR,
                shed@.len() <= all.len(),
                self.lasers.slots@ == all.subrange(shed@.len() as int, all.len() as int),
                shed@ == ids_of(all.subrange(0, shed@.len() as int)),
            decreases self.lasers.slots@.len(),
        {
            let id = self.lasers.slots[0].id;
            let ghost before = self.lasers.slots@;
            let ghost k = shed@.len() as int;
            proof {
                lemma_slot_unique(before, 0);
            }
            let gone = self.lasers.remove(id);
            shed.push(id);
            proof {
                assert(gone.is_some());
                assert(self.lasers.slots@ =~= all.subrange(k + 1, all.len() as int));
                assert(shed@ =~= ids_of(all.subrange(0, k + 1)));
            }
        }
        if shed.len() > 0 {
            let everyone = self.addresses();
            let ghost n = shed@.len() as int;
            post(&mut out, to_all(&everyone, ServerPacket::DeleteLasers(shed)));
            assert(notes(out@) =~= seq![
                Note {
                    to: addresses_of(old(self).sessions@),
                    msg: ServerMsg::DeleteLasers(ids_of(all.subrange(0, n))),
                },
            ]);
        } else {
            assert(notes(out@) =~= Seq::<Note>::empty());
        }
        out
    }

    /// Keeps the planets from dying out. While fewer than `PLANET_FLOOR`
    /// planets are live the elapsed time adds up; once `SPAWN_NANOS` have
    /// added up they are taken off the count, `candidate` enters the table
    /// under the smallest free identifier and every session is told. With
    /// enough planets nothing changes, the count included.
    pub fn maintain_population(&mut self, elapsed: u64, candidate: Planet) -> (out: Vec<Outbound>)
        requires
            old(self).wf(),
        ensures
            final(self).wf(),
            all_fit(out@),
            final(self).players == old(self).players,
            final(self).lasers == old(self).lasers,
            final(self).sessions == old(self).sessions,
            old(self).planets.slots@.len() >= PLANET_FLOOR ==> {
                &&& final(self).planets == old(self).planets
                &&& final(self).aggregate_time == old(self).aggregate_time
                &&& out@.len() == 0
            },
            old(self).planets.slots@.len() < PLANET_FLOOR && spec_waited(
                old(self).aggregate_time,
                elapsed,
            ) < SPAWN_NANOS ==> {
                &&& final(self).planets == old(self).planets
                &&& final(self).aggregate_time == spec_waited(old(self).aggregate_time, elapsed)
                &&& out@.len() == 0
            },
            old(self).planets.slots@.len() < PLANET_FLOOR && spec_waited(
                old(self).aggregate_time,
                elapsed,
            ) >= SPAWN_NANOS ==> {
                let id = first_free(old(self).planets@);
                &&& final(self).planets@ == old(self).planets@.insert(id, candidate)
                &&& final(self).planets.slots@ == old(self).planets.slots@.insert(
                    id as int,
                    Slot { id, item: candidate },
                )
                &&& final(self).aggregate_time == spec_waited(old(self).aggregate_time, elapsed)
                    - SPAWN_NANOS
                &&& notes(out@) == seq![
                    Note {
                        to: addresses_of(old(self).sessions@),
                        msg: ServerMsg::UpdatePlanet(id, candidate.obj),
                    },
                ]
            },
    {
        let mut out: Vec<Outbound> = Vec::new();
        if self.planets.len() >= PLANET_FLOOR {
            return out;
        }
        let waited: u64 = if elapsed > u64::MAX - self.aggregate_time {
            u64::MAX
        } else {
            self.aggregate_time + elapsed
        };
        if waited < SPAWN_NANOS {
            self.aggregate_time = waited;
            return out;
        }
        self.aggregate_time = waited - SPAWN_NANOS;
        let id = self.planets.fit_in(candidate);
        let everyone = self.addresses();
        post(&mut out, to_all(&everyone, ServerPacket::UpdatePlanet(id, candidate.obj)));
        assert(notes(out@) =~= seq![
            Note {
                to: addresses_of(old(self).sessions@),
                msg: ServerMsg::UpdatePlanet(id, candidate.obj),
            },
        ]);
        out
    }
}

/// With distinct sessions an endpoint stands at one position only.
pub proof fn lemma_session_unique(sessions: Seq<Session>, i: int)
    requires
        sessions_distinct(sessions),
        0 <= i < sessions.len(),
    ensures
        knows(sessions, sessions[i].address),
        session_at(sessions, sessions[i].address) == i,
        player_of(sessions, sessions[i].address) == sessions[i].player_id,
{
    let j = session_at(sessions, sessions[i].address);
    assert(0 <= j < sessions.len() && sessions[j].address == sessions[i].address);
    if j < i {
        assert(sessions[j].address != sessions[i].address);
    } else if i < j {
        assert(sessions[i].address != sessions[j].address);
    }
}

} // verus!
