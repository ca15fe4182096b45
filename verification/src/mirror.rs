//! A client's picture of the world: what the server's messages, applied in
//! the order in which they arrive, add up to.

use vstd::prelude::*;
use crate::net::{ServerMsg, ServerPacket};
use crate::obj::{PhysicsObject, RotatableObject};
use crate::table::{lemma_insert_slot, slots_map, slots_sorted, Idx, Slot, Table};

verus! {

/// What a client knows of the world.
#[derive(Clone, Debug, PartialEq, Eq)]
pub struct Mirror {
    pub planets: Table<PhysicsObject>,
    pub players: Table<RotatableObject>,
    pub lasers: Table<RotatableObject>,
    /// The health of the client's own player.
    pub health: u8,
    /// Whether the server has not yet acknowledged a disconnect.
    pub connected: bool,
}

/// The map `m` with the entries of `list` put in one after the other, a later
/// entry in place of an earlier one with the same identifier.
pub open spec fn with_all<T>(m: Map<Idx, T>, list: Seq<Slot<T>>) -> Map<Idx, T>
    decreases list.len(),
{
    if list.len() == 0 {
        m
    } else {
        with_all(m, list.drop_last()).insert(list.last().id, list.last().item)
    }
}

/// The map `m` without the keys that `ids` names.
pub open spec fn without_all<T>(m: Map<Idx, T>, ids: Seq<Idx>) -> Map<Idx, T> {
    m.remove_keys(ids.to_set())
}

/// What a client's picture is after a message.
pub open spec fn spec_applied(
    planets: Map<Idx, PhysicsObject>,
    players: Map<Idx, RotatableObject>,
    lasers: Map<Idx, RotatableObject>,
    health: u8,
    connected: bool,
    m: ServerMsg,
) -> (Map<Idx, PhysicsObject>, Map<Idx, RotatableObject>, Map<Idx, RotatableObject>, u8, bool) {
    match m {
        ServerMsg::PlayersAndPlanets { players: new_players, planets: new_planets } => (
            with_all(Map::empty(), new_planets),
            with_all(Map::empty(), new_players),
            lasers,
            health,
            connected,
        ),
        ServerMsg::Lasers(more) => (planets, players, with_all(lasers, more), health, connected),
        ServerMsg::UpdatePlayer(id, o) => (planets, players.insert(id, o), lasers, health, connected),
        ServerMsg::UpdateLaser(id, o) => (planets, players, lasers.insert(id, o), health, connected),
        ServerMsg::UpdatePlanet(id, o) => (planets.insert(id, o), players, lasers, health, connected),
        ServerMsg::DeletePlayer(id) => (planets, players.remove(id), lasers, health, connected),
        ServerMsg::DeleteLasers(ids) => (
            planets,
            players,
            without_all(lasers, ids),
            health,
            connected,
        ),
        ServerMsg::DeletePlanets(ids) => (
            without_all(planets, ids),
            players,
            lasers,
            health,
            connected,
        ),
        ServerMsg::UpdateHealth(h) => (planets, players, lasers, h, connected),
        ServerMsg::DisconnectAck => (planets, players, lasers, health, false),
    }
}

/// A listing in the order of a table, put into an empty picture, gives the
/// table back: a client that applies a snapshot sees what the server has.
pub proof fn lemma_snapshot_mirrors<T>(slots: Seq<Slot<T>>)
    requires
        slots_sorted(slots),
    ensures
        with_all(Map::<Idx, T>::empty(), slots) == slots_map(slots),
    decreases slots.len(),
{
    if slots.len() == 0 {
        assert(slots_map(slots) =~= Map::<Idx, T>::empty());
    } else {
        let head = slots.drop_last();
        let last = slots.last();
        assert forall|i: int, j: int| 0 <= i < j < head.len() implies (#[trigger] head[i]).id < (
        #[trigger] head[j]).id by {
            assert(slots[i].id < slots[j].id);
        }
        lemma_snapshot_mirrors(head);
        assert forall|k: int| 0 <= k < head.len() implies (#[trigger] head[k]).id < last.id by {
            assert(slots[k].id < slots[slots.len() - 1].id);
        }
        lemma_insert_slot(head, head.len() as int, last);
        assert(head.insert(head.len() as int, last) =~= slots);
    }
}

/// Puts the entries of `list` into `table` one after the other.
pub fn put_all<T: Copy>(table: &mut Table<T>, list: &Vec<Slot<T>>)
    requires
        old(table).wf(),
    ensures
        final(table).wf(),
        final(table)@ == with_all(old(table)@, list@),
{
    let mut i: usize = 0;
    assert(list@.subrange(0, 0) =~= Seq::<Slot<T>>::empty());
    while i < list.len()
        invariant
            i <= list@.len(),
            table.wf(),
            table@ == with_all(old(table)@, list@.subrange(0, i as int)),
        decreases list@.len() - i,
    {
        proof {
            assert(list@.subrange(0, i + 1).drop_last() =~= list@.subrange(0, i as int));
        }
        table.insert(list[i].id, list[i].item);
        i += 1;
    }
    assert(list@.subrange(0, i as int) =~= list@);
}

/// Takes the entries that `ids` names out of `table`.
pub fn drop_all<T: Copy>(table: &mut Table<T>, ids: &Vec<Idx>)
    requires
        old(table).wf(),
    ensures
        final(table).wf(),
        final(table)@ == without_all(old(table)@, ids@),
{
    let mut i: usize = 0;
    assert(table@ =~= without_all(table@, ids@.subrange(0, 0)));
    while i < ids.len()
        invariant
            i <= ids@.len(),
            table.wf(),
            table@ == without_all(old(table)@, ids@.subrange(0, i as int)),
        decreases ids@.len() - i,
    {
        table.remove(ids[i]);
        proof {
            let head = ids@.subrange(0, i as int);
            let more = ids@.subrange(0, i + 1);
            assert forall|id: Idx| more.to_set().contains(id) <==> head.to_set().contains(id) || id
                == ids@[i as int] by {
                if head.contains(id) {
                    let k = choose|k: int| 0 <= k < head.len() && head[k] == id;
                    assert(more[k] == id);
                }
                if more.contains(id) {
                    let k = choose|k: int| 0 <= k < more.len() && more[k] == id;
                    if k < i {
                        assert(head[k] == id);
                    }
                }
                assert(more[i as int] == ids@[i as int]);
            }
            assert(table@ =~= without_all(old(table)@, more));
        }
        i += 1;
    }
    assert(ids@.subrange(0, i as int) =~= ids@);
}

impl Mirror {
    /// The three tables are in order.
    pub open spec fn wf(&self) -> bool {
        &&& self.planets.wf()
        &&& self.players.wf()
        &&& self.lasers.wf()
    }

    /// Whether the three tables are in order: see `wf`.
    pub fn is_wf(&self) -> (b: bool)
        ensures
            b == self.wf(),
    {
        self.planets.is_wf() && self.players.is_wf() && self.lasers.is_wf()
    }

    /// The picture as plain values.
    pub open spec fn picture(&self) -> (
        Map<Idx, PhysicsObject>,
        Map<Idx, RotatableObject>,
        Map<Idx, RotatableObject>,
        u8,
        bool,
    ) {
        (self.planets@, self.players@, self.lasers@, self.health, self.connected)
    }

    /// The picture of a client that has heard nothing yet.
    pub fn new() -> (m: Mirror)
        ensures
            m.wf(),
            m.picture() == (
                Map::<Idx, PhysicsObject>::empty(),
                Map::<Idx, RotatableObject>::empty(),
                Map::<Idx, RotatableObject>::empty(),
                0u8,
                true,
            ),
    {
        Mirror {
            planets: Table::new(),
            players: Table::new(),
            lasers: Table::new(),
            health: 0,
            connected: true,
        }
    }

    /// Takes one message of the server into the picture. A snapshot replaces
    /// the planets and players; a listing of projectiles adds to those known;
    /// an update puts one entity in place; a deletion takes entities out, and
    /// names that are not known are passed over; the acknowledgement of a
    /// disconnect ends the connection.
    pub fn apply(&mut self, packet: &ServerPacket)
        requires
            old(self).wf(),
        ensures
            final(self).wf(),
            final(self).picture() == spec_applied(
                old(self).planets@,
                old(self).players@,
                old(self).lasers@,
                old(self).health,
                old(self).connected,
                packet@,
            ),
    {
        match packet {
            ServerPacket::PlayersAndPlanets { players, planets } => {
                let mut new_planets: Table<PhysicsObject> = Table::new();
                put_all(&mut new_planets, planets);
                let mut new_players: Table<RotatableObject> = Table::new();
                put_all(&mut new_players, players);
                self.planets = new_planets;
                self.players = new_players;
            },
            ServerPacket::Lasers(more) => {
                put_all(&mut self.lasers, more);
            },
            ServerPacket::UpdatePlayer(id, o) => {
                self.players.insert(*id, *o);
            },
            ServerPacket::UpdateLaser(id, o) => {
                self.lasers.insert(*id, *o);
            },
            ServerPacket::UpdatePlanet(id, o) => {
                self.planets.insert(*id, *o);
            },
            ServerPacket::DeletePlayer(id) => {
                self.players.remove(*id);
            },
            ServerPacket::DeleteLasers(ids) => {
                drop_all(&mut self.lasers, ids);
            },
            ServerPacket::DeletePlanets(ids) => {
                drop_all(&mut self.planets, ids);
            },
            ServerPacket::UpdateHealth(h) => {
                self.health = *h;
            },
            ServerPacket::DisconnectAck => {
                self.connected = false;
            },
        }
    }
}

} // verus!
