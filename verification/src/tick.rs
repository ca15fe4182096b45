//! One step of the simulation. The caller measures the world (which
//! projectile touches which body, and where each body is after the step);
//! the step here decides what that means: who loses health, who leaves, who
//! is told what.

use vstd::prelude::*;
use crate::net::{
    all_fit, note_to_one, notes, post, post_all, to_all, to_one, Address, Note, Outbound, ServerMsg,
    ServerPacket,
};
use crate::obj::{lemma_worn_step, spec_worn_by, PhysicsObject, Planet, Player, RotatableObject};
use crate::server::{
    addresses_of, farewell_notes, ids_of, lemma_session_unique, sessions_distinct, Server, Session,
};
use crate::table::{lowered, slot_of, slots_closed, slots_map, slots_sorted, Idx, Slot, Table};

verus! {

/// A projectile within the contact radius of a body.
#[derive(Clone, Copy, Debug, PartialEq, Eq, Structural)]
pub struct Contact {
    /// The planet or player that is touched.
    pub target: Idx,
    pub laser: Idx,
}

/// Where the body `id` is after the step, and whether it left the world on
/// one side and came back on the other.
#[derive(Clone, Copy, Debug, PartialEq, Eq)]
pub struct Move<S> {
    pub id: Idx,
    pub state: S,
    pub wrapped: bool,
}

/// What the caller has measured for one step: the contacts between
/// projectiles and bodies at the start of the step, and where the step takes
/// each body.
#[derive(Clone, Debug, Default, PartialEq, Eq)]
pub struct Frame {
    pub planet_contacts: Vec<Contact>,
    pub player_contacts: Vec<Contact>,
    pub planet_moves: Vec<Move<PhysicsObject>>,
    pub player_moves: Vec<Move<RotatableObject>>,
    pub laser_moves: Vec<Move<RotatableObject>>,
}

/// How many of `contacts` touch `target` with a projectile of `lasers`.
pub open spec fn hits_on(
    contacts: Seq<Contact>,
    lasers: Map<Idx, RotatableObject>,
    target: Idx,
) -> nat
    decreases contacts.len(),
{
    if contacts.len() == 0 {
        0
    } else {
        let c = contacts.last();
        hits_on(contacts.drop_last(), lasers, target) + (if c.target == target
            && lasers.contains_key(c.laser) {
            1nat
        } else {
            0nat
        })
    }
}

/// The last of `moves` that is about `id`.
pub open spec fn last_move<S>(moves: Seq<Move<S>>, id: Idx) -> Option<Move<S>>
    decreases moves.len(),
{
    if moves.len() == 0 {
        None
    } else if moves.last().id == id {
        Some(moves.last())
    } else {
        last_move(moves.drop_last(), id)
    }
}

/// Counts the contacts on `target` that name a projectile of `lasers`.
pub fn count_hits(contacts: &Vec<Contact>, lasers: &Table<RotatableObject>, target: Idx) -> (n:
    usize)
    requires
        lasers.wf(),
    ensures
        n == hits_on(contacts@, lasers@, target),
{
    let mut n: usize = 0;
    let mut i: usize = 0;
    assert(contacts@.subrange(0, 0).len() == 0);
    while i < contacts.len()
        invariant
            i <= contacts@.len(),
            lasers.wf(),
            n <= i,
            n == hits_on(contacts@.subrange(0, i as int), lasers@, target),
        decreases contacts@.len() - i,
    {
        let c = contacts[i];
        proof {
            assert(contacts@.subrange(0, i + 1).drop_last() =~= contacts@.subrange(0, i as int));
        }
        if c.target == target && lasers.contains_key(c.laser) {
            n += 1;
        }
        i += 1;
    }
    assert(contacts@.subrange(0, i as int) =~= contacts@);
    n
}

/// Finds the last of `moves` that is about `id`.
pub fn find_move<S: Copy>(moves: &Vec<Move<S>>, id: Idx) -> (found: Option<Move<S>>)
    ensures
        found == last_move(moves@, id),
{
    let mut i: usize = moves.len();
    assert(moves@.subrange(0, i as int) =~= moves@);
    while i > 0
        invariant
            i <= moves@.len(),
            last_move(moves@, id) == last_move(moves@.subrange(0, i as int), id),
        decreases i,
    {
        let m = moves[i - 1];
        proof {
            assert(moves@.subrange(0, i as int).drop_last() =~= moves@.subrange(0, i - 1));
        }
        if m.id == id {
            return Some(Move { id: m.id, state: m.state, wrapped: m.wrapped });
        }
        i -= 1;
    }
    None
}

/// What `hits` hits leave of `health`.
pub fn wear(health: u8, hits: usize) -> (left: u8)
    ensures
        left == spec_worn_by(health, hits as nat),
{
    if hits >= health as usize {
        0
    } else {
        health - (hits as u8)
    }
}

/// A planet after the step: each contact costs one health; a planet that has
/// health left is where its move puts it.
pub open spec fn planet_after(
    id: Idx,
    planet: Planet,
    contacts: Seq<Contact>,
    moves: Seq<Move<PhysicsObject>>,
    lasers: Map<Idx, RotatableObject>,
) -> Planet {
    let health = spec_worn_by(planet.health, hits_on(contacts, lasers, id));
    Planet {
        obj: if health != 0 && last_move(moves, id).is_some() {
            last_move(moves, id).unwrap().state
        } else {
            planet.obj
        },
        health,
    }
}

/// Whether a planet has health left.
pub open spec fn planet_alive() -> spec_fn(Slot<Planet>) -> bool {
    |s: Slot<Planet>| s.item.health != 0
}

/// Whether a planet has no health left.
pub open spec fn planet_dead() -> spec_fn(Slot<Planet>) -> bool {
    |s: Slot<Planet>| s.item.health == 0
}

/// All planets after the contacts and moves of the step, the dead among them
/// included.
pub open spec fn planets_after(
    slots: Seq<Slot<Planet>>,
    contacts: Seq<Contact>,
    moves: Seq<Move<PhysicsObject>>,
    lasers: Map<Idx, RotatableObject>,
) -> Seq<Slot<Planet>> {
    slots.map_values(
        |s: Slot<Planet>| Slot { id: s.id, item: planet_after(s.id, s.item, contacts, moves, lasers) },
    )
}

/// The updates for the planets that wrapped and have health left, in the
/// order of the table.
pub open spec fn planet_wrap_notes(
    to: Seq<Address>,
    slots: Seq<Slot<Planet>>,
    contacts: Seq<Contact>,
    moves: Seq<Move<PhysicsObject>>,
    lasers: Map<Idx, RotatableObject>,
) -> Seq<Note>
    decreases slots.len(),
{
    if slots.len() == 0 {
        Seq::empty()
    } else {
        let s = slots.last();
        let m = last_move(moves, s.id);
        let rest = planet_wrap_notes(to, slots.drop_last(), contacts, moves, lasers);
        if spec_worn_by(s.item.health, hits_on(contacts, lasers, s.id)) != 0 && m.is_some()
            && m.unwrap().wrapped {
            rest.push(Note { to, msg: ServerMsg::UpdatePlanet(s.id, m.unwrap().state) })
        } else {
            rest
        }
    }
}

/// The most identifiers that one deletion message names.
pub const IDS_PER_PACKET: usize = 506;

/// The message that names `ids` as deleted planets, or as deleted
/// projectiles.
pub open spec fn deletion(ids: Seq<Idx>, planets: bool) -> ServerMsg {
    if planets {
        ServerMsg::DeletePlanets(ids)
    } else {
        ServerMsg::DeleteLasers(ids)
    }
}

/// The messages that name `ids` as deleted, each with at most
/// `IDS_PER_PACKET` identifiers, the last identifiers first; none where `ids`
/// is empty.
pub open spec fn delete_notes(to: Seq<Address>, ids: Seq<Idx>, planets: bool) -> Seq<Note>
    decreases ids.len(),
{
    if ids.len() == 0 {
        Seq::empty()
    } else {
        let start = if ids.len() > IDS_PER_PACKET {
            ids.len() - IDS_PER_PACKET
        } else {
            0
        };
        seq![Note { to, msg: deletion(ids.subrange(start, ids.len() as int), planets) }]
            + delete_notes(to, ids.subrange(0, start), planets)
    }
}

/// The messages that name `ids` as deleted planets.
pub open spec fn delete_planets_notes(to: Seq<Address>, ids: Seq<Idx>) -> Seq<Note> {
    delete_notes(to, ids, true)
}

/// The messages that name `ids` as deleted projectiles.
pub open spec fn delete_lasers_notes(to: Seq<Address>, ids: Seq<Idx>) -> Seq<Note> {
    delete_notes(to, ids, false)
}

/// The deletion messages for `ids`, each small enough for a datagram.
pub fn tell_deleted(to: &Vec<Address>, ids: &Vec<Idx>, planets: bool) -> (out: Vec<Outbound>)
    ensures
        notes(out@) == delete_notes(to@, ids@, planets),
        all_fit(out@),
{
    let mut out: Vec<Outbound> = Vec::new();
    let mut rest: usize = ids.len();
    assert(ids@.subrange(0, rest as int) =~= ids@);
    while rest > 0
        invariant
            rest <= ids@.len(),
            notes(out@) + delete_notes(to@, ids@.subrange(0, rest as int), planets) == delete_notes(
                to@,
                ids@,
                planets,
            ),
            all_fit(out@),
        decreases rest,
    {
        let start: usize = if rest > IDS_PER_PACKET {
            rest - IDS_PER_PACKET
        } else {
            0
        };
        let mut batch: Vec<Idx> = Vec::new();
        let mut k: usize = start;
        while k < rest
            invariant
                start <= k <= rest <= ids@.len(),
                batch@ == ids@.subrange(start as int, k as int),
            decreases rest - k,
        {
            batch.push(ids[k]);
            assert(batch@ =~= ids@.subrange(start as int, k + 1));
            k += 1;
        }
        proof {
            let head = ids@.subrange(0, rest as int);
            assert(head.subrange(start as int, head.len() as int) =~= batch@);
            assert(head.subrange(0, start as int) =~= ids@.subrange(0, start as int));
            assert((notes(out@).push(Note { to: to@, msg: deletion(batch@, planets) }))
                + delete_notes(to@, ids@.subrange(0, start as int), planets) =~= notes(out@)
                + delete_notes(to@, head, planets));
        }
        let packet = if planets {
            ServerPacket::DeletePlanets(batch)
        } else {
            ServerPacket::DeleteLasers(batch)
        };
        post(&mut out, to_all(to, packet));
        rest = start;
    }
    assert(notes(out@) + delete_notes(to@, ids@.subrange(0, 0), planets) =~= notes(out@));
    out
}

/// Whether some session of `sessions` steers the player `id`.
pub open spec fn steered(sessions: Seq<Session>, id: Idx) -> bool {
    exists|i: int| 0 <= i < sessions.len() && #[trigger] sessions[i].player_id == id
}

/// The endpoint that steers the player `id`, where there is one.
pub open spec fn pilot_of(sessions: Seq<Session>, id: Idx) -> Address {
    sessions[choose|i: int| 0 <= i < sessions.len() && #[trigger] sessions[i].player_id == id].address
}

/// What the endpoint `to` is told of its health, once for each contact on its
/// player `id`: the health that is left after that contact.
pub open spec fn health_notes(
    to: Address,
    health: u8,
    id: Idx,
    contacts: Seq<Contact>,
    lasers: Map<Idx, RotatableObject>,
) -> Seq<Note>
    decreases contacts.len(),
{
    if contacts.len() == 0 {
        Seq::empty()
    } else {
        let c = contacts.last();
        let rest = health_notes(to, health, id, contacts.drop_last(), lasers);
        if c.target == id && lasers.contains_key(c.laser) {
            rest.push(
                note_to_one(
                    to,
                    ServerMsg::UpdateHealth(spec_worn_by(health, hits_on(contacts, lasers, id))),
                ),
            )
        } else {
            rest
        }
    }
}

/// A player after the step: each contact costs a player that has a session
/// one health, and the player is where its move puts it.
pub open spec fn player_after(
    id: Idx,
    player: Player,
    sessions: Seq<Session>,
    contacts: Seq<Contact>,
    moves: Seq<Move<RotatableObject>>,
    lasers: Map<Idx, RotatableObject>,
) -> Player {
    Player {
        obj: if last_move(moves, id).is_some() {
            last_move(moves, id).unwrap().state
        } else {
            player.obj
        },
        health: if steered(sessions, id) {
            spec_worn_by(player.health, hits_on(contacts, lasers, id))
        } else {
            player.health
        },
    }
}

/// All players after the contacts and moves of the step.
pub open spec fn players_after(
    slots: Seq<Slot<Player>>,
    sessions: Seq<Session>,
    contacts: Seq<Contact>,
    moves: Seq<Move<RotatableObject>>,
    lasers: Map<Idx, RotatableObject>,
) -> Seq<Slot<Player>> {
    slots.map_values(
        |s: Slot<Player>|
            Slot {
                id: s.id,
                item: player_after(s.id, s.item, sessions, contacts, moves, lasers),
            },
    )
}

/// The health messages of the step, player by player in the order of the
/// table.
pub open spec fn player_health_notes(
    slots: Seq<Slot<Player>>,
    sessions: Seq<Session>,
    contacts: Seq<Contact>,
    lasers: Map<Idx, RotatableObject>,
) -> Seq<Note>
    decreases slots.len(),
{
    if slots.len() == 0 {
        Seq::empty()
    } else {
        let s = slots.last();
        let rest = player_health_notes(slots.drop_last(), sessions, contacts, lasers);
        if steered(sessions, s.id) {
            rest + health_notes(pilot_of(sessions, s.id), s.item.health, s.id, contacts, lasers)
        } else {
            rest
        }
    }
}

/// Applies the contacts on the player `id` of the endpoint `to` one by one.
pub fn strike_player(
    to: Address,
    health: u8,
    id: Idx,
    contacts: &Vec<Contact>,
    lasers: &Table<RotatableObject>,
) -> (r: (u8, Vec<Outbound>))
    requires
        lasers.wf(),
    ensures
        r.0 == spec_worn_by(health, hits_on(contacts@, lasers@, id)),
        notes(r.1@) == health_notes(to, health, id, contacts@, lasers@),
        all_fit(r.1@),
{
    let mut out: Vec<Outbound> = Vec::new();
    let mut left: u8 = health;
    let mut i: usize = 0;
    assert(contacts@.subrange(0, 0).len() == 0);
    assert(notes(out@) =~= Seq::<Note>::empty());
    while i < contacts.len()
        invariant
            i <= contacts@.len(),
            lasers.wf(),
            left == spec_worn_by(health, hits_on(contacts@.subrange(0, i as int), lasers@, id)),
            notes(out@) == health_notes(to, health, id, contacts@.subrange(0, i as int), lasers@),
            all_fit(out@),
        decreases contacts@.len() - i,
    {
        let c = contacts[i];
        proof {
            assert(contacts@.subrange(0, i + 1).drop_last() =~= contacts@.subrange(0, i as int));
            lemma_worn_step(health, hits_on(contacts@.subrange(0, i as int), lasers@, id));
        }
        if c.target == id && lasers.contains_key(c.laser) {
            left = crate::obj::worn(left);
            post(&mut out, to_one(to, ServerPacket::UpdateHealth(left)));
        }
        i += 1;
    }
    assert(contacts@.subrange(0, i as int) =~= contacts@);
    (left, out)
}

/// Whether some contact of `contacts` names the projectile `laser` and a
/// body of `targets`.
pub open spec fn struck_by(contacts: Seq<Contact>, targets: Set<Idx>, laser: Idx) -> bool {
    exists|i: int|
        0 <= i < contacts.len() && (#[trigger] contacts[i]).laser == laser && targets.contains(
            contacts[i].target,
        )
}

/// The players that have a session.
pub open spec fn pilots(sessions: Seq<Session>) -> Set<Idx> {
    Set::new(|id: Idx| steered(sessions, id))
}

/// The projectiles of the contacts that name a body of `targets`, one entry
/// for each such contact, in the order of the contacts.
pub open spec fn marks_of(contacts: Seq<Contact>, targets: Set<Idx>) -> Seq<Idx>
    decreases contacts.len(),
{
    if contacts.len() == 0 {
        Seq::empty()
    } else if targets.contains(contacts.last().target) {
        marks_of(contacts.drop_last(), targets).push(contacts.last().laser)
    } else {
        marks_of(contacts.drop_last(), targets)
    }
}

/// Whether `marks` names exactly the projectiles that touch a body of
/// `targets`, in any order and with any repetition.
pub open spec fn marks_cover(marks: Seq<Idx>, contacts: Seq<Contact>, targets: Set<Idx>) -> bool {
    forall|id: Idx| marks.contains(id) <==> struck_by(contacts, targets, id)
}

/// Whether a projectile is named in `marks`.
pub open spec fn marked(marks: Seq<Idx>) -> spec_fn(Slot<RotatableObject>) -> bool {
    |s: Slot<RotatableObject>| marks.contains(s.id)
}

/// Whether a projectile is not named in `marks`.
pub open spec fn unmarked(marks: Seq<Idx>) -> spec_fn(Slot<RotatableObject>) -> bool {
    |s: Slot<RotatableObject>| !marks.contains(s.id)
}

/// Whether a projectile touches a planet of `planets` or a player of
/// `players`.
pub open spec fn laser_struck(
    planet_contacts: Seq<Contact>,
    planets: Set<Idx>,
    player_contacts: Seq<Contact>,
    players: Set<Idx>,
) -> spec_fn(Slot<RotatableObject>) -> bool {
    |s: Slot<RotatableObject>|
        struck_by(planet_contacts, planets, s.id) || struck_by(player_contacts, players, s.id)
}

/// Whether a projectile touches neither a planet of `planets` nor a player
/// of `players`.
pub open spec fn laser_spared(
    planet_contacts: Seq<Contact>,
    planets: Set<Idx>,
    player_contacts: Seq<Contact>,
    players: Set<Idx>,
) -> spec_fn(Slot<RotatableObject>) -> bool {
    |s: Slot<RotatableObject>|
        !(struck_by(planet_contacts, planets, s.id) || struck_by(player_contacts, players, s.id))
}

/// The projectiles of `slots`, each where its move puts it.
pub open spec fn lasers_after(
    slots: Seq<Slot<RotatableObject>>,
    moves: Seq<Move<RotatableObject>>,
) -> Seq<Slot<RotatableObject>> {
    slots.map_values(
        |s: Slot<RotatableObject>|
            Slot {
                id: s.id,
                item: if last_move(moves, s.id).is_some() {
                    last_move(moves, s.id).unwrap().state
                } else {
                    s.item
                },
            },
    )
}

/// The updates for the projectiles of `slots` that wrapped, in the order of
/// the table.
pub open spec fn laser_wrap_notes(
    to: Seq<Address>,
    slots: Seq<Slot<RotatableObject>>,
    moves: Seq<Move<RotatableObject>>,
) -> Seq<Note>
    decreases slots.len(),
{
    if slots.len() == 0 {
        Seq::empty()
    } else {
        let s = slots.last();
        let m = last_move(moves, s.id);
        let rest = laser_wrap_notes(to, slots.drop_last(), moves);
        if m.is_some() && m.unwrap().wrapped {
            rest.push(Note { to, msg: ServerMsg::UpdateLaser(s.id, m.unwrap().state) })
        } else {
            rest
        }
    }
}

/// What a list contains after one more element.
pub proof fn lemma_push_contains(list: Seq<Idx>, x: Idx, y: Idx)
    ensures
        list.push(x).contains(y) <==> list.contains(y) || x == y,
{
    if list.contains(y) {
        let k = choose|k: int| 0 <= k < list.len() && list[k] == y;
        assert(list.push(x)[k] == y);
    }
    if x == y {
        assert(list.push(x)[list.len() as int] == y);
    }
}

/// What two lists contain together.
pub proof fn lemma_add_contains(a: Seq<Idx>, b: Seq<Idx>, y: Idx)
    ensures
        (a + b).contains(y) <==> a.contains(y) || b.contains(y),
{
    if a.contains(y) {
        let k = choose|k: int| 0 <= k < a.len() && a[k] == y;
        assert((a + b)[k] == y);
    }
    if b.contains(y) {
        let k = choose|k: int| 0 <= k < b.len() && b[k] == y;
        assert((a + b)[a.len() + k] == y);
    }
}

/// Two filters that agree on every element keep the same elements.
pub proof fn lemma_filter_agree<T>(list: Seq<T>, p: spec_fn(T) -> bool, q: spec_fn(T) -> bool)
    requires
        forall|i: int| 0 <= i < list.len() ==> p(#[trigger] list[i]) == q(list[i]),
    ensures
        list.filter(p) == list.filter(q),
    decreases list.len(),
{
    reveal(Seq::filter);
    if list.len() > 0 {
        assert(p(list[list.len() - 1]) == q(list[list.len() - 1]));
        assert forall|i: int| 0 <= i < list.drop_last().len() implies p(
            #[trigger] list.drop_last()[i],
        ) == q(list.drop_last()[i]) by {
            assert(list.drop_last()[i] == list[i]);
        }
        lemma_filter_agree(list.drop_last(), p, q);
    }
}

/// Whether `x` occurs in `list`.
pub fn list_has(list: &Vec<Idx>, x: Idx) -> (b: bool)
    ensures
        b == list@.contains(x),
{
    let mut i: usize = 0;
    while i < list.len()
        invariant
            i <= list@.len(),
            forall|k: int| 0 <= k < i ==> list@[k] != x,
        decreases list@.len() - i,
    {
        if list[i] == x {
            return true;
        }
        i += 1;
    }
    false
}

/// Whether the session at `i` is the first whose player has no health left.
pub open spec fn is_first_dead(sessions: Seq<Session>, players: Map<Idx, Player>, i: int) -> bool {
    &&& 0 <= i < sessions.len()
    &&& players[sessions[i].player_id].health == 0
    &&& forall|j: int| 0 <= j < i ==> players[(#[trigger] sessions[j]).player_id].health != 0
}

/// The position of the first session whose player has no health left, if
/// there is such a session.
pub open spec fn first_dead(sessions: Seq<Session>, players: Map<Idx, Player>) -> Option<int> {
    if exists|i: int| is_first_dead(sessions, players, i) {
        Some(choose|i: int| is_first_dead(sessions, players, i))
    } else {
        None
    }
}

/// The sessions with every player identifier above `gone` lowered by one.
pub open spec fn sessions_closed(sessions: Seq<Session>, gone: Idx) -> Seq<Session> {
    sessions.map_values(
        |s: Session| Session { address: s.address, player_id: lowered(s.player_id, gone) },
    )
}

/// The sessions after the first dead player's session has been ended and
/// the player identifiers closed up.
pub open spec fn buried_sessions(sessions: Seq<Session>, players: Map<Idx, Player>) -> Seq<
    Session,
> {
    match first_dead(sessions, players) {
        Some(i) => sessions_closed(sessions.remove(i), sessions[i].player_id),
        None => sessions,
    }
}

/// The players after the first dead player that has a session has left and
/// the identifiers above it have moved down by one.
pub open spec fn buried_players(slots: Seq<Slot<Player>>, sessions: Seq<Session>) -> Seq<
    Slot<Player>,
> {
    match first_dead(sessions, slots_map(slots)) {
        Some(i) => slots_closed(
            slots.remove(slot_of(slots, sessions[i].player_id)),
            sessions[i].player_id,
        ),
        None => slots,
    }
}

/// What the end of the first dead player's session calls for.
pub open spec fn burial_notes(sessions: Seq<Session>, players: Map<Idx, Player>) -> Seq<Note> {
    match first_dead(sessions, players) {
        Some(i) => farewell_notes(sessions.remove(i), sessions[i].address, Some(sessions[i].player_id)),
        None => Seq::empty(),
    }
}

/// There is one first dead session at most.
pub proof fn lemma_first_dead_unique(sessions: Seq<Session>, players: Map<Idx, Player>, i: int)
    requires
        is_first_dead(sessions, players, i),
    ensures
        first_dead(sessions, players) == Some(i),
{
    let j = choose|j: int| is_first_dead(sessions, players, j);
    assert(is_first_dead(sessions, players, j));
    if j < i {
        assert(players[sessions[j].player_id].health != 0);
    } else if i < j {
        assert(players[sessions[i].player_id].health != 0);
    }
}

/// The hits of two lists of contacts add up.
pub proof fn lemma_hits_add_up(
    a: Seq<Contact>,
    b: Seq<Contact>,
    lasers: Map<Idx, RotatableObject>,
    target: Idx,
)
    ensures
        hits_on(a + b, lasers, target) == hits_on(a, lasers, target) + hits_on(b, lasers, target),
    decreases b.len(),
{
    if b.len() == 0 {
        assert(a + b =~= a);
    } else {
        assert((a + b).drop_last() =~= a + b.drop_last());
        assert((a + b).last() == b.last());
        lemma_hits_add_up(a, b.drop_last(), lasers, target);
    }
}

/// Collisions do not depend on the order in which they are found. One
/// contact between a planet and a projectile of the tables takes exactly one
/// health from the planet (none where none is left) and marks the
/// projectile; and contacts found in the order `a` then `b` leave every
/// planet, and mark every projectile, as they do in the order `b` then `a`.
pub proof fn lemma_collision_symmetry(
    slots: Seq<Slot<Planet>>,
    a: Seq<Contact>,
    b: Seq<Contact>,
    moves: Seq<Move<PhysicsObject>>,
    lasers: Map<Idx, RotatableObject>,
    c: Contact,
    planet: Planet,
)
    ensures
        planets_after(slots, a + b, moves, lasers) == planets_after(slots, b + a, moves, lasers),
        forall|targets: Set<Idx>, laser: Idx|
            struck_by(a + b, targets, laser) <==> struck_by(b + a, targets, laser),
        lasers.contains_key(c.laser) ==> planet_after(
            c.target,
            planet,
            seq![c],
            moves,
            lasers,
        ).health == crate::obj::spec_worn(planet.health),
        forall|targets: Set<Idx>| targets.contains(c.target) ==> struck_by(seq![c], targets, c.laser),
{
    assert forall|i: int| 0 <= i < slots.len() implies (#[trigger] planets_after(
        slots,
        a + b,
        moves,
        lasers,
    )[i]) == planets_after(slots, b + a, moves, lasers)[i] by {
        lemma_hits_add_up(a, b, lasers, slots[i].id);
        lemma_hits_add_up(b, a, lasers, slots[i].id);
    }
    assert(planets_after(slots, a + b, moves, lasers) =~= planets_after(slots, b + a, moves, lasers));
    assert forall|targets: Set<Idx>, laser: Idx|
        struck_by(a + b, targets, laser) <==> struck_by(b + a, targets, laser) by {
        lemma_struck_swap(a, b, targets, laser);
        lemma_struck_swap(b, a, targets, laser);
    }
    assert(seq![c].drop_last() =~= Seq::<Contact>::empty());
    assert(hits_on(seq![c].drop_last(), lasers, c.target) == 0);
    assert forall|targets: Set<Idx>| targets.contains(c.target) implies struck_by(
        seq![c],
        targets,
        c.laser,
    ) by {
        assert(seq![c][0].laser == c.laser);
    }
}

/// A projectile that the contacts `a` then `b` mark is marked by `b` then
/// `a`.
pub proof fn lemma_struck_swap(a: Seq<Contact>, b: Seq<Contact>, targets: Set<Idx>, laser: Idx)
    ensures
        struck_by(a + b, targets, laser) ==> struck_by(b + a, targets, laser),
{
    if struck_by(a + b, targets, laser) {
        let w = choose|w: int|
            0 <= w < (a + b).len() && (#[trigger] (a + b)[w]).laser == laser && targets.contains(
                (a + b)[w].target,
            );
        if w < a.len() {
            assert((b + a)[b.len() + w] == a[w]);
            assert((b + a)[b.len() + w].laser == laser);
        } else {
            assert((b + a)[w - a.len()] == b[w - a.len()]);
            assert((b + a)[w - a.len()].laser == laser);
        }
    }
}

/// Every slot that a filter keeps comes from the slots, so the order stays.
pub proof fn lemma_filter_keeps_order<T>(slots: Seq<Slot<T>>, keep: spec_fn(Slot<T>) -> bool)
    requires
        slots_sorted(slots),
    ensures
        slots_sorted(slots.filter(keep)),
        forall|k: int|
            0 <= k < slots.filter(keep).len() ==> slots.contains(#[trigger] slots.filter(keep)[k]),
    decreases slots.len(),
{
    reveal(Seq::filter);
    if slots.len() > 0 {
        let head = slots.drop_last();
        lemma_filter_keeps_order(head, keep);
        let kept = slots.filter(keep);
        let before = head.filter(keep);
        assert forall|k: int| 0 <= k < kept.len() implies slots.contains(#[trigger] kept[k]) by {
            if k < before.len() {
                assert(head.contains(before[k]));
                let j = choose|j: int| 0 <= j < head.len() && head[j] == before[k];
                assert(slots[j] == kept[k]);
            } else {
                assert(slots[slots.len() - 1] == kept[k]);
            }
        }
        assert forall|a: int, b: int| 0 <= a < b < kept.len() implies (#[trigger] kept[a]).id < (
        #[trigger] kept[b]).id by {
            if b == before.len() {
                assert(head.contains(before[a]));
                let j = choose|j: int| 0 <= j < head.len() && head[j] == before[a];
                assert(slots[j].id < slots[slots.len() - 1].id);
            } else {
                assert(before[a].id < before[b].id);
            }
        }
    }
}

/// One more contact adds its projectile to the marks where it names a
/// target, and nothing where it does not.
pub proof fn lemma_mark_step(
    before: Seq<Idx>,
    contacts: Seq<Contact>,
    targets: Set<Idx>,
    i: int,
    after: Seq<Idx>,
)
    requires
        0 <= i < contacts.len(),
        marks_cover(before, contacts.subrange(0, i), targets),
        after == (if targets.contains(contacts[i].target) {
            before.push(contacts[i].laser)
        } else {
            before
        }),
    ensures
        marks_cover(after, contacts.subrange(0, i + 1), targets),
{
    let head = contacts.subrange(0, i);
    let more = contacts.subrange(0, i + 1);
    let c = contacts[i];
    assert forall|id: Idx| after.contains(id) <==> struck_by(more, targets, id) by {
        lemma_push_contains(before, c.laser, id);
        if struck_by(head, targets, id) {
            let w = choose|w: int|
                0 <= w < head.len() && (#[trigger] head[w]).laser == id && targets.contains(
                    head[w].target,
                );
            assert(more[w].laser == id && targets.contains(more[w].target));
        }
        if struck_by(more, targets, id) {
            let w = choose|w: int|
                0 <= w < more.len() && (#[trigger] more[w]).laser == id && targets.contains(
                    more[w].target,
                );
            if w < i {
                assert(head[w].laser == id && targets.contains(head[w].target));
            }
        }
        if targets.contains(c.target) && c.laser == id {
            assert(more[i].laser == id && targets.contains(more[i].target));
        }
    }
}

/// Slots with the same identifiers at the same places are in order together
/// and stand for maps with the same keys.
pub proof fn lemma_same_ids_same_keys<T>(a: Seq<Slot<T>>, b: Seq<Slot<T>>)
    requires
        a.len() == b.len(),
        forall|i: int| 0 <= i < a.len() ==> (#[trigger] a[i]).id == b[i].id,
    ensures
        slots_sorted(a) ==> slots_sorted(b),
        forall|id: Idx| slots_map(a).contains_key(id) ==> slots_map(b).contains_key(id),
{
    if slots_sorted(a) {
        assert forall|i: int, j: int| 0 <= i < j < b.len() implies (#[trigger] b[i]).id < (
        #[trigger] b[j]).id by {
            assert(a[i].id < a[j].id);
        }
    }
    assert forall|id: Idx| slots_map(a).contains_key(id) implies slots_map(b).contains_key(id) by {
        let i = choose|i: int| 0 <= i < a.len() && #[trigger] a[i].id == id;
        assert(b[i].id == id);
    }
}

impl Server {
    /// The endpoint that steers the player `id`, if one does.
    pub fn find_pilot(&self, id: Idx) -> (pilot: Option<Address>)
        requires
            sessions_distinct(self.sessions@),
        ensures
            pilot == (if steered(self.sessions@, id) {
                Some(pilot_of(self.sessions@, id))
            } else {
                None
            }),
    {
        let mut i: usize = 0;
        while i < self.sessions.len()
            invariant
                i <= self.sessions@.len(),
                sessions_distinct(self.sessions@),
                forall|k: int| 0 <= k < i ==> (#[trigger] self.sessions@[k]).player_id != id,
            decreases self.sessions@.len() - i,
        {
            if self.sessions[i].player_id == id {
                proof {
                    let j = choose|j: int|
                        0 <= j < self.sessions@.len() && #[trigger] self.sessions@[j].player_id == id;
                    if j < i {
                        assert(self.sessions@[j].player_id != self.sessions@[i as int].player_id);
                    } else if i < j {
                        assert(self.sessions@[i as int].player_id != self.sessions@[j].player_id);
                    }
                }
                return Some(self.sessions[i].address);
            }
            i += 1;
        }
        None
    }

    /// The players' part of the step. Each contact of `contacts` that names
    /// the player of a session and a projectile of the tables costs the
    /// player one health, and the player's endpoint alone is told what is
    /// left. Every player is put where its move says.
    pub fn step_players(
        &mut self,
        contacts: &Vec<Contact>,
        moves: &Vec<Move<RotatableObject>>,
    ) -> (out: Vec<Outbound>)
        requires
            old(self).wf(),
        ensures
            final(self).wf(),
            all_fit(out@),
            final(self).planets == old(self).planets,
            final(self).lasers == old(self).lasers,
            final(self).sessions == old(self).sessions,
            final(self).aggregate_time == old(self).aggregate_time,
            final(self).players.slots@ == players_after(
                old(self).players.slots@,
                old(self).sessions@,
                contacts@,
                moves@,
                old(self).lasers@,
            ),
            notes(out@) == player_health_notes(
                old(self).players.slots@,
                old(self).sessions@,
                contacts@,
                old(self).lasers@,
            ),
    {
        let mut out: Vec<Outbound> = Vec::new();
        let mut next: Vec<Slot<Player>> = Vec::new();
        let ghost before = self.players.slots@;
        let ghost after = players_after(before, self.sessions@, contacts@, moves@, self.lasers@);
        let mut i: usize = 0;
        proof {
            assert(before.subrange(0, 0) =~= Seq::<Slot<Player>>::empty());
            assert(notes(out@) =~= Seq::<Note>::empty());
        }
        while i < self.players.slots.len()
            invariant
                *self == *old(self),
                self.wf(),
                before == self.players.slots@,
                after == players_after(before, self.sessions@, contacts@, moves@, self.lasers@),
                i <= before.len(),
                next@ == after.subrange(0, i as int),
                notes(out@) == player_health_notes(
                    before.subrange(0, i as int),
                    self.sessions@,
                    contacts@,
                    self.lasers@,
                ),
                all_fit(out@),
            decreases before.len() - i,
        {
            let s = self.players.slots[i];
            let mut health = s.item.health;
            proof {
                assert(before.subrange(0, i + 1).drop_last() =~= before.subrange(0, i as int));
                assert(before.subrange(0, i + 1).last() == s);
            }
            match self.find_pilot(s.id) {
                Some(to) => {
                    let (left, told) = strike_player(to, health, s.id, contacts, &self.lasers);
                    health = left;
                    post_all(&mut out, told);
                },
                None => {},
            }
            let obj = match find_move(moves, s.id) {
                Some(m) => m.state,
                None => s.item.obj,
            };
            next.push(Slot { id: s.id, item: Player { obj, health } });
            assert(next@ =~= after.subrange(0, i + 1));
            i += 1;
        }
        proof {
            assert(after.subrange(0, i as int) =~= after);
            assert(before.subrange(0, i as int) =~= before);
            lemma_same_ids_same_keys(before, after);
        }
        self.players.slots = next;
        out
    }

    /// The projectiles that touch a planet of the table, one entry for each
    /// contact.
    pub fn planet_marks(&self, contacts: &Vec<Contact>) -> (marks: Vec<Idx>)
        requires
            self.wf(),
        ensures
            marks@ == marks_of(contacts@, self.planets@.dom()),
            marks_cover(marks@, contacts@, self.planets@.dom()),
    {
        let mut marks: Vec<Idx> = Vec::new();
        let mut i: usize = 0;
        let ghost targets = self.planets@.dom();
        assert(contacts@.subrange(0, 0).len() == 0);
        while i < contacts.len()
            invariant
                i <= contacts@.len(),
                self.wf(),
                targets == self.planets@.dom(),
                marks@ == marks_of(contacts@.subrange(0, i as int), targets),
                marks_cover(marks@, contacts@.subrange(0, i as int), targets),
            decreases contacts@.len() - i,
        {
            let c = contacts[i];
            let ghost before = marks@;
            proof {
                assert(contacts@.subrange(0, i + 1).drop_last() =~= contacts@.subrange(0, i as int));
            }
            let hit = self.planets.contains_key(c.target);
            if hit {
                marks.push(c.laser);
            }
            proof {
                lemma_mark_step(before, contacts@, targets, i as int, marks@);
            }
            i += 1;
        }
        assert(contacts@.subrange(0, i as int) =~= contacts@);
        marks
    }

    /// The projectiles that touch the player of a session, one entry for each
    /// contact.
    pub fn player_marks(&self, contacts: &Vec<Contact>) -> (marks: Vec<Idx>)
        requires
            self.wf(),
        ensures
            marks@ == marks_of(contacts@, pilots(self.sessions@)),
            marks_cover(marks@, contacts@, pilots(self.sessions@)),
    {
        let mut marks: Vec<Idx> = Vec::new();
        let mut i: usize = 0;
        let ghost targets = pilots(self.sessions@);
        assert(contacts@.subrange(0, 0).len() == 0);
        while i < contacts.len()
            invariant
                i <= contacts@.len(),
                self.wf(),
                targets == pilots(self.sessions@),
                marks@ == marks_of(contacts@.subrange(0, i as int), targets),
                marks_cover(marks@, contacts@.subrange(0, i as int), targets),
            decreases contacts@.len() - i,
        {
            let c = contacts[i];
            let ghost before = marks@;
            proof {
                assert(contacts@.subrange(0, i + 1).drop_last() =~= contacts@.subrange(0, i as int));
            }
            let hit = self.find_pilot(c.target).is_some();
            if hit {
                marks.push(c.laser);
            }
            proof {
                lemma_mark_step(before, contacts@, targets, i as int, marks@);
            }
            i += 1;
        }
        assert(contacts@.subrange(0, i as int) =~= contacts@);
        marks
    }

    /// The projectiles' part of the step. The projectiles named in `marks`
    /// leave the table, and every session is told which; the others are put
    /// where their moves say, and where a move wrapped one every session is
    /// told.
    pub fn step_lasers(&mut self, marks: &Vec<Idx>, moves: &Vec<Move<RotatableObject>>) -> (out:
        Vec<Outbound>)
        requires
            old(self).wf(),
        ensures
            final(self).wf(),
            all_fit(out@),
            final(self).planets == old(self).planets,
            final(self).players == old(self).players,
            final(self).sessions == old(self).sessions,
            final(self).aggregate_time == old(self).aggregate_time,
            ({
                let to = addresses_of(old(self).sessions@);
                let spared = old(self).lasers.slots@.filter(unmarked(marks@));
                &&& final(self).lasers.slots@ == lasers_after(spared, moves@)
                &&& notes(out@) == delete_lasers_notes(
                    to,
                    ids_of(old(self).lasers.slots@.filter(marked(marks@))),
                ) + laser_wrap_notes(to, spared, moves@)
            }),
    {
        let mut out: Vec<Outbound> = Vec::new();
        let everyone = self.addresses();
        let ghost to = everyone@;
        let ghost before = self.lasers.slots@;
        let mut kept: Vec<Slot<RotatableObject>> = Vec::new();
        let mut dead: Vec<Idx> = Vec::new();
        let mut i: usize = 0;
        proof {
            reveal(Seq::filter);
            assert(before.subrange(0, 0) =~= Seq::<Slot<RotatableObject>>::empty());
        }
        while i < self.lasers.slots.len()
            invariant
                *self == *old(self),
                before == self.lasers.slots@,
                i <= before.len(),
                kept@ == before.subrange(0, i as int).filter(unmarked(marks@)),
                dead@ == ids_of(before.subrange(0, i as int).filter(marked(marks@))),
            decreases before.len() - i,
        {
            let s = self.lasers.slots[i];
            proof {
                reveal(Seq::filter);
                assert(before.subrange(0, i + 1).drop_last() =~= before.subrange(0, i as int));
                assert(before.subrange(0, i + 1).last() == s);
            }
            if list_has(marks, s.id) {
                dead.push(s.id);
                assert(dead@ =~= ids_of(before.subrange(0, i + 1).filter(marked(marks@))));
            } else {
                kept.push(s);
            }
            i += 1;
        }
        assert(before.subrange(0, i as int) =~= before);
        let ghost spared = kept@;
        let gone = tell_deleted(&everyone, &dead, false);
        post_all(&mut out, gone);
        let ghost told = notes(out@);
        assert(told =~= delete_lasers_notes(to, ids_of(before.filter(marked(marks@)))));
        let mut next: Vec<Slot<RotatableObject>> = Vec::new();
        let mut k: usize = 0;
        proof {
            assert(spared.subrange(0, 0) =~= Seq::<Slot<RotatableObject>>::empty());
            assert(told + laser_wrap_notes(to, spared.subrange(0, 0), moves@) =~= told);
        }
        while k < kept.len()
            invariant
                *self == *old(self),
                spared == kept@,
                to == everyone@,
                k <= spared.len(),
                next@ == lasers_after(spared, moves@).subrange(0, k as int),
                notes(out@) == told + laser_wrap_notes(to, spared.subrange(0, k as int), moves@),
                all_fit(out@),
            decreases spared.len() - k,
        {
            let s = kept[k];
            proof {
                assert(spared.subrange(0, k + 1).drop_last() =~= spared.subrange(0, k as int));
                assert(spared.subrange(0, k + 1).last() == s);
            }
            let mut item = s.item;
            match find_move(moves, s.id) {
                Some(m) => {
                    item = m.state;
                    if m.wrapped {
                        post(&mut out, to_all(&everyone, ServerPacket::UpdateLaser(s.id, item)));
                        assert(notes(out@) =~= told + laser_wrap_notes(
                            to,
                            spared.subrange(0, k + 1),
                            moves@,
                        ));
                    }
                },
                None => {},
            }
            next.push(Slot { id: s.id, item });
            assert(next@ =~= lasers_after(spared, moves@).subrange(0, k + 1));
            k += 1;
        }
        proof {
            assert(spared.subrange(0, k as int) =~= spared);
            assert(next@ =~= lasers_after(spared, moves@));
            lemma_filter_keeps_order(before, unmarked(marks@));
            lemma_same_ids_same_keys(spared, next@);
        }
        self.lasers.slots = next;
        out
    }

    /// Ends the session of one dead player: the first session, in the order
    /// of the sessions, whose player has no health left. The session and the
    /// player leave, the endpoint is sent an acknowledgement, the sessions
    /// that remain are told of the deletion, and the player identifiers above
    /// the one that left move down by one. Nothing happens where no session
    /// has a dead player.
    pub fn bury_one(&mut self) -> (out: Vec<Outbound>)
        requires
            old(self).wf(),
        ensures
            final(self).wf(),
            all_fit(out@),
            final(self).planets == old(self).planets,
            final(self).lasers == old(self).lasers,
            final(self).aggregate_time == old(self).aggregate_time,
            final(self).sessions@ == buried_sessions(old(self).sessions@, old(self).players@),
            final(self).players.slots@ == buried_players(
                old(self).players.slots@,
                old(self).sessions@,
            ),
            notes(out@) == burial_notes(old(self).sessions@, old(self).players@),
    {
        let mut i: usize = 0;
        while i < self.sessions.len()
            invariant
                *self == *old(self),
                self.wf(),
                i <= self.sessions@.len(),
                forall|j: int|
                    0 <= j < i ==> self.players@[(#[trigger] self.sessions@[j]).player_id].health
                        != 0,
            decreases self.sessions@.len() - i,
        {
            let s = self.sessions[i];
            let dead = match self.players.get(s.player_id) {
                Some(p) => p.health == 0,
                None => false,
            };
            if dead {
                proof {
                    assert(is_first_dead(self.sessions@, self.players@, i as int));
                    lemma_first_dead_unique(self.sessions@, self.players@, i as int);
                    lemma_session_unique(self.sessions@, i as int);
                }
                let out = self.remove_player(s.address);
                let ghost left = self.sessions@;
                proof {
                    assert forall|k: int| 0 <= k < left.len() implies (#[trigger] left[k]).player_id
                        != s.player_id by {
                        assert(self.players@.contains_key(left[k].player_id));
                    }
                }
                self.players.close_gap(s.player_id);
                let ghost mid = self.players.slots@;
                let mut k: usize = 0;
                while k < self.sessions.len()
                    invariant
                        k <= left.len(),
                        self.sessions@.len() == left.len(),
                        self.planets == old(self).planets,
                        self.lasers == old(self).lasers,
                        self.aggregate_time == old(self).aggregate_time,
                        self.players.slots@ == mid,
                        forall|j: int|
                            0 <= j < k ==> #[trigger] self.sessions@[j] == (Session {
                                address: left[j].address,
                                player_id: lowered(left[j].player_id, s.player_id),
                            }),
                        forall|j: int| k <= j < left.len() ==> #[trigger] self.sessions@[j] == left[j],
                    decreases left.len() - k,
                {
                    let t = self.sessions[k];
                    if t.player_id > s.player_id {
                        self.sessions.set(
                            k,
                            Session { address: t.address, player_id: t.player_id - 1 },
                        );
                    }
                    k += 1;
                }
                proof {
                    let after = self.sessions@;
                    assert(after =~= sessions_closed(left, s.player_id));
                    assert forall|a: int, b: int| 0 <= a < b < after.len() implies (
                    #[trigger] after[a]).address != (#[trigger] after[b]).address
                        && after[a].player_id != after[b].player_id by {
                        assert(left[a].address != left[b].address);
                        assert(left[a].player_id != left[b].player_id);
                        assert(left[a].player_id != s.player_id);
                        assert(left[b].player_id != s.player_id);
                    }
                    let slots = old(self).players.slots@.remove(
                        slot_of(old(self).players.slots@, s.player_id),
                    );
                    assert forall|a: int| 0 <= a < after.len() implies self.players@.contains_key(
                        (#[trigger] after[a]).player_id,
                    ) by {
                        assert(slots_map(slots).contains_key(left[a].player_id));
                        let w = choose|w: int|
                            0 <= w < slots.len() && #[trigger] slots[w].id == left[a].player_id;
                        assert(mid[w].id == after[a].player_id);
                    }
                    assert(addresses_of(after) =~= addresses_of(left));
                }
                return out;
            }
            i += 1;
        }
        proof {
            assert(!exists|j: int| is_first_dead(self.sessions@, self.players@, j));
        }
        let out: Vec<Outbound> = Vec::new();
        assert(notes(out@) =~= Seq::<Note>::empty());
        out
    }

    /// One step of the simulation, in this order: the planets lose health to
    /// the projectiles that touch them, move, and the dead leave; the players
    /// lose health and move; the projectiles that touched a planet or a
    /// player leave and the others move; one dead player's session ends.
    /// Contacts are judged against the tables as they are when the step
    /// starts, and every message but those of the ended session goes to the
    /// sessions of that moment.
    pub fn update(&mut self, frame: &Frame) -> (out: Vec<Outbound>)
        requires
            old(self).wf(),
        ensures
            final(self).wf(),
            all_fit(out@),
            final(self).aggregate_time == old(self).aggregate_time,
            forall|i: int|
                0 <= i < final(self).planets.slots@.len() ==> (
                #[trigger] final(self).planets.slots@[i]).item.health != 0,
            ({
                let lasers = old(self).lasers@;
                let sessions = old(self).sessions@;
                let to = addresses_of(sessions);
                let planets = planets_after(
                    old(self).planets.slots@,
                    frame.planet_contacts@,
                    frame.planet_moves@,
                    lasers,
                );
                let players = players_after(
                    old(self).players.slots@,
                    sessions,
                    frame.player_contacts@,
                    frame.player_moves@,
                    lasers,
                );
                let struck = laser_struck(
                    frame.planet_contacts@,
                    old(self).planets@.dom(),
                    frame.player_contacts@,
                    pilots(sessions),
                );
                let spared = laser_spared(
                    frame.planet_contacts@,
                    old(self).planets@.dom(),
                    frame.player_contacts@,
                    pilots(sessions),
                );
                &&& final(self).planets.slots@ == planets.filter(planet_alive())
                &&& final(self).players.slots@ == buried_players(players, sessions)
                &&& final(self).sessions@ == buried_sessions(sessions, slots_map(players))
                &&& final(self).lasers.slots@ == lasers_after(
                    old(self).lasers.slots@.filter(spared),
                    frame.laser_moves@,
                )
                &&& notes(out@) == planet_wrap_notes(
                    to,
                    old(self).planets.slots@,
                    frame.planet_contacts@,
                    frame.planet_moves@,
                    lasers,
                ) + delete_planets_notes(to, ids_of(planets.filter(planet_dead())))
                    + player_health_notes(
                    old(self).players.slots@,
                    sessions,
                    frame.player_contacts@,
                    lasers,
                ) + delete_lasers_notes(to, ids_of(old(self).lasers.slots@.filter(struck)))
                    + laser_wrap_notes(
                    to,
                    old(self).lasers.slots@.filter(spared),
                    frame.laser_moves@,
                ) + burial_notes(sessions, slots_map(players))
            }),
    {
        let mut marks = self.planet_marks(&frame.planet_contacts);
        let mut more = self.player_marks(&frame.player_contacts);
        let ghost first = marks@;
        let ghost second = more@;
        marks.append(&mut more);
        proof {
            let all = old(self).lasers.slots@;
            let struck = laser_struck(
                frame.planet_contacts@,
                old(self).planets@.dom(),
                frame.player_contacts@,
                pilots(old(self).sessions@),
            );
            let spared = laser_spared(
                frame.planet_contacts@,
                old(self).planets@.dom(),
                frame.player_contacts@,
                pilots(old(self).sessions@),
            );
            assert forall|i: int| 0 <= i < all.len() implies marked(marks@)(#[trigger] all[i])
                == struck(all[i]) && unmarked(marks@)(all[i]) == spared(all[i]) by {
                lemma_add_contains(first, second, all[i].id);
            }
            lemma_filter_agree(all, marked(marks@), struck);
            lemma_filter_agree(all, unmarked(marks@), spared);
        }
        let mut out = self.step_planets(&frame.planet_contacts, &frame.planet_moves);
        let told = self.step_players(&frame.player_contacts, &frame.player_moves);
        post_all(&mut out, told);
        let told = self.step_lasers(&marks, &frame.laser_moves);
        post_all(&mut out, told);
        let told = self.bury_one();
        post_all(&mut out, told);
        out
    }

    /// The planets' part of the step. Each contact of `contacts` that names a
    /// planet and a projectile of the tables costs the planet one health.
    /// A planet with health left is put where its move says, and where the
    /// move wrapped it every session is told; the planets without health
    /// leave the table, and every session is told which.
    pub fn step_planets(
        &mut self,
        contacts: &Vec<Contact>,
        moves: &Vec<Move<PhysicsObject>>,
    ) -> (out: Vec<Outbound>)
        requires
            old(self).wf(),
        ensures
            final(self).wf(),
            all_fit(out@),
            final(self).players == old(self).players,
            final(self).lasers == old(self).lasers,
            final(self).sessions == old(self).sessions,
            final(self).aggregate_time == old(self).aggregate_time,
            forall|i: int|
                0 <= i < final(self).planets.slots@.len() ==> (
                #[trigger] final(self).planets.slots@[i]).item.health != 0,
            ({
                let after = planets_after(
                    old(self).planets.slots@,
                    contacts@,
                    moves@,
                    old(self).lasers@,
                );
                let to = addresses_of(old(self).sessions@);
                &&& final(self).planets.slots@ == after.filter(planet_alive())
                &&& notes(out@) == planet_wrap_notes(
                    to,
                    old(self).planets.slots@,
                    contacts@,
                    moves@,
                    old(self).lasers@,
                ) + delete_planets_notes(to, ids_of(after.filter(planet_dead())))
            }),
    {
        let mut out: Vec<Outbound> = Vec::new();
        let everyone = self.addresses();
        let mut kept: Vec<Slot<Planet>> = Vec::new();
        let mut dead: Vec<Idx> = Vec::new();
        let ghost before = self.planets.slots@;
        let ghost after = planets_after(before, contacts@, moves@, self.lasers@);
        let ghost to = everyone@;
        let mut i: usize = 0;
        proof {
            reveal(Seq::filter);
            assert(after.subrange(0, 0) =~= Seq::<Slot<Planet>>::empty());
            assert(before.subrange(0, 0) =~= Seq::<Slot<Planet>>::empty());
        }
        while i < self.planets.slots.len()
            invariant
                *self == *old(self),
                self.wf(),
                before == self.planets.slots@,
                after == planets_after(before, contacts@, moves@, self.lasers@),
                to == everyone@,
                i <= before.len(),
                kept@ == after.subrange(0, i as int).filter(planet_alive()),
                dead@ == ids_of(after.subrange(0, i as int).filter(planet_dead())),
                notes(out@) == planet_wrap_notes(
                    to,
                    before.subrange(0, i as int),
                    contacts@,
                    moves@,
                    self.lasers@,
                ),
                all_fit(out@),
            decreases before.len() - i,
        {
            let s = self.planets.slots[i];
            let hits = count_hits(contacts, &self.lasers, s.id);
            let health = wear(s.item.health, hits);
            proof {
                reveal(Seq::filter);
                assert(after.subrange(0, i + 1).drop_last() =~= after.subrange(0, i as int));
                assert(before.subrange(0, i + 1).drop_last() =~= before.subrange(0, i as int));
                assert(after.subrange(0, i + 1).last() == after[i as int]);
                assert(before.subrange(0, i + 1).last() == s);
            }
            if health == 0 {
                dead.push(s.id);
                assert(dead@ =~= ids_of(after.subrange(0, i + 1).filter(planet_dead())));
            } else {
                let mut obj = s.item.obj;
                match find_move(moves, s.id) {
                    Some(m) => {
                        obj = m.state;
                        if m.wrapped {
                            post(&mut out, to_all(&everyone, ServerPacket::UpdatePlanet(s.id, obj)));
                        }
                    },
                    None => {},
                }
                kept.push(Slot { id: s.id, item: Planet { obj, health } });
            }
            i += 1;
        }
        proof {
            assert(after.subrange(0, i as int) =~= after);
            assert(before.subrange(0, i as int) =~= before);
            assert(slots_sorted(after)) by {
                assert forall|a: int, b: int| 0 <= a < b < after.len() implies (#[trigger] after[a]).id
                    < (#[trigger] after[b]).id by {
                    assert(before[a].id < before[b].id);
                }
            }
            lemma_filter_keeps_order(after, planet_alive());
            assert forall|i: int| 0 <= i < kept@.len() implies (#[trigger] kept@[i]).item.health
                != 0 by {
                after.lemma_filter_pred(planet_alive(), i);
            }
        }
        self.planets.slots = kept;
        let gone = tell_deleted(&everyone, &dead, true);
        post_all(&mut out, gone);
        assert(notes(out@) =~= planet_wrap_notes(to, before, contacts@, moves@, self.lasers@)
            + delete_planets_notes(to, ids_of(after.filter(planet_dead()))));
        out
    }
}

} // verus!
