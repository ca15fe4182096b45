//! The messages that clients and the server exchange, and to whom a server
//! message goes.

use vstd::prelude::*;
use crate::obj::{PhysicsObject, RotatableObject, Scalar};
use crate::table::{Idx, Slot};
use crate::wire::{lemma_server_wire_len, server_wire, server_wire_len, BUFFER_SIZE};

verus! {

/// A network endpoint: an IPv6 address (an IPv4 address in its mapped form)
/// and a port.
#[derive(Clone, Copy, Debug, PartialEq, Eq, Structural)]
pub struct Address {
    pub host: u128,
    pub port: u16,
}

/// What a client sends.
#[derive(Clone, Copy, Debug, PartialEq, Eq, Structural)]
pub enum ClientPacket {
    Connect,
    PlayerImpulse(Scalar),
    PlayerRotate(Scalar),
    Shoot,
    Disconnect,
    /// The client could not decode what the server sent last.
    Error,
}

/// What the server sends.
#[derive(Clone, Debug, PartialEq, Eq)]
pub enum ServerPacket {
    /// The full state on connect, each list in increasing order of identifier.
    PlayersAndPlanets { players: Vec<Slot<RotatableObject>>, planets: Vec<Slot<PhysicsObject>> },
    /// One batch of the projectiles that are in flight.
    Lasers(Vec<Slot<RotatableObject>>),
    UpdatePlayer(Idx, RotatableObject),
    UpdateLaser(Idx, RotatableObject),
    UpdatePlanet(Idx, PhysicsObject),
    DeletePlayer(Idx),
    DeleteLasers(Vec<Idx>),
    DeletePlanets(Vec<Idx>),
    UpdateHealth(u8),
    DisconnectAck,
}

/// A server message as a mathematical value.
pub enum ServerMsg {
    PlayersAndPlanets { players: Seq<Slot<RotatableObject>>, planets: Seq<Slot<PhysicsObject>> },
    Lasers(Seq<Slot<RotatableObject>>),
    UpdatePlayer(Idx, RotatableObject),
    UpdateLaser(Idx, RotatableObject),
    UpdatePlanet(Idx, PhysicsObject),
    DeletePlayer(Idx),
    DeleteLasers(Seq<Idx>),
    DeletePlanets(Seq<Idx>),
    UpdateHealth(u8),
    DisconnectAck,
}

impl View for ServerPacket {
    type V = ServerMsg;

    open spec fn view(&self) -> ServerMsg {
        match *self {
            ServerPacket::PlayersAndPlanets { players, planets } => ServerMsg::PlayersAndPlanets {
                players: players@,
                planets: planets@,
            },
            ServerPacket::Lasers(lasers) => ServerMsg::Lasers(lasers@),
            ServerPacket::UpdatePlayer(id, state) => ServerMsg::UpdatePlayer(id, state),
            ServerPacket::UpdateLaser(id, state) => ServerMsg::UpdateLaser(id, state),
            ServerPacket::UpdatePlanet(id, state) => ServerMsg::UpdatePlanet(id, state),
            ServerPacket::DeletePlayer(id) => ServerMsg::DeletePlayer(id),
            ServerPacket::DeleteLasers(ids) => ServerMsg::DeleteLasers(ids@),
            ServerPacket::DeletePlanets(ids) => ServerMsg::DeletePlanets(ids@),
            ServerPacket::UpdateHealth(health) => ServerMsg::UpdateHealth(health),
            ServerPacket::DisconnectAck => ServerMsg::DisconnectAck,
        }
    }
}

/// A server message together with the endpoints it is sent to, in order.
#[derive(Clone, Debug, PartialEq, Eq)]
pub struct Outbound {
    pub to: Vec<Address>,
    pub packet: ServerPacket,
}

/// An outbound message as a mathematical value.
pub struct Note {
    pub to: Seq<Address>,
    pub msg: ServerMsg,
}

impl View for Outbound {
    type V = Note;

    open spec fn view(&self) -> Note {
        Note { to: self.to@, msg: self.packet@ }
    }
}

/// The messages of `out` as mathematical values.
pub open spec fn notes(out: Seq<Outbound>) -> Seq<Note> {
    out.map_values(|o: Outbound| o@)
}

/// Whether a message fits a datagram.
pub open spec fn fits(o: Outbound) -> bool {
    server_wire(o.packet@).len() <= BUFFER_SIZE
}

/// Whether every message of `out` fits a datagram.
pub open spec fn all_fit(out: Seq<Outbound>) -> bool {
    forall|i: int| 0 <= i < out.len() ==> fits(#[trigger] out[i])
}

/// A message for one endpoint.
pub open spec fn note_to_one(to: Address, msg: ServerMsg) -> Note {
    Note { to: seq![to], msg }
}

/// A message for one endpoint.
pub fn to_one(to: Address, packet: ServerPacket) -> (o: Outbound)
    ensures
        o@ == note_to_one(to, packet@),
        server_wire_len(packet@) <= BUFFER_SIZE ==> fits(o),
{
    proof {
        lemma_server_wire_len(packet@);
    }
    let mut list: Vec<Address> = Vec::new();
    list.push(to);
    assert(list@ =~= seq![to]);
    Outbound { to: list, packet }
}

/// A message for every endpoint of `to`.
pub fn to_all(to: &Vec<Address>, packet: ServerPacket) -> (o: Outbound)
    ensures
        o@ == (Note { to: to@, msg: packet@ }),
        server_wire_len(packet@) <= BUFFER_SIZE ==> fits(o),
{
    proof {
        lemma_server_wire_len(packet@);
    }
    let mut list: Vec<Address> = Vec::new();
    let mut i: usize = 0;
    while i < to.len()
        invariant
            i <= to@.len(),
            list@ == to@.subrange(0, i as int),
        decreases to@.len() - i,
    {
        list.push(to[i]);
        assert(list@ =~= to@.subrange(0, i + 1));
        i += 1;
    }
    assert(list@ =~= to@);
    Outbound { to: list, packet }
}

/// Appends `o` to `out`.
pub fn post(out: &mut Vec<Outbound>, o: Outbound)
    ensures
        notes(final(out)@) == notes(old(out)@).push(o@),
        final(out)@ == old(out)@.push(o),
        all_fit(old(out)@) && fits(o) ==> all_fit(final(out)@),
{
    out.push(o);
    assert(notes(out@) =~= notes(old(out)@).push(o@));
}

/// Appends all of `more` to `out`.
pub fn post_all(out: &mut Vec<Outbound>, more: Vec<Outbound>)
    ensures
        notes(final(out)@) == notes(old(out)@) + notes(more@),
        final(out)@ == old(out)@ + more@,
        all_fit(old(out)@) && all_fit(more@) ==> all_fit(final(out)@),
{
    let mut more = more;
    let ghost added = more@;
    out.append(&mut more);
    assert(notes(out@) =~= notes(old(out)@) + notes(added));
}

} // verus!
