//! The wire format. One message is one datagram: a little-endian 32-bit
//! number that tells the variant, then the variant's fields in order. A list
//! is a little-endian 64-bit count and then its entries; an identifier is 16
//! bits, a scalar 32 bits, a health value one byte.

use vstd::prelude::*;
use vstd::bytes::{
    lemma_auto_spec_u16_to_from_le_bytes, lemma_auto_spec_u32_to_from_le_bytes,
    lemma_auto_spec_u64_to_from_le_bytes, spec_u16_from_le_bytes, spec_u16_to_le_bytes,
    spec_u32_from_le_bytes, spec_u32_to_le_bytes, spec_u64_from_le_bytes, spec_u64_to_le_bytes,
    u16_from_le_bytes, u16_to_le_bytes, u32_from_le_bytes, u32_to_le_bytes, u64_from_le_bytes,
    u64_to_le_bytes,
};
use vstd::slice::slice_subrange;
use crate::net::{ClientPacket, ServerMsg, ServerPacket};
use crate::obj::{PhysicsObject, RotatableObject, Vect};
use crate::table::{Idx, Slot};

verus! {

/// The largest datagram that the server sends.
pub const BUFFER_SIZE: usize = 1024;

/// The largest datagram that a client sends.
pub const BUFFER_SIZE_SRV: usize = 20;

/// The bytes that a moving body takes on the wire.
pub const BODY_BYTES: usize = 24;

/// The bytes that a rotatable body takes on the wire.
pub const ROTATABLE_BYTES: usize = 28;

/// Why bytes could not be turned into a message, or a message into bytes.
#[derive(Clone, Copy, Debug, PartialEq, Eq, Structural)]
pub enum Cause {
    /// The message takes more bytes than a datagram holds.
    SizeLimit,
    /// The bytes end before the message does.
    UnexpectedEnd,
    /// The bytes start with a number that names no variant.
    UnknownVariant(u32),
}

/// The kinds of error that the codec reports.
#[derive(Clone, Copy, Debug, PartialEq, Eq, Structural)]
pub enum ErrorKind {
    InvalidData,
    UnexpectedEof,
}

/// A codec error.
#[derive(Clone, Copy, Debug, PartialEq, Eq, Structural)]
pub struct Error {
    pub kind: ErrorKind,
    pub cause: Cause,
}

/// The error that says that data is not valid, because of `e`.
pub open spec fn spec_invalid_data_error(e: Cause) -> Error {
    Error { kind: ErrorKind::InvalidData, cause: e }
}

/// The error that says that data is not valid, because of `e`.
#[verifier::when_used_as_spec(spec_invalid_data_error)]
pub fn invalid_data_error(e: Cause) -> (err: Error)
    ensures
        err == spec_invalid_data_error(e),
{
    Error { kind: ErrorKind::InvalidData, cause: e }
}

/// The number that tells a client message's variant.
pub open spec fn client_tag(p: ClientPacket) -> u32 {
    match p {
        ClientPacket::Connect => 0,
        ClientPacket::PlayerImpulse(_) => 1,
        ClientPacket::PlayerRotate(_) => 2,
        ClientPacket::Shoot => 3,
        ClientPacket::Disconnect => 4,
        ClientPacket::Error => 5,
    }
}

/// A client message on the wire.
pub open spec fn client_wire(p: ClientPacket) -> Seq<u8> {
    match p {
        ClientPacket::PlayerImpulse(x) => spec_u32_to_le_bytes(1) + spec_u32_to_le_bytes(x),
        ClientPacket::PlayerRotate(x) => spec_u32_to_le_bytes(2) + spec_u32_to_le_bytes(x),
        _ => spec_u32_to_le_bytes(client_tag(p)),
    }
}

/// What the bytes of a datagram say, read as a client message. Bytes that
/// follow the message are not looked at.
pub open spec fn spec_decode_client(bytes: Seq<u8>) -> Result<ClientPacket, Error> {
    if bytes.len() < 4 {
        Err(spec_invalid_data_error(Cause::UnexpectedEnd))
    } else {
        let tag = spec_u32_from_le_bytes(bytes.subrange(0, 4));
        if tag == 0 {
            Ok(ClientPacket::Connect)
        } else if tag == 1 || tag == 2 {
            if bytes.len() < 8 {
                Err(spec_invalid_data_error(Cause::UnexpectedEnd))
            } else if tag == 1 {
                Ok(ClientPacket::PlayerImpulse(spec_u32_from_le_bytes(bytes.subrange(4, 8))))
            } else {
                Ok(ClientPacket::PlayerRotate(spec_u32_from_le_bytes(bytes.subrange(4, 8))))
            }
        } else if tag == 3 {
            Ok(ClientPacket::Shoot)
        } else if tag == 4 {
            Ok(ClientPacket::Disconnect)
        } else if tag == 5 {
            Ok(ClientPacket::Error)
        } else {
            Err(spec_invalid_data_error(Cause::UnknownVariant(tag)))
        }
    }
}

/// Decoding undoes encoding: the bytes of a client message, with whatever
/// follows them, decode to that message; and they fit a client's datagram.
pub proof fn lemma_client_round_trip(p: ClientPacket, rest: Seq<u8>)
    ensures
        spec_decode_client(client_wire(p) + rest) == Ok::<ClientPacket, Error>(p),
        client_wire(p).len() <= 8,
        client_wire(p).len() <= BUFFER_SIZE_SRV,
{
    lemma_auto_spec_u32_to_from_le_bytes();
    let bytes = client_wire(p) + rest;
    assert(bytes.subrange(0, 4) =~= spec_u32_to_le_bytes(client_tag(p)));
    match p {
        ClientPacket::PlayerImpulse(x) => {
            assert(bytes.subrange(4, 8) =~= spec_u32_to_le_bytes(x));
        },
        ClientPacket::PlayerRotate(x) => {
            assert(bytes.subrange(4, 8) =~= spec_u32_to_le_bytes(x));
        },
        _ => {},
    }
}

/// What decodes to a message starts with the bytes of that message.
pub proof fn lemma_client_decoded_is_encoded(bytes: Seq<u8>, p: ClientPacket)
    requires
        spec_decode_client(bytes) == Ok::<ClientPacket, Error>(p),
    ensures
        client_wire(p).len() <= bytes.len(),
        bytes.subrange(0, client_wire(p).len() as int) == client_wire(p),
{
    lemma_auto_spec_u32_to_from_le_bytes();
    let tag = spec_u32_from_le_bytes(bytes.subrange(0, 4));
    assert(spec_u32_to_le_bytes(tag) == bytes.subrange(0, 4));
    match p {
        ClientPacket::PlayerImpulse(x) => {
            assert(spec_u32_to_le_bytes(x) == bytes.subrange(4, 8));
            assert(bytes.subrange(0, 8) =~= bytes.subrange(0, 4) + bytes.subrange(4, 8));
        },
        ClientPacket::PlayerRotate(x) => {
            assert(spec_u32_to_le_bytes(x) == bytes.subrange(4, 8));
            assert(bytes.subrange(0, 8) =~= bytes.subrange(0, 4) + bytes.subrange(4, 8));
        },
        _ => {},
    }
}

/// Appends a 16-bit number, low byte first.
pub fn put_u16(out: &mut Vec<u8>, v: u16)
    ensures
        final(out)@ == old(out)@ + spec_u16_to_le_bytes(v),
{
    let mut b = u16_to_le_bytes(v);
    out.append(&mut b);
}

/// Appends a 32-bit number, low byte first.
pub fn put_u32(out: &mut Vec<u8>, v: u32)
    ensures
        final(out)@ == old(out)@ + spec_u32_to_le_bytes(v),
{
    let mut b = u32_to_le_bytes(v);
    out.append(&mut b);
}

/// Appends a 64-bit number, low byte first.
pub fn put_u64(out: &mut Vec<u8>, v: u64)
    ensures
        final(out)@ == old(out)@ + spec_u64_to_le_bytes(v),
{
    let mut b = u64_to_le_bytes(v);
    out.append(&mut b);
}

/// The bytes of a client message.
pub fn encode_client_message(p: ClientPacket) -> (bytes: Vec<u8>)
    ensures
        bytes@ == client_wire(p),
        bytes@.len() <= BUFFER_SIZE_SRV,
{
    let mut out: Vec<u8> = Vec::new();
    proof {
        lemma_client_round_trip(p, Seq::empty());
    }
    match p {
        ClientPacket::Connect => {
            put_u32(&mut out, 0);
        },
        ClientPacket::PlayerImpulse(x) => {
            put_u32(&mut out, 1);
            put_u32(&mut out, x);
        },
        ClientPacket::PlayerRotate(x) => {
            put_u32(&mut out, 2);
            put_u32(&mut out, x);
        },
        ClientPacket::Shoot => {
            put_u32(&mut out, 3);
        },
        ClientPacket::Disconnect => {
            put_u32(&mut out, 4);
        },
        ClientPacket::Error => {
            put_u32(&mut out, 5);
        },
    }
    assert(out@ =~= client_wire(p));
    out
}

/// Reads a datagram as a client message. It fails where the bytes end before
/// the message does and where they name no variant.
pub fn decode_client_message(bytes: &[u8]) -> (r: Result<ClientPacket, Error>)
    ensures
        r == spec_decode_client(bytes@),
{
    if bytes.len() < 4 {
        return Err(invalid_data_error(Cause::UnexpectedEnd));
    }
    let tag = u32_from_le_bytes(slice_subrange(bytes, 0, 4));
    if tag == 0 {
        Ok(ClientPacket::Connect)
    } else if tag == 1 || tag == 2 {
        if bytes.len() < 8 {
            return Err(invalid_data_error(Cause::UnexpectedEnd));
        }
        let x = u32_from_le_bytes(slice_subrange(bytes, 4, 8));
        if tag == 1 {
            Ok(ClientPacket::PlayerImpulse(x))
        } else {
            Ok(ClientPacket::PlayerRotate(x))
        }
    } else if tag == 3 {
        Ok(ClientPacket::Shoot)
    } else if tag == 4 {
        Ok(ClientPacket::Disconnect)
    } else if tag == 5 {
        Ok(ClientPacket::Error)
    } else {
        Err(invalid_data_error(Cause::UnknownVariant(tag)))
    }
}

/// A vector on the wire.
pub open spec fn vect_wire(v: Vect) -> Seq<u8> {
    spec_u32_to_le_bytes(v.x) + spec_u32_to_le_bytes(v.y)
}

/// A moving body on the wire.
pub open spec fn body_wire(o: PhysicsObject) -> Seq<u8> {
    vect_wire(o.position) + vect_wire(o.velocity) + vect_wire(o.acceleration)
}

/// A rotatable body on the wire.
pub open spec fn rotatable_wire(o: RotatableObject) -> Seq<u8> {
    body_wire(o.physics_obj) + spec_u32_to_le_bytes(o.rotation)
}

/// The entries of a list of moving bodies on the wire.
pub open spec fn body_slots_wire(list: Seq<Slot<PhysicsObject>>) -> Seq<u8>
    decreases list.len(),
{
    if list.len() == 0 {
        Seq::empty()
    } else {
        body_slots_wire(list.drop_last()) + spec_u16_to_le_bytes(list.last().id) + body_wire(
            list.last().item,
        )
    }
}

/// The entries of a list of rotatable bodies on the wire.
pub open spec fn rotatable_slots_wire(list: Seq<Slot<RotatableObject>>) -> Seq<u8>
    decreases list.len(),
{
    if list.len() == 0 {
        Seq::empty()
    } else {
        rotatable_slots_wire(list.drop_last()) + spec_u16_to_le_bytes(list.last().id)
            + rotatable_wire(list.last().item)
    }
}

/// The entries of a list of identifiers on the wire.
pub open spec fn ids_wire(list: Seq<Idx>) -> Seq<u8>
    decreases list.len(),
{
    if list.len() == 0 {
        Seq::empty()
    } else {
        ids_wire(list.drop_last()) + spec_u16_to_le_bytes(list.last())
    }
}

/// A count on the wire.
pub open spec fn count_wire(n: nat) -> Seq<u8> {
    spec_u64_to_le_bytes(n as u64)
}

/// A server message on the wire.
pub open spec fn server_wire(m: ServerMsg) -> Seq<u8> {
    match m {
        ServerMsg::PlayersAndPlanets { players, planets } => spec_u32_to_le_bytes(0) + count_wire(
            players.len(),
        ) + rotatable_slots_wire(players) + count_wire(planets.len()) + body_slots_wire(planets),
        ServerMsg::Lasers(lasers) => spec_u32_to_le_bytes(1) + count_wire(lasers.len())
            + rotatable_slots_wire(lasers),
        ServerMsg::UpdatePlayer(id, o) => spec_u32_to_le_bytes(2) + spec_u16_to_le_bytes(id)
            + rotatable_wire(o),
        ServerMsg::UpdateLaser(id, o) => spec_u32_to_le_bytes(3) + spec_u16_to_le_bytes(id)
            + rotatable_wire(o),
        ServerMsg::UpdatePlanet(id, o) => spec_u32_to_le_bytes(4) + spec_u16_to_le_bytes(id)
            + body_wire(o),
        ServerMsg::DeletePlayer(id) => spec_u32_to_le_bytes(5) + spec_u16_to_le_bytes(id),
        ServerMsg::DeleteLasers(ids) => spec_u32_to_le_bytes(6) + count_wire(ids.len()) + ids_wire(
            ids,
        ),
        ServerMsg::DeletePlanets(ids) => spec_u32_to_le_bytes(7) + count_wire(ids.len())
            + ids_wire(ids),
        ServerMsg::UpdateHealth(health) => spec_u32_to_le_bytes(8) + seq![health],
        ServerMsg::DisconnectAck => spec_u32_to_le_bytes(9),
    }
}

/// How many bytes a server message takes on the wire.
pub open spec fn server_wire_len(m: ServerMsg) -> nat {
    match m {
        ServerMsg::PlayersAndPlanets { players, planets } => 20 + 30 * players.len() + 26
            * planets.len(),
        ServerMsg::Lasers(lasers) => 12 + 30 * lasers.len(),
        ServerMsg::UpdatePlayer(_, _) => 34,
        ServerMsg::UpdateLaser(_, _) => 34,
        ServerMsg::UpdatePlanet(_, _) => 30,
        ServerMsg::DeletePlayer(_) => 6,
        ServerMsg::DeleteLasers(ids) => 12 + 2 * ids.len(),
        ServerMsg::DeletePlanets(ids) => 12 + 2 * ids.len(),
        ServerMsg::UpdateHealth(_) => 5,
        ServerMsg::DisconnectAck => 4,
    }
}

/// The sizes of the list parts.
pub proof fn lemma_list_wire_len(
    bodies: Seq<Slot<PhysicsObject>>,
    rotatables: Seq<Slot<RotatableObject>>,
    ids: Seq<Idx>,
)
    ensures
        body_slots_wire(bodies).len() == 26 * bodies.len(),
        rotatable_slots_wire(rotatables).len() == 30 * rotatables.len(),
        ids_wire(ids).len() == 2 * ids.len(),
    decreases bodies.len() + rotatables.len() + ids.len(),
{
    lemma_auto_spec_u16_to_from_le_bytes();
    lemma_auto_spec_u32_to_from_le_bytes();
    if bodies.len() > 0 {
        lemma_list_wire_len(bodies.drop_last(), rotatables, ids);
    } else if rotatables.len() > 0 {
        lemma_list_wire_len(bodies, rotatables.drop_last(), ids);
    } else if ids.len() > 0 {
        lemma_list_wire_len(bodies, rotatables, ids.drop_last());
    }
}

/// A server message takes as many bytes as its parts say.
pub proof fn lemma_server_wire_len(m: ServerMsg)
    ensures
        server_wire(m).len() == server_wire_len(m),
{
    lemma_auto_spec_u16_to_from_le_bytes();
    lemma_auto_spec_u32_to_from_le_bytes();
    lemma_auto_spec_u64_to_from_le_bytes();
    match m {
        ServerMsg::PlayersAndPlanets { players, planets } => {
            lemma_list_wire_len(planets, players, Seq::empty());
        },
        ServerMsg::Lasers(lasers) => {
            lemma_list_wire_len(Seq::empty(), lasers, Seq::empty());
        },
        ServerMsg::DeleteLasers(ids) => {
            lemma_list_wire_len(Seq::empty(), Seq::empty(), ids);
        },
        ServerMsg::DeletePlanets(ids) => {
            lemma_list_wire_len(Seq::empty(), Seq::empty(), ids);
        },
        _ => {},
    }
}

/// Which messages fit a datagram: every message without a list; a listing of
/// at most 33 projectiles; a deletion of at most 506 identifiers; and a
/// snapshot whose players, at 30 bytes each, and planets, at 26 bytes each,
/// take 1004 bytes or fewer.
pub proof fn lemma_bounded_messages_fit(m: ServerMsg)
    ensures
        (match m {
            ServerMsg::PlayersAndPlanets { players, planets } => 30 * players.len() + 26
                * planets.len() <= 1004,
            ServerMsg::Lasers(lasers) => lasers.len() <= 33,
            ServerMsg::DeleteLasers(ids) => ids.len() <= 506,
            ServerMsg::DeletePlanets(ids) => ids.len() <= 506,
            _ => true,
        }) <==> server_wire(m).len() <= BUFFER_SIZE,
{
    lemma_server_wire_len(m);
}

/// Appends a vector.
pub fn put_vect(out: &mut Vec<u8>, v: Vect)
    ensures
        final(out)@ == old(out)@ + vect_wire(v),
{
    put_u32(out, v.x);
    put_u32(out, v.y);
    assert(out@ =~= old(out)@ + vect_wire(v));
}

/// Appends a moving body.
pub fn put_body(out: &mut Vec<u8>, o: PhysicsObject)
    ensures
        final(out)@ == old(out)@ + body_wire(o),
{
    put_vect(out, o.position);
    put_vect(out, o.velocity);
    put_vect(out, o.acceleration);
    assert(out@ =~= old(out)@ + body_wire(o));
}

/// Appends a rotatable body.
pub fn put_rotatable(out: &mut Vec<u8>, o: RotatableObject)
    ensures
        final(out)@ == old(out)@ + rotatable_wire(o),
{
    put_body(out, o.physics_obj);
    put_u32(out, o.rotation);
    assert(out@ =~= old(out)@ + rotatable_wire(o));
}

/// Appends a list of moving bodies: the count, then the entries.
pub fn put_body_slots(out: &mut Vec<u8>, list: &Vec<Slot<PhysicsObject>>)
    ensures
        final(out)@ == old(out)@ + count_wire(list@.len()) + body_slots_wire(list@),
{
    put_u64(out, list.len() as u64);
    let ghost base = out@;
    let mut i: usize = 0;
    assert(base + body_slots_wire(list@.subrange(0, 0)) =~= base);
    while i < list.len()
        invariant
            i <= list@.len(),
            out@ == base + body_slots_wire(list@.subrange(0, i as int)),
        decreases list@.len() - i,
    {
        proof {
            assert(list@.subrange(0, i + 1).drop_last() =~= list@.subrange(0, i as int));
        }
        put_u16(out, list[i].id);
        put_body(out, list[i].item);
        assert(out@ =~= base + body_slots_wire(list@.subrange(0, i + 1)));
        i += 1;
    }
    assert(list@.subrange(0, i as int) =~= list@);
}

/// Appends a list of rotatable bodies: the count, then the entries.
pub fn put_rotatable_slots(out: &mut Vec<u8>, list: &Vec<Slot<RotatableObject>>)
    ensures
        final(out)@ == old(out)@ + count_wire(list@.len()) + rotatable_slots_wire(list@),
{
    put_u64(out, list.len() as u64);
    let ghost base = out@;
    let mut i: usize = 0;
    assert(base + rotatable_slots_wire(list@.subrange(0, 0)) =~= base);
    while i < list.len()
        invariant
            i <= list@.len(),
            out@ == base + rotatable_slots_wire(list@.subrange(0, i as int)),
        decreases list@.len() - i,
    {
        proof {
            assert(list@.subrange(0, i + 1).drop_last() =~= list@.subrange(0, i as int));
        }
        put_u16(out, list[i].id);
        put_rotatable(out, list[i].item);
        assert(out@ =~= base + rotatable_slots_wire(list@.subrange(0, i + 1)));
        i += 1;
    }
    assert(list@.subrange(0, i as int) =~= list@);
}

/// Appends a list of identifiers: the count, then the identifiers.
pub fn put_ids(out: &mut Vec<u8>, list: &Vec<Idx>)
    ensures
        final(out)@ == old(out)@ + count_wire(list@.len()) + ids_wire(list@),
{
    put_u64(out, list.len() as u64);
    let ghost base = out@;
    let mut i: usize = 0;
    assert(base + ids_wire(list@.subrange(0, 0)) =~= base);
    while i < list.len()
        invariant
            i <= list@.len(),
            out@ == base + ids_wire(list@.subrange(0, i as int)),
        decreases list@.len() - i,
    {
        proof {
            assert(list@.subrange(0, i + 1).drop_last() =~= list@.subrange(0, i as int));
        }
        put_u16(out, list[i]);
        assert(out@ =~= base + ids_wire(list@.subrange(0, i + 1)));
        i += 1;
    }
    assert(list@.subrange(0, i as int) =~= list@);
}

/// The number of bytes that `packet` takes on the wire; the largest number
/// there is where it takes more than that.
pub fn serialized_size(packet: &ServerPacket) -> (n: u64)
    ensures
        n == (if server_wire(packet@).len() > u64::MAX {
            u64::MAX as int
        } else {
            server_wire(packet@).len() as int
        }),
{
    proof {
        lemma_server_wire_len(packet@);
    }
    let total: u128 = match packet {
        ServerPacket::PlayersAndPlanets { players, planets } => 20 + 30 * (players.len() as u128)
            + 26 * (planets.len() as u128),
        ServerPacket::Lasers(lasers) => 12 + 30 * (lasers.len() as u128),
        ServerPacket::UpdatePlayer(_, _) => 34,
        ServerPacket::UpdateLaser(_, _) => 34,
        ServerPacket::UpdatePlanet(_, _) => 30,
        ServerPacket::DeletePlayer(_) => 6,
        ServerPacket::DeleteLasers(ids) => 12 + 2 * (ids.len() as u128),
        ServerPacket::DeletePlanets(ids) => 12 + 2 * (ids.len() as u128),
        ServerPacket::UpdateHealth(_) => 5,
        ServerPacket::DisconnectAck => 4,
    };
    if total > u64::MAX as u128 {
        u64::MAX
    } else {
        total as u64
    }
}

/// The bytes of a server message, however many they are.
pub fn server_bytes(packet: &ServerPacket) -> (bytes: Vec<u8>)
    ensures
        bytes@ == server_wire(packet@),
{
    let mut out: Vec<u8> = Vec::new();
    match packet {
        ServerPacket::PlayersAndPlanets { players, planets } => {
            put_u32(&mut out, 0);
            put_rotatable_slots(&mut out, players);
            put_body_slots(&mut out, planets);
        },
        ServerPacket::Lasers(lasers) => {
            put_u32(&mut out, 1);
            put_rotatable_slots(&mut out, lasers);
        },
        ServerPacket::UpdatePlayer(id, o) => {
            put_u32(&mut out, 2);
            put_u16(&mut out, *id);
            put_rotatable(&mut out, *o);
        },
        ServerPacket::UpdateLaser(id, o) => {
            put_u32(&mut out, 3);
            put_u16(&mut out, *id);
            put_rotatable(&mut out, *o);
        },
        ServerPacket::UpdatePlanet(id, o) => {
            put_u32(&mut out, 4);
            put_u16(&mut out, *id);
            put_body(&mut out, *o);
        },
        ServerPacket::DeletePlayer(id) => {
            put_u32(&mut out, 5);
            put_u16(&mut out, *id);
        },
        ServerPacket::DeleteLasers(ids) => {
            put_u32(&mut out, 6);
            put_ids(&mut out, ids);
        },
        ServerPacket::DeletePlanets(ids) => {
            put_u32(&mut out, 7);
            put_ids(&mut out, ids);
        },
        ServerPacket::UpdateHealth(health) => {
            put_u32(&mut out, 8);
            out.push(*health);
        },
        ServerPacket::DisconnectAck => {
            put_u32(&mut out, 9);
        },
    }
    assert(out@ =~= server_wire(packet@));
    out
}

/// The datagram for a server message. A message that does not fit a
/// datagram is refused, never cut short.
pub fn encode_server_message(packet: &ServerPacket) -> (r: Result<Vec<u8>, Error>)
    ensures
        server_wire(packet@).len() <= BUFFER_SIZE ==> r.is_ok() && r.unwrap()@ == server_wire(
            packet@,
        ),
        server_wire(packet@).len() > BUFFER_SIZE ==> r == Err::<Vec<u8>, Error>(
            spec_invalid_data_error(Cause::SizeLimit),
        ),
{
    if serialized_size(packet) > BUFFER_SIZE as u64 {
        Err(invalid_data_error(Cause::SizeLimit))
    } else {
        Ok(server_bytes(packet))
    }
}

/// The 16-bit number at `at`.
pub open spec fn u16_at(bytes: Seq<u8>, at: int) -> u16 {
    spec_u16_from_le_bytes(bytes.subrange(at, at + 2))
}

/// The 32-bit number at `at`.
pub open spec fn u32_at(bytes: Seq<u8>, at: int) -> u32 {
    spec_u32_from_le_bytes(bytes.subrange(at, at + 4))
}

/// The 64-bit number at `at`.
pub open spec fn u64_at(bytes: Seq<u8>, at: int) -> u64 {
    spec_u64_from_le_bytes(bytes.subrange(at, at + 8))
}

/// The vector at `at`.
pub open spec fn vect_at(bytes: Seq<u8>, at: int) -> Vect {
    Vect { x: u32_at(bytes, at), y: u32_at(bytes, at + 4) }
}

/// The moving body at `at`.
pub open spec fn body_at(bytes: Seq<u8>, at: int) -> PhysicsObject {
    PhysicsObject {
        position: vect_at(bytes, at),
        velocity: vect_at(bytes, at + 8),
        acceleration: vect_at(bytes, at + 16),
    }
}

/// The rotatable body at `at`.
pub open spec fn rotatable_at(bytes: Seq<u8>, at: int) -> RotatableObject {
    RotatableObject { physics_obj: body_at(bytes, at), rotation: u32_at(bytes, at + 24) }
}

/// The `n` entries of a list of moving bodies that starts at `at`.
pub open spec fn body_slots_at(bytes: Seq<u8>, at: int, n: nat) -> Seq<Slot<PhysicsObject>> {
    Seq::new(
        n,
        |i: int| Slot { id: u16_at(bytes, at + 26 * i), item: body_at(bytes, at + 26 * i + 2) },
    )
}

/// The `n` entries of a list of rotatable bodies that starts at `at`.
pub open spec fn rotatable_slots_at(bytes: Seq<u8>, at: int, n: nat) -> Seq<Slot<RotatableObject>> {
    Seq::new(
        n,
        |i: int|
            Slot { id: u16_at(bytes, at + 30 * i), item: rotatable_at(bytes, at + 30 * i + 2) },
    )
}

/// The `n` identifiers of a list that starts at `at`.
pub open spec fn ids_at(bytes: Seq<u8>, at: int, n: nat) -> Seq<Idx> {
    Seq::new(n, |i: int| u16_at(bytes, at + 2 * i))
}

/// What the bytes of a datagram say, read as a server message. Bytes that
/// follow the message are not looked at. The entries of a list come as they
/// stand on the wire.
pub open spec fn spec_decode_server(bytes: Seq<u8>) -> Result<ServerMsg, Error> {
    let short = Err::<ServerMsg, Error>(spec_invalid_data_error(Cause::UnexpectedEnd));
    if bytes.len() < 4 {
        short
    } else {
        let tag = u32_at(bytes, 0);
        if tag == 0 {
            if bytes.len() < 12 || bytes.len() < 20 + 30 * u64_at(bytes, 4) {
                short
            } else {
                let np = u64_at(bytes, 4) as nat;
                let nq = u64_at(bytes, 12 + 30 * np as int) as nat;
                if bytes.len() < 20 + 30 * np + 26 * nq {
                    short
                } else {
                    Ok(
                        ServerMsg::PlayersAndPlanets {
                            players: rotatable_slots_at(bytes, 12, np),
                            planets: body_slots_at(bytes, 20 + 30 * np as int, nq),
                        },
                    )
                }
            }
        } else if tag == 1 {
            if bytes.len() < 12 || bytes.len() < 12 + 30 * u64_at(bytes, 4) {
                short
            } else {
                Ok(ServerMsg::Lasers(rotatable_slots_at(bytes, 12, u64_at(bytes, 4) as nat)))
            }
        } else if tag == 2 || tag == 3 {
            if bytes.len() < 34 {
                short
            } else if tag == 2 {
                Ok(ServerMsg::UpdatePlayer(u16_at(bytes, 4), rotatable_at(bytes, 6)))
            } else {
                Ok(ServerMsg::UpdateLaser(u16_at(bytes, 4), rotatable_at(bytes, 6)))
            }
        } else if tag == 4 {
            if bytes.len() < 30 {
                short
            } else {
                Ok(ServerMsg::UpdatePlanet(u16_at(bytes, 4), body_at(bytes, 6)))
            }
        } else if tag == 5 {
            if bytes.len() < 6 {
                short
            } else {
                Ok(ServerMsg::DeletePlayer(u16_at(bytes, 4)))
            }
        } else if tag == 6 || tag == 7 {
            if bytes.len() < 12 || bytes.len() < 12 + 2 * u64_at(bytes, 4) {
                short
            } else if tag == 6 {
                Ok(ServerMsg::DeleteLasers(ids_at(bytes, 12, u64_at(bytes, 4) as nat)))
            } else {
                Ok(ServerMsg::DeletePlanets(ids_at(bytes, 12, u64_at(bytes, 4) as nat)))
            }
        } else if tag == 8 {
            if bytes.len() < 5 {
                short
            } else {
                Ok(ServerMsg::UpdateHealth(bytes[4]))
            }
        } else if tag == 9 {
            Ok(ServerMsg::DisconnectAck)
        } else {
            Err(spec_invalid_data_error(Cause::UnknownVariant(tag)))
        }
    }
}

/// One entry of a list of moving bodies on the wire.
pub open spec fn body_slot_wire(s: Slot<PhysicsObject>) -> Seq<u8> {
    spec_u16_to_le_bytes(s.id) + body_wire(s.item)
}

/// One entry of a list of rotatable bodies on the wire.
pub open spec fn rotatable_slot_wire(s: Slot<RotatableObject>) -> Seq<u8> {
    spec_u16_to_le_bytes(s.id) + rotatable_wire(s.item)
}

/// The bytes of a moving body read back as that body, wherever they stand.
pub proof fn lemma_body_at(bytes: Seq<u8>, at: int, o: PhysicsObject)
    requires
        0 <= at,
        at + 24 <= bytes.len(),
        bytes.subrange(at, at + 24) == body_wire(o),
    ensures
        body_at(bytes, at) == o,
{
    lemma_auto_spec_u32_to_from_le_bytes();
    let chunk = body_wire(o);
    assert(bytes.subrange(at, at + 4) =~= chunk.subrange(0, 4));
    assert(bytes.subrange(at + 4, at + 4 + 4) =~= chunk.subrange(4, 8));
    assert(bytes.subrange(at + 8, at + 8 + 4) =~= chunk.subrange(8, 12));
    assert(bytes.subrange(at + 8 + 4, at + 8 + 4 + 4) =~= chunk.subrange(12, 16));
    assert(bytes.subrange(at + 16, at + 16 + 4) =~= chunk.subrange(16, 20));
    assert(bytes.subrange(at + 16 + 4, at + 16 + 4 + 4) =~= chunk.subrange(20, 24));
    assert(chunk.subrange(0, 4) =~= spec_u32_to_le_bytes(o.position.x));
    assert(chunk.subrange(4, 8) =~= spec_u32_to_le_bytes(o.position.y));
    assert(chunk.subrange(8, 12) =~= spec_u32_to_le_bytes(o.velocity.x));
    assert(chunk.subrange(12, 16) =~= spec_u32_to_le_bytes(o.velocity.y));
    assert(chunk.subrange(16, 20) =~= spec_u32_to_le_bytes(o.acceleration.x));
    assert(chunk.subrange(20, 24) =~= spec_u32_to_le_bytes(o.acceleration.y));
}

/// The bytes of a rotatable body read back as that body, wherever they
/// stand.
pub proof fn lemma_rotatable_at(bytes: Seq<u8>, at: int, o: RotatableObject)
    requires
        0 <= at,
        at + 28 <= bytes.len(),
        bytes.subrange(at, at + 28) == rotatable_wire(o),
    ensures
        rotatable_at(bytes, at) == o,
{
    lemma_auto_spec_u32_to_from_le_bytes();
    let chunk = rotatable_wire(o);
    assert(body_wire(o.physics_obj).len() == 24);
    assert(bytes.subrange(at, at + 24) =~= chunk.subrange(0, 24));
    assert(chunk.subrange(0, 24) =~= body_wire(o.physics_obj));
    lemma_body_at(bytes, at, o.physics_obj);
    assert(bytes.subrange(at + 24, at + 24 + 4) =~= chunk.subrange(24, 28));
    assert(chunk.subrange(24, 28) =~= spec_u32_to_le_bytes(o.rotation));
}

/// Where the entry `i` of a list of moving bodies stands among the bytes of
/// the list.
pub proof fn lemma_body_slot_stands(list: Seq<Slot<PhysicsObject>>, i: int)
    requires
        0 <= i < list.len(),
    ensures
        body_slots_wire(list).len() == 26 * list.len(),
        body_slots_wire(list).subrange(26 * i, 26 * i + 26) == body_slot_wire(list[i]),
    decreases list.len(),
{
    lemma_auto_spec_u16_to_from_le_bytes();
    lemma_auto_spec_u32_to_from_le_bytes();
    lemma_list_wire_len(list, Seq::empty(), Seq::empty());
    lemma_list_wire_len(list.drop_last(), Seq::empty(), Seq::empty());
    let all = body_slots_wire(list);
    if i == list.len() - 1 {
        assert(all.subrange(26 * i, 26 * i + 26) =~= body_slot_wire(list[i]));
    } else {
        lemma_body_slot_stands(list.drop_last(), i);
        assert(all.subrange(26 * i, 26 * i + 26) =~= body_slots_wire(list.drop_last()).subrange(
            26 * i,
            26 * i + 26,
        ));
    }
}

/// Where the entry `i` of a list of rotatable bodies stands among the bytes
/// of the list.
pub proof fn lemma_rotatable_slot_stands(list: Seq<Slot<RotatableObject>>, i: int)
    requires
        0 <= i < list.len(),
    ensures
        rotatable_slots_wire(list).len() == 30 * list.len(),
        rotatable_slots_wire(list).subrange(30 * i, 30 * i + 30) == rotatable_slot_wire(list[i]),
    decreases list.len(),
{
    lemma_auto_spec_u16_to_from_le_bytes();
    lemma_auto_spec_u32_to_from_le_bytes();
    lemma_list_wire_len(Seq::empty(), list, Seq::empty());
    lemma_list_wire_len(Seq::empty(), list.drop_last(), Seq::empty());
    let all = rotatable_slots_wire(list);
    if i == list.len() - 1 {
        assert(all.subrange(30 * i, 30 * i + 30) =~= rotatable_slot_wire(list[i]));
    } else {
        lemma_rotatable_slot_stands(list.drop_last(), i);
        assert(all.subrange(30 * i, 30 * i + 30) =~= rotatable_slots_wire(
            list.drop_last(),
        ).subrange(30 * i, 30 * i + 30));
    }
}

/// Where the identifier `i` of a list stands among the bytes of the list.
pub proof fn lemma_id_stands(list: Seq<Idx>, i: int)
    requires
        0 <= i < list.len(),
    ensures
        ids_wire(list).len() == 2 * list.len(),
        ids_wire(list).subrange(2 * i, 2 * i + 2) == spec_u16_to_le_bytes(list[i]),
    decreases list.len(),
{
    lemma_auto_spec_u16_to_from_le_bytes();
    lemma_list_wire_len(Seq::empty(), Seq::empty(), list);
    lemma_list_wire_len(Seq::empty(), Seq::empty(), list.drop_last());
    let all = ids_wire(list);
    if i == list.len() - 1 {
        assert(all.subrange(2 * i, 2 * i + 2) =~= spec_u16_to_le_bytes(list[i]));
    } else {
        lemma_id_stands(list.drop_last(), i);
        assert(all.subrange(2 * i, 2 * i + 2) =~= ids_wire(list.drop_last()).subrange(
            2 * i,
            2 * i + 2,
        ));
    }
}

/// The bytes of a list of moving bodies read back as that list, wherever
/// they stand.
pub proof fn lemma_body_slots_at(bytes: Seq<u8>, at: int, list: Seq<Slot<PhysicsObject>>)
    requires
        0 <= at,
        at + 26 * list.len() <= bytes.len(),
        bytes.subrange(at, at + 26 * list.len()) == body_slots_wire(list),
    ensures
        body_slots_at(bytes, at, list.len()) == list,
{
    lemma_auto_spec_u16_to_from_le_bytes();
    lemma_auto_spec_u32_to_from_le_bytes();
    let all = body_slots_wire(list);
    assert forall|i: int| 0 <= i < list.len() implies #[trigger] body_slots_at(
        bytes,
        at,
        list.len(),
    )[i] == list[i] by {
        lemma_body_slot_stands(list, i);
        let entry = body_slot_wire(list[i]);
        let from = at + 26 * i;
        assert(bytes.subrange(from, from + 26) =~= all.subrange(26 * i, 26 * i + 26));
        assert(bytes.subrange(from, from + 2) =~= entry.subrange(0, 2));
        assert(entry.subrange(0, 2) =~= spec_u16_to_le_bytes(list[i].id));
        assert(bytes.subrange(from + 2, from + 2 + 24) =~= entry.subrange(2, 26));
        assert(entry.subrange(2, 26) =~= body_wire(list[i].item));
        lemma_body_at(bytes, from + 2, list[i].item);
    }
    assert(body_slots_at(bytes, at, list.len()) =~= list);
}

/// The bytes of a list of rotatable bodies read back as that list, wherever
/// they stand.
pub proof fn lemma_rotatable_slots_at(bytes: Seq<u8>, at: int, list: Seq<Slot<RotatableObject>>)
    requires
        0 <= at,
        at + 30 * list.len() <= bytes.len(),
        bytes.subrange(at, at + 30 * list.len()) == rotatable_slots_wire(list),
    ensures
        rotatable_slots_at(bytes, at, list.len()) == list,
{
    lemma_auto_spec_u16_to_from_le_bytes();
    lemma_auto_spec_u32_to_from_le_bytes();
    let all = rotatable_slots_wire(list);
    assert forall|i: int| 0 <= i < list.len() implies #[trigger] rotatable_slots_at(
        bytes,
        at,
        list.len(),
    )[i] == list[i] by {
        lemma_rotatable_slot_stands(list, i);
        let entry = rotatable_slot_wire(list[i]);
        let from = at + 30 * i;
        assert(bytes.subrange(from, from + 30) =~= all.subrange(30 * i, 30 * i + 30));
        assert(bytes.subrange(from, from + 2) =~= entry.subrange(0, 2));
        assert(entry.subrange(0, 2) =~= spec_u16_to_le_bytes(list[i].id));
        assert(bytes.subrange(from + 2, from + 2 + 28) =~= entry.subrange(2, 30));
        assert(entry.subrange(2, 30) =~= rotatable_wire(list[i].item));
        lemma_rotatable_at(bytes, from + 2, list[i].item);
    }
    assert(rotatable_slots_at(bytes, at, list.len()) =~= list);
}

/// The bytes of a list of identifiers read back as that list, wherever they
/// stand.
pub proof fn lemma_ids_at(bytes: Seq<u8>, at: int, list: Seq<Idx>)
    requires
        0 <= at,
        at + 2 * list.len() <= bytes.len(),
        bytes.subrange(at, at + 2 * list.len()) == ids_wire(list),
    ensures
        ids_at(bytes, at, list.len()) == list,
{
    lemma_auto_spec_u16_to_from_le_bytes();
    let all = ids_wire(list);
    assert forall|i: int| 0 <= i < list.len() implies #[trigger] ids_at(bytes, at, list.len())[i]
        == list[i] by {
        lemma_id_stands(list, i);
        assert(bytes.subrange(at + 2 * i, at + 2 * i + 2) =~= all.subrange(2 * i, 2 * i + 2));
    }
    assert(ids_at(bytes, at, list.len()) =~= list);
}

/// Decoding undoes encoding: the bytes of a server message, with whatever
/// follows them, decode to that message. (A list longer than a 64-bit count
/// can say has no bytes that stand for it.)
pub proof fn lemma_server_round_trip(m: ServerMsg, rest: Seq<u8>)
    requires
        match m {
            ServerMsg::PlayersAndPlanets { players, planets } => players.len() <= u64::MAX
                && planets.len() <= u64::MAX,
            ServerMsg::Lasers(lasers) => lasers.len() <= u64::MAX,
            ServerMsg::DeleteLasers(ids) => ids.len() <= u64::MAX,
            ServerMsg::DeletePlanets(ids) => ids.len() <= u64::MAX,
            _ => true,
        },
    ensures
        spec_decode_server(server_wire(m) + rest) == Ok::<ServerMsg, Error>(m),
{
    lemma_auto_spec_u16_to_from_le_bytes();
    lemma_auto_spec_u32_to_from_le_bytes();
    lemma_auto_spec_u64_to_from_le_bytes();
    lemma_server_wire_len(m);
    let wire = server_wire(m);
    let bytes = wire + rest;
    match m {
        ServerMsg::PlayersAndPlanets { players, planets } => {
            lemma_list_wire_len(planets, players, Seq::empty());
            let np = players.len() as int;
            let nq = planets.len() as int;
            assert(bytes.subrange(0, 4) =~= spec_u32_to_le_bytes(0));
            assert(bytes.subrange(4, 12) =~= count_wire(players.len()));
            assert(bytes.subrange(12, 12 + 30 * np) =~= rotatable_slots_wire(players));
            assert(bytes.subrange(12 + 30 * np, 12 + 30 * np + 8) =~= count_wire(planets.len()));
            assert(bytes.subrange(20 + 30 * np, 20 + 30 * np + 26 * nq) =~= body_slots_wire(
                planets,
            ));
            lemma_rotatable_slots_at(bytes, 12, players);
            lemma_body_slots_at(bytes, 20 + 30 * np, planets);
        },
        ServerMsg::Lasers(lasers) => {
            lemma_list_wire_len(Seq::empty(), lasers, Seq::empty());
            assert(bytes.subrange(0, 4) =~= spec_u32_to_le_bytes(1));
            assert(bytes.subrange(4, 12) =~= count_wire(lasers.len()));
            let n = lasers.len() as int;
            assert(bytes.subrange(12, 12 + 30 * n) =~= rotatable_slots_wire(lasers));
            lemma_rotatable_slots_at(bytes, 12, lasers);
        },
        ServerMsg::UpdatePlayer(id, o) => {
            assert(bytes.subrange(0, 4) =~= spec_u32_to_le_bytes(2));
            assert(bytes.subrange(4, 6) =~= spec_u16_to_le_bytes(id));
            assert(bytes.subrange(6, 34) =~= rotatable_wire(o));
            lemma_rotatable_at(bytes, 6, o);
        },
        ServerMsg::UpdateLaser(id, o) => {
            assert(bytes.subrange(0, 4) =~= spec_u32_to_le_bytes(3));
            assert(bytes.subrange(4, 6) =~= spec_u16_to_le_bytes(id));
            assert(bytes.subrange(6, 34) =~= rotatable_wire(o));
            lemma_rotatable_at(bytes, 6, o);
        },
        ServerMsg::UpdatePlanet(id, o) => {
            assert(bytes.subrange(0, 4) =~= spec_u32_to_le_bytes(4));
            assert(bytes.subrange(4, 6) =~= spec_u16_to_le_bytes(id));
            assert(bytes.subrange(6, 30) =~= body_wire(o));
            lemma_body_at(bytes, 6, o);
        },
        ServerMsg::DeletePlayer(id) => {
            assert(bytes.subrange(0, 4) =~= spec_u32_to_le_bytes(5));
            assert(bytes.subrange(4, 6) =~= spec_u16_to_le_bytes(id));
        },
        ServerMsg::DeleteLasers(ids) => {
            lemma_list_wire_len(Seq::empty(), Seq::empty(), ids);
            assert(bytes.subrange(0, 4) =~= spec_u32_to_le_bytes(6));
            assert(bytes.subrange(4, 12) =~= count_wire(ids.len()));
            let n = ids.len() as int;
            assert(bytes.subrange(12, 12 + 2 * n) =~= ids_wire(ids));
            lemma_ids_at(bytes, 12, ids);
        },
        ServerMsg::DeletePlanets(ids) => {
            lemma_list_wire_len(Seq::empty(), Seq::empty(), ids);
            assert(bytes.subrange(0, 4) =~= spec_u32_to_le_bytes(7));
            assert(bytes.subrange(4, 12) =~= count_wire(ids.len()));
            let n = ids.len() as int;
            assert(bytes.subrange(12, 12 + 2 * n) =~= ids_wire(ids));
            lemma_ids_at(bytes, 12, ids);
        },
        ServerMsg::UpdateHealth(health) => {
            assert(bytes.subrange(0, 4) =~= spec_u32_to_le_bytes(8));
            assert(bytes[4] == health);
        },
        ServerMsg::DisconnectAck => {
            assert(bytes.subrange(0, 4) =~= spec_u32_to_le_bytes(9));
        },
    }
}

/// Reads the 16-bit number at `at`.
pub fn get_u16(bytes: &[u8], at: usize) -> (v: u16)
    requires
        at + 2 <= bytes@.len(),
    ensures
        v == u16_at(bytes@, at as int),
{
    let end = bytes.len();
    assert(at + 2 <= end);
    u16_from_le_bytes(slice_subrange(bytes, at, at + 2))
}

/// Reads the 32-bit number at `at`.
pub fn get_u32(bytes: &[u8], at: usize) -> (v: u32)
    requires
        at + 4 <= bytes@.len(),
    ensures
        v == u32_at(bytes@, at as int),
{
    let end = bytes.len();
    assert(at + 4 <= end);
    u32_from_le_bytes(slice_subrange(bytes, at, at + 4))
}

/// Reads the 64-bit number at `at`.
pub fn get_u64(bytes: &[u8], at: usize) -> (v: u64)
    requires
        at + 8 <= bytes@.len(),
    ensures
        v == u64_at(bytes@, at as int),
{
    let end = bytes.len();
    assert(at + 8 <= end);
    u64_from_le_bytes(slice_subrange(bytes, at, at + 8))
}

/// Reads the moving body at `at`.
pub fn get_body(bytes: &[u8], at: usize) -> (o: PhysicsObject)
    requires
        at + BODY_BYTES <= bytes@.len(),
    ensures
        o == body_at(bytes@, at as int),
{
    let end = bytes.len();
    assert(at + BODY_BYTES <= end);
    PhysicsObject {
        position: Vect { x: get_u32(bytes, at), y: get_u32(bytes, at + 4) },
        velocity: Vect { x: get_u32(bytes, at + 8), y: get_u32(bytes, at + 12) },
        acceleration: Vect { x: get_u32(bytes, at + 16), y: get_u32(bytes, at + 20) },
    }
}

/// Reads the rotatable body at `at`.
pub fn get_rotatable(bytes: &[u8], at: usize) -> (o: RotatableObject)
    requires
        at + ROTATABLE_BYTES <= bytes@.len(),
    ensures
        o == rotatable_at(bytes@, at as int),
{
    let end = bytes.len();
    assert(at + ROTATABLE_BYTES <= end);
    RotatableObject { physics_obj: get_body(bytes, at), rotation: get_u32(bytes, at + 24) }
}

/// Reads the `n` entries of a list of moving bodies that starts at `at`.
pub fn get_body_slots(bytes: &[u8], at: usize, n: usize) -> (list: Vec<Slot<PhysicsObject>>)
    requires
        at + 26 * n <= bytes@.len(),
    ensures
        list@ == body_slots_at(bytes@, at as int, n as nat),
{
    let mut list: Vec<Slot<PhysicsObject>> = Vec::new();
    let mut i: usize = 0;
    let end = bytes.len();
    while i < n
        invariant
            i <= n,
            end == bytes@.len(),
            at + 26 * n <= bytes@.len(),
            list@ == body_slots_at(bytes@, at as int, i as nat),
        decreases n - i,
    {
        let id = get_u16(bytes, at + 26 * i);
        let item = get_body(bytes, at + 26 * i + 2);
        list.push(Slot { id, item });
        assert(list@ =~= body_slots_at(bytes@, at as int, (i + 1) as nat));
        i += 1;
    }
    list
}

/// Reads the `n` entries of a list of rotatable bodies that starts at `at`.
pub fn get_rotatable_slots(bytes: &[u8], at: usize, n: usize) -> (list: Vec<Slot<RotatableObject>>)
    requires
        at + 30 * n <= bytes@.len(),
    ensures
        list@ == rotatable_slots_at(bytes@, at as int, n as nat),
{
    let mut list: Vec<Slot<RotatableObject>> = Vec::new();
    let mut i: usize = 0;
    let end = bytes.len();
    while i < n
        invariant
            i <= n,
            end == bytes@.len(),
            at + 30 * n <= bytes@.len(),
            list@ == rotatable_slots_at(bytes@, at as int, i as nat),
        decreases n - i,
    {
        let id = get_u16(bytes, at + 30 * i);
        let item = get_rotatable(bytes, at + 30 * i + 2);
        list.push(Slot { id, item });
        assert(list@ =~= rotatable_slots_at(bytes@, at as int, (i + 1) as nat));
        i += 1;
    }
    list
}

/// Reads the `n` identifiers of a list that starts at `at`.
pub fn get_ids(bytes: &[u8], at: usize, n: usize) -> (list: Vec<Idx>)
    requires
        at + 2 * n <= bytes@.len(),
    ensures
        list@ == ids_at(bytes@, at as int, n as nat),
{
    let mut list: Vec<Idx> = Vec::new();
    let mut i: usize = 0;
    let end = bytes.len();
    while i < n
        invariant
            i <= n,
            end == bytes@.len(),
            at + 2 * n <= bytes@.len(),
            list@ == ids_at(bytes@, at as int, i as nat),
        decreases n - i,
    {
        let id = get_u16(bytes, at + 2 * i);
        list.push(id);
        assert(list@ =~= ids_at(bytes@, at as int, (i + 1) as nat));
        i += 1;
    }
    list
}

/// Reads a datagram as a server message. It fails where the bytes end before
/// the message does and where they name no variant.
pub fn decode_server_message(bytes: &[u8]) -> (r: Result<ServerPacket, Error>)
    ensures
        match spec_decode_server(bytes@) {
            Ok(m) => r.is_ok() && r.unwrap()@ == m,
            Err(e) => r.is_err() && r.unwrap_err() == e,
        },
{
    let len = bytes.len();
    if len < 4 {
        return Err(invalid_data_error(Cause::UnexpectedEnd));
    }
    let tag = get_u32(bytes, 0);
    if tag == 0 {
        if len < 12 {
            return Err(invalid_data_error(Cause::UnexpectedEnd));
        }
        let np = get_u64(bytes, 4);
        if len < 20 || np > ((len - 20) / 30) as u64 {
            return Err(invalid_data_error(Cause::UnexpectedEnd));
        }
        let np = np as usize;
        let nq = get_u64(bytes, 12 + 30 * np);
        if nq > ((len - 20 - 30 * np) / 26) as u64 {
            return Err(invalid_data_error(Cause::UnexpectedEnd));
        }
        let nq = nq as usize;
        let players = get_rotatable_slots(bytes, 12, np);
        let planets = get_body_slots(bytes, 20 + 30 * np, nq);
        Ok(ServerPacket::PlayersAndPlanets { players, planets })
    } else if tag == 1 {
        if len < 12 {
            return Err(invalid_data_error(Cause::UnexpectedEnd));
        }
        let n = get_u64(bytes, 4);
        if n > ((len - 12) / 30) as u64 {
            return Err(invalid_data_error(Cause::UnexpectedEnd));
        }
        Ok(ServerPacket::Lasers(get_rotatable_slots(bytes, 12, n as usize)))
    } else if tag == 2 || tag == 3 {
        if len < 34 {
            return Err(invalid_data_error(Cause::UnexpectedEnd));
        }
        let id = get_u16(bytes, 4);
        let o = get_rotatable(bytes, 6);
        if tag == 2 {
            Ok(ServerPacket::UpdatePlayer(id, o))
        } else {
            Ok(ServerPacket::UpdateLaser(id, o))
        }
    } else if tag == 4 {
        if len < 30 {
            return Err(invalid_data_error(Cause::UnexpectedEnd));
        }
        Ok(ServerPacket::UpdatePlanet(get_u16(bytes, 4), get_body(bytes, 6)))
    } else if tag == 5 {
        if len < 6 {
            return Err(invalid_data_error(Cause::UnexpectedEnd));
        }
        Ok(ServerPacket::DeletePlayer(get_u16(bytes, 4)))
    } else if tag == 6 || tag == 7 {
        if len < 12 {
            return Err(invalid_data_error(Cause::UnexpectedEnd));
        }
        let n = get_u64(bytes, 4);
        if n > ((len - 12) / 2) as u64 {
            return Err(invalid_data_error(Cause::UnexpectedEnd));
        }
        let ids = get_ids(bytes, 12, n as usize);
        if tag == 6 {
            Ok(ServerPacket::DeleteLasers(ids))
        } else {
            Ok(ServerPacket::DeletePlanets(ids))
        }
    } else if tag == 8 {
        if len < 5 {
            return Err(invalid_data_error(Cause::UnexpectedEnd));
        }
        Ok(ServerPacket::UpdateHealth(bytes[4]))
    } else if tag == 9 {
        Ok(ServerPacket::DisconnectAck)
    } else {
        Err(invalid_data_error(Cause::UnknownVariant(tag)))
    }
}

} // verus!
