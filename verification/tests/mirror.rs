use velox_server::mirror::{drop_all, put_all, Mirror};
use velox_server::net::{Address, Outbound, ServerPacket};
use velox_server::obj::{PhysicsObject, Planet, RotatableObject, Vect};
use velox_server::server::Server;
use velox_server::table::{Slot, Table};
use velox_server::tick::{Contact, Frame, Move};
use velox_server::wire::{decode_server_message, encode_server_message};

fn addr(n: u16) -> Address {
    Address { host: 1, port: n }
}

fn laser(seed: f32) -> RotatableObject {
    RotatableObject::new(
        Vect { x: seed.to_bits(), y: 1 },
        Vect { x: 2, y: 3 },
        0.5f32.to_bits(),
    )
}

fn hear(mirror: &mut Mirror, me: Address, out: &[Outbound]) {
    for o in out {
        if o.to.contains(&me) {
            let bytes = encode_server_message(&o.packet).unwrap();
            mirror.apply(&decode_server_message(&bytes).unwrap());
        }
    }
}

fn agrees(mirror: &Mirror, server: &Server) {
    let planets: Vec<Slot<PhysicsObject>> =
        server.planets.slots.iter().map(|p| Slot { id: p.id, item: p.item.obj }).collect();
    let players: Vec<Slot<RotatableObject>> =
        server.players.slots.iter().map(|p| Slot { id: p.id, item: p.item.obj }).collect();
    assert_eq!(mirror.planets.slots, planets);
    assert_eq!(mirror.players.slots, players);
    assert_eq!(mirror.lasers, server.lasers);
}

#[test]
fn a_new_mirror_is_empty_and_connected() {
    let m = Mirror::new();
    assert!(m.planets.is_empty() && m.players.is_empty() && m.lasers.is_empty());
    assert_eq!(m.health, 0);
    assert!(m.connected);
}

#[test]
fn updates_put_in_place_and_deletions_take_out() {
    let mut m = Mirror::new();
    m.apply(&ServerPacket::UpdateLaser(3, laser(1.)));
    m.apply(&ServerPacket::UpdateLaser(1, laser(2.)));
    m.apply(&ServerPacket::UpdateLaser(3, laser(3.)));
    assert_eq!(
        m.lasers.slots,
        vec![Slot { id: 1, item: laser(2.) }, Slot { id: 3, item: laser(3.) }]
    );
    m.apply(&ServerPacket::Lasers(vec![
        Slot { id: 0, item: laser(4.) },
        Slot { id: 1, item: laser(5.) },
    ]));
    assert_eq!(m.lasers.len(), 3);
    assert_eq!(m.lasers.get(1), Some(laser(5.)));
    m.apply(&ServerPacket::DeleteLasers(vec![3, 9, 0, 3]));
    assert_eq!(m.lasers.slots, vec![Slot { id: 1, item: laser(5.) }]);
    m.apply(&ServerPacket::UpdatePlanet(2, PhysicsObject::new(1, 2, 3, 4)));
    m.apply(&ServerPacket::UpdatePlayer(0, laser(6.)));
    m.apply(&ServerPacket::UpdateHealth(4));
    assert_eq!(m.health, 4);
    m.apply(&ServerPacket::PlayersAndPlanets {
        players: vec![Slot { id: 5, item: laser(7.) }],
        planets: vec![],
    });
    assert!(m.planets.is_empty());
    assert_eq!(m.players.slots, vec![Slot { id: 5, item: laser(7.) }]);
    assert_eq!(m.lasers.len(), 1);
    m.apply(&ServerPacket::DeletePlayer(5));
    m.apply(&ServerPacket::DeletePlanets(vec![1]));
    assert!(m.players.is_empty());
    assert!(m.connected);
    m.apply(&ServerPacket::DisconnectAck);
    assert!(!m.connected);
}

#[test]
fn lists_are_put_in_and_dropped_one_by_one() {
    let mut t: Table<u8> = Table::new();
    put_all(&mut t, &vec![Slot { id: 4, item: 1 }, Slot { id: 2, item: 2 }, Slot { id: 4, item: 3 }]);
    assert_eq!(t.slots, vec![Slot { id: 2, item: 2 }, Slot { id: 4, item: 3 }]);
    t.insert(3, 9);
    t.insert(0, 8);
    let ids: Vec<u16> = t.slots.iter().map(|s| s.id).collect();
    assert_eq!(ids, vec![0, 2, 3, 4]);
    drop_all(&mut t, &vec![2, 7, 4]);
    assert_eq!(t.slots, vec![Slot { id: 0, item: 8 }, Slot { id: 3, item: 9 }]);
}

#[test]
fn a_client_that_hears_everything_sees_what_the_server_has() {
    let planets: Vec<Planet> = (0..25).map(|i| Planet::new(i, i + 1, i + 2, i + 3)).collect();
    let mut server = Server::new(&planets);
    let me = addr(1);
    let mut mirror = Mirror::new();

    server.on_connect(addr(0));
    for c in 100..120 {
        server.on_connect(addr(c));
    }
    for c in 100..120 {
        server.on_disconnect(addr(c));
    }
    for c in 200..220 {
        server.on_connect(addr(c));
    }
    for i in 0..40 {
        server.on_shoot(addr(0), laser(i as f32));
    }
    let out = server.on_connect(me);
    hear(&mut mirror, me, &out);
    agrees(&mirror, &server);
    assert_eq!(mirror.health, 5);

    let out = server.on_impulse(addr(0), Vect { x: 7, y: 8 });
    hear(&mut mirror, me, &out);
    let out = server.on_shoot(me, laser(99.));
    hear(&mut mirror, me, &out);
    let out = server.on_decode_error();
    hear(&mut mirror, me, &out);
    agrees(&mirror, &server);

    server.planets.replace(2, Planet { obj: planets[2].obj, health: 1 });
    let my_id = server.player_at(me).unwrap().0;
    assert_eq!(my_id, 21);
    let frame = Frame {
        planet_contacts: vec![Contact { target: 2, laser: 10 }],
        player_contacts: vec![
            Contact { target: my_id, laser: 11 },
            Contact { target: my_id, laser: 12 },
        ],
        planet_moves: vec![Move { id: 0, state: PhysicsObject::new(9, 9, 9, 9), wrapped: true }],
        laser_moves: vec![
            Move { id: 20, state: laser(20.5), wrapped: true },
            Move { id: 10, state: laser(10.5), wrapped: true },
        ],
        ..Frame::default()
    };
    let out = server.update(&frame);
    hear(&mut mirror, me, &out);
    agrees(&mirror, &server);
    assert_eq!(mirror.health, 3);
    assert_eq!(mirror.planets.get(2), None);
    assert_eq!(mirror.lasers.get(10), None);
    assert_eq!(mirror.lasers.get(20), Some(laser(20.5)));

    let out = server.maintain_population(10_000_000_000, Planet::new(5, 5, 5, 5));
    hear(&mut mirror, me, &out);
    let out = server.on_disconnect(addr(0));
    hear(&mut mirror, me, &out);
    agrees(&mirror, &server);

    let out = server.on_disconnect(me);
    hear(&mut mirror, me, &out);
    assert!(!mirror.connected);
}
