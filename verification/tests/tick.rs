use velox_server::net::{Address, Outbound, ServerPacket};
use velox_server::obj::{PhysicsObject, Planet, RotatableObject, Vect};
use velox_server::server::{Server, Session};
use velox_server::table::{Slot, Table};
use velox_server::tick::{
    count_hits, find_move, list_has, strike_player, tell_deleted, wear, Contact, Frame, Move,
    IDS_PER_PACKET,
};
use velox_server::wire::encode_server_message;

fn planet(x: f32, y: f32, vx: f32, vy: f32) -> Planet {
    Planet::new(x.to_bits(), y.to_bits(), vx.to_bits(), vy.to_bits())
}

fn initial_planets() -> Vec<Planet> {
    vec![
        planet(0., 0., 10., 2.),
        planet(50., 0., -10., 2.),
        planet(0., 0., 10., -2.),
        planet(0., 0., -10., -2.),
        planet(0., 400., 50., -20.),
    ]
}

fn addr(n: u16) -> Address {
    Address { host: 1, port: n }
}

fn vect(x: f32, y: f32) -> Vect {
    Vect { x: x.to_bits(), y: y.to_bits() }
}

fn laser(seed: f32) -> RotatableObject {
    RotatableObject::new(vect(seed, 1.0), vect(2.0, 3.0), 0.5f32.to_bits())
}

fn to(list: &[Address], packet: ServerPacket) -> Outbound {
    Outbound { to: list.to_vec(), packet }
}

fn hit(target: u16, laser: u16) -> Contact {
    Contact { target, laser }
}

fn world(clients: u16, lasers: u16) -> Server {
    let mut s = Server::new(&initial_planets());
    for c in 0..clients {
        s.on_connect(addr(c));
    }
    for l in 0..lasers {
        s.on_shoot(addr(0), laser(f32::from(l)));
    }
    s
}

#[test]
fn a_projectile_that_touches_a_player_costs_one_health_and_leaves() {
    let mut s = world(2, 2);
    let frame = Frame { player_contacts: vec![hit(1, 0)], ..Frame::default() };
    let out = s.update(&frame);
    assert_eq!(
        out,
        vec![
            to(&[addr(1)], ServerPacket::UpdateHealth(4)),
            to(&[addr(0), addr(1)], ServerPacket::DeleteLasers(vec![0])),
        ]
    );
    assert_eq!(s.players.get(1).unwrap().health, 4);
    assert_eq!(s.players.get(0).unwrap().health, 5);
    assert_eq!(s.lasers.get(0), None);
    assert_eq!(s.lasers.get(1), Some(laser(1.)));
    assert_eq!(s.planets.len(), 5);
}

#[test]
fn a_projectile_that_touches_a_planet_costs_one_health_and_leaves() {
    let mut s = world(1, 3);
    let frame = Frame { planet_contacts: vec![hit(4, 1)], ..Frame::default() };
    let out = s.update(&frame);
    assert_eq!(out, vec![to(&[addr(0)], ServerPacket::DeleteLasers(vec![1]))]);
    assert_eq!(s.planets.get(4).unwrap().health, 4);
    for id in 0..4 {
        assert_eq!(s.planets.get(id).unwrap().health, 5);
    }
    let left: Vec<u16> = s.lasers.slots.iter().map(|l| l.id).collect();
    assert_eq!(left, vec![0, 2]);
}

#[test]
fn the_order_of_the_contacts_does_not_matter() {
    let contacts = vec![hit(0, 0), hit(1, 1), hit(0, 2), hit(3, 0)];
    let mut reversed = contacts.clone();
    reversed.reverse();
    let mut a = world(1, 3);
    let mut b = world(1, 3);
    let out_a = a.update(&Frame { planet_contacts: contacts, ..Frame::default() });
    let out_b = b.update(&Frame { planet_contacts: reversed, ..Frame::default() });
    assert_eq!(a, b);
    assert_eq!(out_a, out_b);
    assert_eq!(out_a, vec![to(&[addr(0)], ServerPacket::DeleteLasers(vec![0, 1, 2]))]);
    assert_eq!(a.planets.get(0).unwrap().health, 3);
    assert_eq!(a.planets.get(1).unwrap().health, 4);
    assert_eq!(a.planets.get(3).unwrap().health, 4);
    assert!(a.lasers.is_empty());
}

#[test]
fn a_contact_with_an_absent_projectile_or_body_counts_for_nothing() {
    let mut s = world(1, 1);
    let before = s.clone();
    let frame = Frame {
        planet_contacts: vec![hit(0, 9), hit(77, 0)],
        player_contacts: vec![hit(0, 9), hit(5, 0)],
        ..Frame::default()
    };
    assert!(s.update(&frame).is_empty());
    assert_eq!(s, before);
}

#[test]
fn a_planet_without_health_leaves_and_is_announced() {
    let mut s = world(1, 6);
    s.planets.replace(1, Planet { obj: initial_planets()[1].obj, health: 2 });
    s.planets.replace(3, Planet { obj: initial_planets()[3].obj, health: 1 });
    let frame = Frame {
        planet_contacts: vec![hit(1, 0), hit(3, 1), hit(1, 2), hit(1, 3)],
        planet_moves: vec![Move { id: 1, state: initial_planets()[0].obj, wrapped: true }],
        ..Frame::default()
    };
    let out = s.update(&frame);
    assert_eq!(
        out,
        vec![
            to(&[addr(0)], ServerPacket::DeletePlanets(vec![1, 3])),
            to(&[addr(0)], ServerPacket::DeleteLasers(vec![0, 1, 2, 3])),
        ]
    );
    let left: Vec<u16> = s.planets.slots.iter().map(|p| p.id).collect();
    assert_eq!(left, vec![0, 2, 4]);
    assert_eq!(s.lasers.len(), 2);
}

#[test]
fn bodies_move_and_wraps_are_announced() {
    let mut s = world(1, 2);
    let there = PhysicsObject::new(1, 2, 3, 4);
    let elsewhere = PhysicsObject::new(5, 6, 7, 8);
    let frame = Frame {
        planet_moves: vec![
            Move { id: 0, state: elsewhere, wrapped: true },
            Move { id: 2, state: there, wrapped: false },
            Move { id: 0, state: there, wrapped: true },
            Move { id: 9, state: there, wrapped: true },
        ],
        player_moves: vec![Move { id: 0, state: laser(7.), wrapped: true }],
        laser_moves: vec![
            Move { id: 1, state: laser(8.), wrapped: true },
            Move { id: 0, state: laser(9.), wrapped: false },
        ],
        ..Frame::default()
    };
    let out = s.update(&frame);
    assert_eq!(
        out,
        vec![
            to(&[addr(0)], ServerPacket::UpdatePlanet(0, there)),
            to(&[addr(0)], ServerPacket::UpdateLaser(1, laser(8.))),
        ]
    );
    assert_eq!(s.planets.get(0).unwrap().obj, there);
    assert_eq!(s.planets.get(2).unwrap().obj, there);
    assert_eq!(s.planets.get(1).unwrap().obj, initial_planets()[1].obj);
    assert_eq!(s.players.get(0).unwrap().obj, laser(7.));
    assert_eq!(s.players.get(0).unwrap().health, 5);
    assert_eq!(s.lasers.get(0), Some(laser(9.)));
    assert_eq!(s.lasers.get(1), Some(laser(8.)));
}

#[test]
fn a_dead_planet_does_not_move() {
    let mut s = world(1, 1);
    s.planets.replace(0, Planet { obj: initial_planets()[0].obj, health: 1 });
    let out = s.step_planets(
        &vec![hit(0, 0)],
        &vec![Move { id: 0, state: PhysicsObject::new(1, 1, 1, 1), wrapped: true }],
    );
    assert_eq!(out, vec![to(&[addr(0)], ServerPacket::DeletePlanets(vec![0]))]);
    assert_eq!(s.planets.get(0), None);
    assert_eq!(s.lasers.len(), 1);
}

#[test]
fn every_hit_on_a_player_is_reported_and_health_stops_at_zero() {
    let mut s = world(2, 4);
    let mut weak = s.players.get(1).unwrap();
    weak.health = 2;
    s.players.replace(1, weak);
    let out = s.step_players(&vec![hit(1, 0), hit(0, 1), hit(1, 2), hit(1, 3)], &Vec::new());
    assert_eq!(
        out,
        vec![
            to(&[addr(0)], ServerPacket::UpdateHealth(4)),
            to(&[addr(1)], ServerPacket::UpdateHealth(1)),
            to(&[addr(1)], ServerPacket::UpdateHealth(0)),
            to(&[addr(1)], ServerPacket::UpdateHealth(0)),
        ]
    );
    assert_eq!(s.players.get(1).unwrap().health, 0);
    assert_eq!(s.players.get(0).unwrap().health, 4);
    assert_eq!(s.lasers.len(), 4);
}

#[test]
fn one_dead_player_is_buried_per_tick_and_identifiers_close_up() {
    let mut s = world(4, 0);
    for id in [1u16, 2] {
        let mut dying = s.players.get(id).unwrap();
        dying.health = 0;
        s.players.replace(id, dying);
    }
    let marker = laser(3.);
    let mut last = s.players.get(3).unwrap();
    last.obj = marker;
    s.players.replace(3, last);
    let out = s.update(&Frame::default());
    assert_eq!(
        out,
        vec![
            to(&[addr(1)], ServerPacket::DisconnectAck),
            to(&[addr(0), addr(2), addr(3)], ServerPacket::DeletePlayer(1)),
        ]
    );
    assert_eq!(
        s.sessions,
        vec![
            Session { address: addr(0), player_id: 0 },
            Session { address: addr(2), player_id: 1 },
            Session { address: addr(3), player_id: 2 },
        ]
    );
    let ids: Vec<u16> = s.players.slots.iter().map(|p| p.id).collect();
    assert_eq!(ids, vec![0, 1, 2]);
    assert_eq!(s.players.get(1).unwrap().health, 0);
    assert_eq!(s.players.get(2).unwrap().obj, marker);
    let out = s.bury_one();
    assert_eq!(
        out,
        vec![
            to(&[addr(2)], ServerPacket::DisconnectAck),
            to(&[addr(0), addr(3)], ServerPacket::DeletePlayer(1)),
        ]
    );
    assert_eq!(s.player_at(addr(3)).unwrap().0, 1);
    assert_eq!(s.player_at(addr(3)).unwrap().1.obj, marker);
    assert!(s.bury_one().is_empty());
}

#[test]
fn a_player_that_dies_in_a_tick_leaves_in_the_same_tick() {
    let mut s = world(2, 1);
    let mut weak = s.players.get(0).unwrap();
    weak.health = 1;
    s.players.replace(0, weak);
    let out = s.update(&Frame { player_contacts: vec![hit(0, 0)], ..Frame::default() });
    assert_eq!(
        out,
        vec![
            to(&[addr(0)], ServerPacket::UpdateHealth(0)),
            to(&[addr(0), addr(1)], ServerPacket::DeleteLasers(vec![0])),
            to(&[addr(0)], ServerPacket::DisconnectAck),
            to(&[addr(1)], ServerPacket::DeletePlayer(0)),
        ]
    );
    assert_eq!(s.sessions, vec![Session { address: addr(1), player_id: 0 }]);
    assert_eq!(s.players.len(), 1);
}

#[test]
fn marks_name_each_struck_projectile_once_in_the_deletion() {
    let mut s = world(1, 3);
    let marks = s.planet_marks(&vec![hit(0, 2), hit(9, 1), hit(1, 2)]);
    assert_eq!(marks, vec![2, 2]);
    let more = s.player_marks(&vec![hit(0, 0), hit(3, 1)]);
    assert_eq!(more, vec![0]);
    let out = s.step_lasers(&vec![2, 2, 0, 7], &Vec::new());
    assert_eq!(out, vec![to(&[addr(0)], ServerPacket::DeleteLasers(vec![0, 2]))]);
    let left: Vec<u16> = s.lasers.slots.iter().map(|l| l.id).collect();
    assert_eq!(left, vec![1]);
}

#[test]
fn helpers_count_and_find() {
    let mut lasers: Table<RotatableObject> = Table::new();
    lasers.fit_in(laser(0.));
    lasers.fit_in(laser(1.));
    let contacts = vec![hit(3, 0), hit(3, 1), hit(2, 0), hit(3, 5)];
    assert_eq!(count_hits(&contacts, &lasers, 3), 2);
    assert_eq!(count_hits(&contacts, &lasers, 2), 1);
    assert_eq!(count_hits(&contacts, &lasers, 0), 0);
    assert_eq!(wear(5, 0), 5);
    assert_eq!(wear(5, 3), 2);
    assert_eq!(wear(5, 5), 0);
    assert_eq!(wear(5, 1000), 0);
    assert_eq!(wear(0, 1), 0);
    let moves = vec![
        Move { id: 1, state: 10u8, wrapped: false },
        Move { id: 2, state: 20u8, wrapped: true },
        Move { id: 1, state: 30u8, wrapped: true },
    ];
    assert_eq!(find_move(&moves, 1), Some(Move { id: 1, state: 30u8, wrapped: true }));
    assert_eq!(find_move(&moves, 2), Some(Move { id: 2, state: 20u8, wrapped: true }));
    assert_eq!(find_move(&moves, 3), None);
    assert!(list_has(&vec![1, 2, 3], 2));
    assert!(!list_has(&vec![1, 2, 3], 4));
    let (left, told) = strike_player(addr(4), 3, 3, &contacts, &lasers);
    assert_eq!(left, 1);
    assert_eq!(
        told,
        vec![
            to(&[addr(4)], ServerPacket::UpdateHealth(2)),
            to(&[addr(4)], ServerPacket::UpdateHealth(1)),
        ]
    );
    assert_eq!(Slot { id: 1u16, item: 2u8 }.id, 1);
}

#[test]
fn the_pilot_of_a_player_is_its_session() {
    let s = world(3, 0);
    assert_eq!(s.find_pilot(2), Some(addr(2)));
    assert_eq!(s.find_pilot(3), None);
}

#[test]
fn long_deletion_lists_are_cut_to_fit_a_datagram() {
    let mut s = world(1, 600);
    let contacts: Vec<Contact> = (0..600).map(|l| hit(0, l)).collect();
    let out = s.update(&Frame { planet_contacts: contacts, ..Frame::default() });
    assert_eq!(
        out,
        vec![
            to(&[addr(0)], ServerPacket::DeletePlanets(vec![0])),
            to(&[addr(0)], ServerPacket::DeleteLasers((94..600).collect())),
            to(&[addr(0)], ServerPacket::DeleteLasers((0..94).collect())),
        ]
    );
    assert_eq!(IDS_PER_PACKET, 506);
    for o in &out {
        assert!(encode_server_message(&o.packet).unwrap().len() <= 1024);
    }
    assert!(s.lasers.is_empty());
    assert_eq!(s.planets.len(), 4);
    assert_eq!(tell_deleted(&vec![addr(3)], &vec![], true), vec![]);
    assert_eq!(
        tell_deleted(&vec![addr(3)], &vec![4, 2], true),
        vec![to(&[addr(3)], ServerPacket::DeletePlanets(vec![4, 2]))]
    );
}
