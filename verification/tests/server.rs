use velox_server::net::{Address, Outbound, ServerPacket};
use velox_server::obj::{PhysicsObject, Planet, Player, RotatableObject, Vect};
use velox_server::server::{Server, Session, LASERS_PER_PACKET, PLANET_FLOOR, SHED_ON_ERROR, SPAWN_NANOS};
use velox_server::table::Slot;
use velox_server::tick::Frame;
use velox_server::wire::{encode_server_message, BUFFER_SIZE};

fn planet(x: f32, y: f32, vx: f32, vy: f32) -> Planet {
    Planet::new(x.to_bits(), y.to_bits(), vx.to_bits(), vy.to_bits())
}

fn initial_planets() -> Vec<Planet> {
    vec![
        planet(0., 0., 10., 2.),
        planet(50., 0., -10., 2.),
        planet(0., 0., 10., -2.),
        planet(0., 0., -10., -2.),
        planet(0., 400., 50., -20.),
    ]
}

fn addr(n: u16) -> Address {
    Address { host: 0xffff_7f00_0001, port: 4000 + n }
}

fn vect(x: f32, y: f32) -> Vect {
    Vect { x: x.to_bits(), y: y.to_bits() }
}

fn to(list: &[Address], packet: ServerPacket) -> Outbound {
    Outbound { to: list.to_vec(), packet }
}

fn laser(seed: f32) -> RotatableObject {
    RotatableObject::new(vect(seed, 1.0), vect(2.0, 3.0), 0.5f32.to_bits())
}

#[test]
fn a_new_server_holds_the_planets_under_the_first_identifiers() {
    let s = Server::new(&initial_planets());
    assert_eq!(s.planets.len(), 5);
    for (i, p) in initial_planets().into_iter().enumerate() {
        assert_eq!(s.planets.slots[i], Slot { id: i as u16, item: p });
    }
    assert!(s.players.is_empty());
    assert!(s.lasers.is_empty());
    assert!(s.sessions.is_empty());
    assert_eq!(s.aggregate_time, 0);
}

#[test]
fn an_idle_tick_without_clients_keeps_the_planets_and_sends_nothing() {
    let mut s = Server::new(&initial_planets());
    let out = s.update(&Frame::default());
    assert_eq!(s.planets.len(), 5);
    assert_eq!(s, Server::new(&initial_planets()));
    assert!(out.is_empty());
}

#[test]
fn connect_is_answered_with_the_state_and_announced_to_all() {
    let mut s = Server::new(&initial_planets());
    let out = s.on_connect(addr(1));
    let rest = Player::default().obj;
    assert_eq!(rest, RotatableObject::new(vect(0., 0.), vect(0., 0.), 0f32.to_bits()));
    let planets: Vec<Slot<PhysicsObject>> = initial_planets()
        .into_iter()
        .enumerate()
        .map(|(i, p)| Slot { id: i as u16, item: p.obj })
        .collect();
    assert_eq!(
        out,
        vec![
            to(
                &[addr(1)],
                ServerPacket::PlayersAndPlanets {
                    players: vec![Slot { id: 0, item: rest }],
                    planets,
                }
            ),
            to(&[addr(1)], ServerPacket::UpdateHealth(5)),
            to(&[addr(1)], ServerPacket::UpdatePlayer(0, rest)),
        ]
    );
    assert_eq!(s.sessions, vec![Session { address: addr(1), player_id: 0 }]);
    assert_eq!(s.players.get(0), Some(Player::default()));
    assert_eq!(s.players.len(), 1);
}

#[test]
fn a_second_client_is_announced_to_both() {
    let mut s = Server::new(&initial_planets());
    s.on_connect(addr(1));
    let out = s.on_connect(addr(2));
    assert_eq!(out.len(), 3);
    assert_eq!(out[0].to, vec![addr(2)]);
    match &out[0].packet {
        ServerPacket::PlayersAndPlanets { players, planets } => {
            assert_eq!(players.len(), 2);
            assert_eq!(planets.len(), 5);
        }
        other => panic!("not a snapshot: {:?}", other),
    }
    assert_eq!(
        out[2],
        to(&[addr(1), addr(2)], ServerPacket::UpdatePlayer(1, Player::default().obj))
    );
    assert_eq!(s.player_at(addr(2)), Some((1, Player::default())));
    assert_eq!(s.player_at(addr(3)), None);
    assert_eq!(s.find_session(addr(2)), Some(1));
    assert_eq!(s.addresses(), vec![addr(1), addr(2)]);
}

#[test]
fn a_second_connect_from_the_same_endpoint_is_ignored() {
    let mut s = Server::new(&initial_planets());
    s.on_connect(addr(1));
    let before = s.clone();
    let out = s.on_connect(addr(1));
    assert!(out.is_empty());
    assert_eq!(s, before);
}

#[test]
fn connect_lists_the_projectiles_in_bounded_batches() {
    let mut s = Server::new(&initial_planets());
    s.on_connect(addr(1));
    for i in 0..70 {
        s.on_shoot(addr(1), laser(i as f32));
    }
    let out = s.on_connect(addr(2));
    assert_eq!(out.len(), 6);
    let sizes: Vec<(u16, usize)> = out[2..5]
        .iter()
        .map(|o| match &o.packet {
            ServerPacket::Lasers(list) => (list[0].id, list.len()),
            other => panic!("not a listing: {:?}", other),
        })
        .collect();
    assert_eq!(sizes, vec![(37, 33), (4, 33), (0, 4)]);
    assert_eq!(LASERS_PER_PACKET, 33);
    for o in &out[2..5] {
        assert_eq!(o.to, vec![addr(2)]);
        assert!(encode_server_message(&o.packet).unwrap().len() <= BUFFER_SIZE);
    }
    assert_eq!(s.laser_listing(addr(2)), out[2..5].to_vec());
}

#[test]
fn shoot_creates_one_projectile_and_announces_it() {
    let mut s = Server::new(&initial_planets());
    s.on_connect(addr(1));
    s.on_connect(addr(2));
    s.on_rotate(addr(2), 0f32.to_bits());
    let (id, player) = s.player_at(addr(2)).unwrap();
    assert_eq!(id, 1);
    let rotation = f32::from_bits(player.obj.rotation);
    let (dy, dx) = rotation.sin_cos();
    let pos = player.obj.pos();
    let vel = player.obj.vel();
    let shot = RotatableObject::new(
        vect(f32::from_bits(pos.x) + 42. * dx, f32::from_bits(pos.y) + 42. * dy),
        vect(f32::from_bits(vel.x) + 400. * dx, f32::from_bits(vel.y) + 400. * dy),
        player.obj.rotation,
    );
    assert_eq!(shot.pos(), vect(42., 0.));
    assert_eq!(shot.vel(), vect(400., 0.));
    let out = s.on_shoot(addr(2), shot);
    assert_eq!(out, vec![to(&[addr(1), addr(2)], ServerPacket::UpdateLaser(0, shot))]);
    assert_eq!(s.lasers.len(), 1);
    assert_eq!(s.lasers.get(0), Some(shot));
}

#[test]
fn shoot_from_an_unknown_endpoint_is_ignored() {
    let mut s = Server::new(&initial_planets());
    s.on_connect(addr(1));
    let before = s.clone();
    assert!(s.on_shoot(addr(9), laser(0.)).is_empty());
    assert_eq!(s, before);
}

#[test]
fn impulse_sets_the_acceleration_and_rotate_the_rotation() {
    let mut s = Server::new(&initial_planets());
    s.on_connect(addr(1));
    let out = s.on_impulse(addr(1), vect(3., -4.));
    let mut want = Player::default();
    want.obj.physics_obj.acceleration = vect(3., -4.);
    assert_eq!(out, vec![to(&[addr(1)], ServerPacket::UpdatePlayer(0, want.obj))]);
    assert_eq!(s.players.get(0), Some(want));
    let out = s.on_rotate(addr(1), 1.5f32.to_bits());
    want.obj.rotation = 1.5f32.to_bits();
    assert_eq!(out, vec![to(&[addr(1)], ServerPacket::UpdatePlayer(0, want.obj))]);
    assert_eq!(s.players.get(0), Some(want));
    assert!(s.on_rotate(addr(5), 1).is_empty());
    assert_eq!(s.players.get(0), Some(want));
}

#[test]
fn disconnect_removes_the_player_and_later_messages_are_ignored() {
    let mut s = Server::new(&initial_planets());
    s.on_connect(addr(1));
    s.on_connect(addr(2));
    s.on_connect(addr(3));
    let out = s.on_disconnect(addr(2));
    assert_eq!(
        out,
        vec![
            to(&[addr(2)], ServerPacket::DisconnectAck),
            to(&[addr(1), addr(3)], ServerPacket::DeletePlayer(1)),
        ]
    );
    assert_eq!(s.players.get(1), None);
    assert_eq!(s.players.len(), 2);
    assert_eq!(
        s.sessions,
        vec![
            Session { address: addr(1), player_id: 0 },
            Session { address: addr(3), player_id: 2 },
        ]
    );
    let before = s.clone();
    assert!(s.on_impulse(addr(2), vect(1., 1.)).is_empty());
    assert_eq!(s, before);
}

#[test]
fn disconnect_from_an_unknown_endpoint_is_acknowledged_only() {
    let mut s = Server::new(&initial_planets());
    s.on_connect(addr(1));
    let before = s.clone();
    assert_eq!(s.remove_player(addr(7)), vec![to(&[addr(7)], ServerPacket::DisconnectAck)]);
    assert_eq!(s, before);
}

#[test]
fn a_freed_player_identifier_goes_to_the_next_client() {
    let mut s = Server::new(&initial_planets());
    s.on_connect(addr(1));
    s.on_connect(addr(2));
    s.on_connect(addr(3));
    s.on_disconnect(addr(1));
    s.on_connect(addr(4));
    assert_eq!(s.player_at(addr(4)).unwrap().0, 0);
    assert_eq!(s.addresses(), vec![addr(2), addr(3), addr(4)]);
}

#[test]
fn a_decode_error_sheds_the_projectiles_with_the_smallest_identifiers() {
    let mut s = Server::new(&initial_planets());
    s.on_connect(addr(1));
    for i in 0..8 {
        s.on_shoot(addr(1), laser(i as f32));
    }
    let out = s.on_decode_error();
    assert_eq!(SHED_ON_ERROR, 5);
    assert_eq!(out, vec![to(&[addr(1)], ServerPacket::DeleteLasers(vec![0, 1, 2, 3, 4]))]);
    let left: Vec<u16> = s.lasers.slots.iter().map(|l| l.id).collect();
    assert_eq!(left, vec![5, 6, 7]);
    assert_eq!(s.lasers.get(5), Some(laser(5.)));
    let out = s.on_decode_error();
    assert_eq!(out, vec![to(&[addr(1)], ServerPacket::DeleteLasers(vec![5, 6, 7]))]);
    assert!(s.lasers.is_empty());
    assert!(s.on_decode_error().is_empty());
}

#[test]
fn planets_come_back_after_ten_seconds_below_the_floor() {
    let mut s = Server::new(&initial_planets()[..4].to_vec());
    s.on_connect(addr(1));
    let fresh = planet(1., 2., 3., 4.);
    assert_eq!(PLANET_FLOOR, 5);
    assert_eq!(SPAWN_NANOS, 10_000_000_000);
    assert!(s.maintain_population(6_000_000_000, fresh).is_empty());
    assert_eq!(s.aggregate_time, 6_000_000_000);
    assert_eq!(s.planets.len(), 4);
    let out = s.maintain_population(5_000_000_000, fresh);
    assert_eq!(out, vec![to(&[addr(1)], ServerPacket::UpdatePlanet(4, fresh.obj))]);
    assert_eq!(s.aggregate_time, 1_000_000_000);
    assert_eq!(s.planets.get(4), Some(fresh));
    assert!(s.maintain_population(u64::MAX, fresh).is_empty());
    assert_eq!(s.aggregate_time, 1_000_000_000);
    assert_eq!(s.planets.len(), 5);
}

#[test]
fn the_wait_for_a_planet_stops_at_the_largest_count() {
    let mut s = Server::new(&Vec::new());
    s.aggregate_time = u64::MAX - 5;
    let out = s.maintain_population(100, planet(0., 0., 0., 0.));
    assert_eq!(out.len(), 1);
    assert_eq!(out[0].to, Vec::<Address>::new());
    assert_eq!(s.aggregate_time, u64::MAX - SPAWN_NANOS);
    assert_eq!(s.planets.len(), 1);
}

#[test]
fn a_new_planet_takes_the_smallest_free_identifier() {
    let mut s = Server::new(&initial_planets());
    s.planets.remove(2);
    let fresh = planet(9., 9., 9., 9.);
    s.maintain_population(SPAWN_NANOS, fresh);
    assert_eq!(s.planets.get(2), Some(fresh));
    assert_eq!(s.aggregate_time, 0);
}

#[test]
fn the_snapshot_lists_players_and_planets_in_order() {
    let mut s = Server::new(&initial_planets()[..2].to_vec());
    s.on_connect(addr(1));
    s.on_rotate(addr(1), 7);
    match s.snapshot() {
        ServerPacket::PlayersAndPlanets { players, planets } => {
            assert_eq!(players.len(), 1);
            assert_eq!(players[0].id, 0);
            assert_eq!(players[0].item.rotation, 7);
            assert_eq!(
                planets,
                vec![
                    Slot { id: 0, item: initial_planets()[0].obj },
                    Slot { id: 1, item: initial_planets()[1].obj },
                ]
            );
        }
        other => panic!("not a snapshot: {:?}", other),
    }
}

#[test]
fn consistency_is_checked() {
    let mut s = Server::new(&initial_planets());
    assert!(s.is_wf());
    s.on_connect(addr(1));
    s.on_connect(addr(2));
    s.on_shoot(addr(1), laser(1.));
    s.on_disconnect(addr(1));
    assert!(s.is_wf());

    let mut dangling = s.clone();
    dangling.sessions.push(Session { address: addr(5), player_id: 40 });
    assert!(!dangling.is_wf());

    let mut shared_player = s.clone();
    shared_player.sessions.push(Session { address: addr(6), player_id: 1 });
    assert!(!shared_player.is_wf());

    let mut shared_endpoint = s.clone();
    shared_endpoint.on_connect(addr(3));
    shared_endpoint.sessions[1].address = addr(2);
    assert!(!shared_endpoint.is_wf());

    let mut unordered = s.clone();
    unordered.planets.slots.swap(0, 1);
    assert!(!unordered.is_wf());
}

#[test]
fn what_the_snapshot_has_no_room_for_follows_one_by_one() {
    let many: Vec<Planet> = (0..25).map(|i| planet(i as f32, 0., 0., 0.)).collect();
    let mut s = Server::new(&many);
    for c in 0..17 {
        let out = s.on_connect(addr(c));
        for o in &out {
            assert!(encode_server_message(&o.packet).unwrap().len() <= BUFFER_SIZE);
        }
    }
    let out = s.on_connect(addr(99));
    assert_eq!(out.len(), 2 + 5 + 2 + 1);
    match &out[0].packet {
        ServerPacket::PlayersAndPlanets { players, planets } => {
            assert_eq!(players.len(), 16);
            assert_eq!(planets.len(), 20);
            assert_eq!(players[15].id, 15);
            assert_eq!(planets[19], Slot { id: 19, item: many[19].obj });
        }
        other => panic!("not a snapshot: {:?}", other),
    }
    assert_eq!(out[1], to(&[addr(99)], ServerPacket::UpdateHealth(5)));
    for (k, o) in out[2..7].iter().enumerate() {
        let id = 20 + k as u16;
        assert_eq!(*o, to(&[addr(99)], ServerPacket::UpdatePlanet(id, many[usize::from(id)].obj)));
    }
    let rest = Player::default().obj;
    assert_eq!(out[7], to(&[addr(99)], ServerPacket::UpdatePlayer(16, rest)));
    assert_eq!(out[8], to(&[addr(99)], ServerPacket::UpdatePlayer(17, rest)));
    assert_eq!(out[9].to.len(), 18);
    assert_eq!(out[9].packet, ServerPacket::UpdatePlayer(17, rest));
    assert_eq!(s.snapshot_rest(addr(99)), out[2..9].to_vec());
    for o in &out {
        assert!(encode_server_message(&o.packet).unwrap().len() <= BUFFER_SIZE);
    }
}
