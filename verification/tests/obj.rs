use velox_server::obj::{worn, PhysicsObject, Planet, Player, RotatableObject, Vect, FULL_HEALTH};

#[test]
fn health_never_underflows() {
    assert_eq!(worn(0), 0);
    assert_eq!(worn(1), 0);
    assert_eq!(worn(5), 4);
    assert_eq!(worn(255), 254);
}

#[test]
fn default_player_rests_at_the_origin_with_full_health() {
    let p = Player::default();
    assert_eq!(p.health, 5);
    assert_eq!(FULL_HEALTH, 5);
    assert_eq!(p.obj.rotation, 0f32.to_bits());
    assert_eq!(p.obj.pos(), Vect { x: 0, y: 0 });
    assert_eq!(p.obj.vel(), Vect::zero());
    assert_eq!(p.obj.physics_obj.acceleration, Vect::zero());
}

#[test]
fn new_planet_has_full_health_and_no_acceleration() {
    let p = Planet::new(50f32.to_bits(), 0f32.to_bits(), (-10f32).to_bits(), 2f32.to_bits());
    assert_eq!(p.health, 5);
    assert_eq!(f32::from_bits(p.obj.pos().x), 50.0);
    assert_eq!(f32::from_bits(p.obj.pos().y), 0.0);
    assert_eq!(f32::from_bits(p.obj.vel().x), -10.0);
    assert_eq!(f32::from_bits(p.obj.vel().y), 2.0);
    assert_eq!(p.obj.acceleration, Vect::new(0, 0));
}

#[test]
fn constructors_keep_their_arguments() {
    let o = PhysicsObject::new(1, 2, 3, 4);
    assert_eq!(o.position, Vect { x: 1, y: 2 });
    assert_eq!(o.velocity, Vect { x: 3, y: 4 });
    let r = RotatableObject::new(Vect::new(5, 6), Vect::new(7, 8), 9);
    assert_eq!(r.pos(), Vect { x: 5, y: 6 });
    assert_eq!(r.vel(), Vect { x: 7, y: 8 });
    assert_eq!(r.rotation, 9);
    assert_eq!(r.physics_obj.acceleration, Vect::zero());
}
