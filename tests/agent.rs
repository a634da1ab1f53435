use boids::boid::{hue_to_rgb, Boid, Rgb, Vec2, COLOR_ONE, DEFAULT_HEADING, MIN_SPEED};

fn at(x: i64, y: i64) -> Boid {
    Boid::new((x, y), 0)
}

fn speed_sq(v: Vec2) -> i128 {
    v.x as i128 * v.x as i128 + v.y as i128 * v.y as i128
}

#[test]
fn new_agent_defaults() {
    let b = Boid::new((1500, 2500), 1);
    assert_eq!(b.position, Vec2 { x: 1500, y: 2500 });
    assert_eq!(b.velocity, Vec2 { x: 0, y: 0 });
    assert_eq!(b.size, 2000);
    assert_eq!((b.separation, b.alignement, b.cohesion), (8000, 40000, 40000));
    assert_eq!(b.color, Rgb { r: 1024, g: 192, b: 0 });
    assert_eq!(b.avg_color, b.color);
}

#[test]
fn hue_wheel_values() {
    assert_eq!(hue_to_rgb(0), Rgb { r: COLOR_ONE, g: 0, b: 0 });
    assert_eq!(hue_to_rgb(1), Rgb { r: COLOR_ONE, g: 192, b: 0 });
    assert_eq!(hue_to_rgb(6), Rgb { r: 896, g: COLOR_ONE, b: 0 });
    assert_eq!(hue_to_rgb(16), Rgb { r: 0, g: COLOR_ONE, b: COLOR_ONE });
    assert_eq!(hue_to_rgb(32), hue_to_rgb(0));
}

#[test]
fn border_clamps_position_and_stops_velocity() {
    let mut b = at(-5000, 1_500_000);
    b.velocity = Vec2 { x: -70_000, y: 30_000 };
    b.border_margin = b.size;
    b.handle_border_colision((1_000_000, 1_000_000));
    assert_eq!(b.position, Vec2 { x: 2000, y: 998_000 });
    assert_eq!(b.velocity, Vec2 { x: 0, y: 0 });
}

#[test]
fn border_margin_steers_inward() {
    let mut b = at(10_000, 990_000);
    b.velocity = Vec2 { x: 5, y: 7 };
    b.handle_border_colision((1_000_000, 1_000_000));
    assert_eq!(b.position, Vec2 { x: 10_000, y: 990_000 });
    assert_eq!(b.velocity, Vec2 { x: 5 + 2000, y: 7 - 2000 });
    let mut c = at(-1, 500_000);
    c.handle_border_colision((1_000_000, 1_000_000));
    assert_eq!(c.position.x, 2000);
    assert_eq!(c.velocity.x, 2000);
}

#[test]
fn speed_floor_rescales_slow_heading() {
    let mut b = at(0, 0);
    b.velocity = Vec2 { x: 3, y: 4 };
    b.apply_forces(1_000_000);
    assert_eq!(b.velocity, Vec2 { x: 30_000, y: 40_000 });
    assert_eq!(b.position, Vec2 { x: 30_000, y: 40_000 });
    assert!(speed_sq(b.velocity) >= (MIN_SPEED as i128) * (MIN_SPEED as i128));
}

#[test]
fn speed_floor_rounds_away_from_zero() {
    let mut b = at(0, 0);
    b.velocity = Vec2 { x: -7, y: 2 };
    b.apply_forces(0);
    assert!(speed_sq(b.velocity) >= (MIN_SPEED as i128) * (MIN_SPEED as i128));
    assert!(b.velocity.x < 0 && b.velocity.y > 0);
}

#[test]
fn standing_agent_gets_default_heading() {
    let mut b = at(0, 0);
    b.apply_forces(500_000);
    assert_eq!(b.velocity, Vec2 { x: DEFAULT_HEADING, y: DEFAULT_HEADING });
    assert_eq!(b.position, Vec2 { x: 35_355, y: 35_355 });
    // twice the floor speed, to within one unit
    let s = speed_sq(b.velocity);
    assert!(s >= (2 * MIN_SPEED as i128) * (2 * MIN_SPEED as i128));
    assert!(s <= (2 * MIN_SPEED as i128 + 1) * (2 * MIN_SPEED as i128 + 1));
}

#[test]
fn slow_diagonal_heading_lands_on_floor_speed() {
    let mut b = at(0, 0);
    b.velocity = Vec2 { x: 1, y: 1 };
    b.apply_forces(0);
    assert_eq!(b.velocity, Vec2 { x: 35_356, y: 35_356 });
    let s = speed_sq(b.velocity);
    let m = MIN_SPEED as i128;
    assert!(m * m <= s && s <= (m + 2) * (m + 2));
}

#[test]
fn diagonal_overlap_resolves_to_size_sum() {
    let mut a = at(500_000, 500_000);
    let mut b = at(500_001, 500_001);
    a.handle_separation(&mut b);
    let dx = (b.position.x - a.position.x) as i128;
    let dy = (b.position.y - a.position.y) as i128;
    let d = dx * dx + dy * dy;
    assert!(3_996 * 3_996 <= d && d <= 4_004 * 4_004, "distance squared {}", d);
}

#[test]
fn fast_agent_keeps_velocity() {
    let mut b = at(0, 0);
    b.velocity = Vec2 { x: 60_000, y: -1 };
    b.apply_forces(10);
    assert_eq!(b.velocity, Vec2 { x: 60_000, y: -1 });
    assert_eq!(b.position, Vec2 { x: 0, y: 0 });
}

#[test]
fn separation_contributions_are_opposite() {
    let mut a = at(100_000, 100_000);
    let mut b = at(105_000, 97_000);
    a.handle_separation(&mut b);
    assert_eq!(a.separation_force, Vec2 { x: -5000, y: 3000 });
    assert_eq!(b.separation_force, Vec2 { x: 5000, y: -3000 });
    assert_eq!(a.position, Vec2 { x: 100_000, y: 100_000 });
}

#[test]
fn separation_resolves_overlap() {
    let mut a = at(100_000, 100_000);
    let mut b = at(101_000, 100_000);
    a.handle_separation(&mut b);
    assert_eq!(a.position, Vec2 { x: 98_500, y: 100_000 });
    assert_eq!(b.position, Vec2 { x: 102_500, y: 100_000 });
}

#[test]
fn separation_ignores_far_agent() {
    let mut a = at(0, 0);
    let mut b = at(8000, 0);
    let (a0, b0) = (a, b);
    a.handle_separation(&mut b);
    assert_eq!((a, b), (a0, b0));
}

#[test]
fn alignment_and_cohesion_accumulate_on_both() {
    let mut a = at(0, 0);
    let mut b = at(30_000, 0);
    a.velocity = Vec2 { x: 10, y: 20 };
    b.velocity = Vec2 { x: -30, y: 40 };
    a.handle_alignement(&mut b);
    a.handle_cohesion(&mut b);
    assert_eq!((a.alignement_number, b.alignement_number), (1, 1));
    assert_eq!(a.alignement_force, Vec2 { x: -30, y: 40 });
    assert_eq!(b.alignement_force, Vec2 { x: 10, y: 20 });
    assert_eq!(a.cohesion_force, Vec2 { x: 30_000, y: 0 });
    assert_eq!(b.cohesion_force, Vec2 { x: 0, y: 0 });
    assert_eq!((a.cohesion_number, b.cohesion_number), (1, 1));
}

#[test]
fn apply_steps_use_gains_and_dt() {
    let mut a = at(0, 0);
    a.separation_force = Vec2 { x: 1000, y: -2000 };
    a.apply_separation(1_000_000);
    // 1000 * 3000 * 1e6 / 1e9
    assert_eq!(a.velocity, Vec2 { x: 3000, y: -6000 });

    let mut b = at(0, 0);
    b.alignement_number = 2;
    b.alignement_force = Vec2 { x: 2000, y: 0 };
    b.apply_alignement(100_000);
    // (1000 - 0) * 3000 * 1e5 / 1e9
    assert_eq!(b.velocity, Vec2 { x: 300, y: 0 });

    let mut c = at(0, 0);
    c.cohesion_number = 1;
    c.cohesion_force = Vec2 { x: 0, y: 100_000 };
    c.apply_cohesion(1_000_000);
    // 100000 * 30 * 1e6 / 1e9
    assert_eq!(c.velocity, Vec2 { x: 0, y: 3000 });

    let mut d = at(0, 0);
    d.apply_alignement(1_000_000);
    d.apply_cohesion(1_000_000);
    assert_eq!(d.velocity, Vec2 { x: 0, y: 0 });
}

#[test]
fn color_blends_neighbours() {
    let mut a = Boid::new((0, 0), 0);
    let mut b = Boid::new((1000, 0), 16);
    a.handle_color(&mut b);
    assert_eq!(a.avg_color_denominator, 1_000_000);
    a.apply_color();
    assert_eq!(a.avg_color, b.color);
    b.apply_color();
    assert_eq!(b.avg_color, Rgb { r: COLOR_ONE, g: 0, b: 0 });
}

#[test]
fn isolated_agent_keeps_identity_color() {
    let mut a = Boid::new((0, 0), 5);
    let mut b = Boid::new((50_000, 0), 9);
    a.avg_color = b.color;
    a.reset_forces();
    a.handle_color(&mut b);
    b.handle_color(&mut a);
    a.apply_color();
    assert_eq!(a.avg_color, a.color);
}

#[test]
fn reset_clears_accumulators() {
    let mut a = at(0, 0);
    let mut b = at(1000, 0);
    a.handle_color(&mut b);
    a.handle_separation(&mut b);
    a.handle_alignement(&mut b);
    a.handle_cohesion(&mut b);
    a.reset_forces();
    assert_eq!(a.separation_force, Vec2 { x: 0, y: 0 });
    assert_eq!(a.alignement_force, Vec2 { x: 0, y: 0 });
    assert_eq!(a.cohesion_force, Vec2 { x: 0, y: 0 });
    assert_eq!((a.alignement_number, a.cohesion_number, a.avg_color_denominator), (0, 0, 0));
    assert_eq!(a.avg_color_nominator, Rgb { r: 0, g: 0, b: 0 });
}
