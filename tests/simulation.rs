use boids::boid::{Boid, Vec2, DEFAULT_HEADING, MIN_SPEED};
use boids::flock::Flock;
use boids::geom::Rect;
use boids::quadtree::IndexError;

fn bounds(w: i64, h: i64) -> Rect {
    Rect { min_x: 0, min_y: 0, max_x: w, max_y: h }
}

fn dist_sq(a: Vec2, b: Vec2) -> i128 {
    let dx = (a.x - b.x) as i128;
    let dy = (a.y - b.y) as i128;
    dx * dx + dy * dy
}

#[test]
fn overlapping_pair_is_pushed_apart() {
    let boids = vec![Boid::new((500_000, 500_000), 0), Boid::new((501_000, 500_000), 1)];
    let mut f = Flock::new(boids, bounds(1_000_000, 1_000_000));
    f.tick(16_000);
    let (a, b) = (f.boids[0], f.boids[1]);
    let sum = (a.size + b.size) as i128;
    // within one thousandth of a pixel
    let d = dist_sq(a.position, b.position);
    assert!(d >= (sum - 1) * (sum - 1), "distance squared {} below {}", d, sum * sum);
}

#[test]
fn lone_standing_agent_reaches_speed_floor() {
    let mut f = Flock::new(vec![Boid::new((500_000, 500_000), 0)], bounds(1_000_000, 1_000_000));
    for _ in 0..5 {
        f.tick(16_000);
    }
    let v = f.boids[0].velocity;
    assert_eq!(v, Vec2 { x: DEFAULT_HEADING, y: DEFAULT_HEADING });
    let s = v.x as i128 * v.x as i128 + v.y as i128 * v.y as i128;
    assert!(s >= MIN_SPEED as i128 * MIN_SPEED as i128);
}

#[test]
fn every_agent_at_least_floor_speed_after_tick() {
    let boids: Vec<Boid> = (0..40)
        .map(|i| Boid::new((300_000 + (i as i64 % 7) * 3_000, 300_000 + (i as i64 / 7) * 2_500), i))
        .collect();
    let mut f = Flock::new(boids, bounds(800_000, 600_000));
    for _ in 0..20 {
        f.tick(16_000);
        assert_eq!(f.len(), 40);
        for b in &f.boids {
            let s = b.velocity.x as i128 * b.velocity.x as i128 + b.velocity.y as i128 * b.velocity.y as i128;
            assert!(s >= MIN_SPEED as i128 * MIN_SPEED as i128);
        }
    }
}

#[test]
fn spawn_adds_agent_visible_in_full_query() {
    let boids: Vec<Boid> = (0..10).map(|i| Boid::new((200_000 + i as i64 * 4_000, 200_000), i)).collect();
    let mut f = Flock::new(boids, bounds(1_000_000, 1_000_000));
    let n = f.len();
    assert_eq!(f.spawn((100_000, 100_000)), Ok(()));
    assert_eq!(f.len(), n + 1);
    let visible = f.export_visible(&bounds(1_000_000, 1_000_000));
    assert_eq!(visible.len(), n + 1);
    assert!(visible.iter().any(|b| b.position == Vec2 { x: 100_000, y: 100_000 }));
    assert_eq!(f.boids[n].color, Boid::new((0, 0), n).color);
}

#[test]
fn spawn_outside_boundary_is_refused() {
    let mut f = Flock::new(vec![], bounds(1000, 1000));
    assert_eq!(f.spawn((2000, 10)), Err(IndexError::OutOfRegion));
    assert_eq!(f.len(), 0);
}

#[test]
fn resize_clamps_agents_into_smaller_box() {
    let boids = vec![Boid::new((900_000, 700_000), 0), Boid::new((100_000, 100_000), 1)];
    let mut f = Flock::new(boids, bounds(1_000_000, 800_000));
    f.resize((500_000, 400_000));
    assert_eq!(f.boundary, bounds(500_000, 400_000));
    let a = f.boids[0];
    assert!(a.size <= a.position.x && a.position.x <= 500_000 - a.size);
    assert!(a.size <= a.position.y && a.position.y <= 400_000 - a.size);
    f.tick(16_000);
    assert_eq!(f.len(), 2);
    for b in &f.boids {
        assert!(b.position.x <= 500_000 && b.position.y <= 400_000);
        assert!(b.position.x >= 0 && b.position.y >= 0);
    }
    assert_eq!(f.export_visible(&bounds(500_000, 400_000)).len(), 2);
}

#[test]
fn resize_to_larger_window_keeps_boundary() {
    let mut f = Flock::new(vec![Boid::new((100_000, 100_000), 0)], bounds(300_000, 300_000));
    f.resize((900_000, 900_000));
    assert_eq!(f.boundary, bounds(300_000, 300_000));
}

#[test]
fn export_visible_filters_by_viewport() {
    let boids = vec![Boid::new((100_000, 100_000), 0), Boid::new((700_000, 700_000), 1)];
    let f = Flock::new(boids, bounds(1_000_000, 1_000_000));
    let v = f.export_visible(&Rect { min_x: 0, min_y: 0, max_x: 500_000, max_y: 500_000 });
    assert_eq!(v.len(), 1);
    assert_eq!(v[0].position, Vec2 { x: 100_000, y: 100_000 });
}

#[test]
fn isolated_agent_keeps_identity_color_through_tick() {
    let boids = vec![Boid::new((100_000, 100_000), 3), Boid::new((600_000, 600_000), 7)];
    let mut f = Flock::new(boids, bounds(1_000_000, 1_000_000));
    f.tick(16_000);
    assert_eq!(f.boids[0].avg_color, f.boids[0].color);
    assert_eq!(f.boids[1].avg_color, f.boids[1].color);
}

#[test]
fn close_agents_blend_colors_in_sub_step() {
    let boids = vec![Boid::new((500_000, 500_000), 0), Boid::new((510_000, 500_000), 16)];
    let mut f = Flock::new(boids, bounds(1_000_000, 1_000_000));
    f.sub_step(1_000);
    assert_eq!(f.len(), 2);
    assert_ne!(f.boids[0].avg_color, f.boids[0].color);
    assert_eq!(f.boids[0].alignement_number, 2);
    assert_eq!(f.boids[1].cohesion_number, 2);
}

#[test]
fn export_visible_uses_agents_own_positions() {
    let boids = vec![Boid::new((1_007_000, 500_000), 0), Boid::new((10_000, 10_000), 1)];
    let f = Flock::new(boids, bounds(1_000_000, 1_000_000));
    assert_eq!(f.boids[0].position, Vec2 { x: 1_007_000, y: 500_000 });
    // the first agent lies outside the boundary: a boundary-sized viewport misses it
    assert_eq!(f.export_visible(&bounds(1_000_000, 1_000_000)).len(), 1);
    let right = Rect { min_x: 1_005_000, min_y: 0, max_x: 1_010_000, max_y: 1_000_000 };
    let v = f.export_visible(&right);
    assert_eq!(v.len(), 1);
    assert_eq!(v[0].position, Vec2 { x: 1_007_000, y: 500_000 });
}

#[test]
fn agent_leaving_boundary_is_not_clamped_by_tick() {
    let mut b = Boid::new((900_000, 500_000), 0);
    b.velocity = Vec2 { x: 110_000, y: 0 };
    let mut f = Flock::new(vec![b], bounds(1_000_000, 1_000_000));
    f.tick(1_000_000);
    let x = f.boids[0].position.x;
    assert!(x > 1_000_000, "x = {}", x);
    let wide = Rect { min_x: -2_000_000, min_y: -2_000_000, max_x: 3_000_000, max_y: 3_000_000 };
    assert_eq!(f.export_visible(&wide).len(), 1);
}
