use vstd::prelude::*;
use crate::fixed::{
    clamp, clamp_exec, div_away, div_away_exec, div_trunc, div_trunc_exec, sqrt_floor,
    sqrt_floor_exec,
};
use crate::geom::{coord_ok, COORD_LIMIT};

verus! {

/// Positions are in thousandths of a pixel, velocities in thousandths of a pixel
/// per second, time steps in microseconds.
pub const MILLI: i64 = 1000;

pub const MICROS_PER_SECOND: i64 = 1_000_000;

/// Divisor that turns force times gain (thousandths) times time step
/// (microseconds) into a velocity change.
pub const GAIN_SCALE: i64 = 1_000_000_000;

/// Full intensity of a colour channel.
pub const COLOR_ONE: i64 = 1024;

/// Velocity components are kept within this bound.
pub const VEL_LIMIT: i64 = 1_000_000_000;

/// Accumulated forces and counts saturate at this bound.
pub const ACC_LIMIT: i64 = 1_000_000_000_000_000;

/// Bound on sizes, radii and the border margin.
pub const PARAM_LIMIT: i64 = 1_000_000_000;

/// Bound on the per-agent gains.
pub const GAIN_LIMIT: i64 = 1_000_000;

/// Longest time step handed to the integration functions.
pub const DT_LIMIT: i64 = 10_000_000;

/// Weight of a neighbour's colour at distance one.
pub const COLOR_WEIGHT: i64 = 1_000_000_000;

/// The speed floor: after `apply_forces` no agent moves slower.
pub const MIN_SPEED: i64 = 50_000;

/// Each component of the heading a standing agent is given: its speed is twice
/// the floor, to within one unit.
pub const DEFAULT_HEADING: i64 = 70_711;

/// Extra binary digits (16) kept when the distance of two overlapping agents is measured.
pub const SEP_SCALE: i64 = 65_536;

/// Extra binary digits (32) kept when the speed of a slow agent is measured.
pub const ROOT_SCALE: i64 = 4_294_967_296;

#[derive(Clone, Copy, Debug, PartialEq, Eq, Structural)]
pub struct Vec2 {
    pub x: i64,
    pub y: i64,
}

#[derive(Clone, Copy, Debug, PartialEq, Eq, Structural)]
pub struct Rgb {
    pub r: i64,
    pub g: i64,
    pub b: i64,
}

/// One agent of the flock.
#[derive(Clone, Copy, Debug, PartialEq, Eq, Structural)]
pub struct Boid {
    pub position: Vec2,
    pub velocity: Vec2,
    /// Collision radius.
    pub size: i64,
    /// Sum of offsets away from neighbours within the separation radius.
    pub separation_force: Vec2,
    /// Sum of the velocities of neighbours within the alignment threshold.
    pub alignement_force: Vec2,
    /// Sum of the positions of neighbours within the cohesion radius.
    pub cohesion_force: Vec2,
    pub cohesion_number: i64,
    pub alignement_number: i64,
    /// Distance from an edge at which the agent starts turning inward.
    pub border_margin: i64,
    /// Separation radius.
    pub separation: i64,
    /// Alignment radius; alignment uses the product of it and the cohesion radius
    /// as squared threshold.
    pub alignement: i64,
    /// Cohesion radius, also the reach of colour diffusion.
    pub cohesion: i64,
    /// Gains in thousandths per second.
    pub avoid_factor: i64,
    pub matching_factor: i64,
    pub centering_factor: i64,
    /// Velocity added per sub-step near an edge.
    pub turn_factor: i64,
    /// Identity colour, fixed at creation.
    pub color: Rgb,
    /// Colour blended from the neighbours at the last sub-step.
    pub avg_color: Rgb,
    pub avg_color_nominator: Rgb,
    pub avg_color_denominator: i64,
}

pub open spec fn vel_ok(v: Vec2) -> bool {
    -VEL_LIMIT <= v.x <= VEL_LIMIT && -VEL_LIMIT <= v.y <= VEL_LIMIT
}

pub open spec fn acc_ok(v: Vec2) -> bool {
    -ACC_LIMIT <= v.x <= ACC_LIMIT && -ACC_LIMIT <= v.y <= ACC_LIMIT
}

pub open spec fn pos_ok(v: Vec2) -> bool {
    coord_ok(v.x as int) && coord_ok(v.y as int)
}

pub open spec fn color_ok(c: Rgb) -> bool {
    0 <= c.r <= COLOR_ONE && 0 <= c.g <= COLOR_ONE && 0 <= c.b <= COLOR_ONE
}

pub open spec fn sum_ok(c: Rgb) -> bool {
    0 <= c.r <= ACC_LIMIT && 0 <= c.g <= ACC_LIMIT && 0 <= c.b <= ACC_LIMIT
}

/// A colour sum that is at most full intensity times its total weight, as a
/// weighted sum of colours is.
pub open spec fn weighted_mean_ok(sum: Rgb, den: int) -> bool {
    sum.r <= COLOR_ONE * den && sum.g <= COLOR_ONE * den && sum.b <= COLOR_ONE * den
}

pub open spec fn param_ok(v: i64) -> bool {
    0 <= v <= PARAM_LIMIT
}

pub open spec fn gain_ok(v: i64) -> bool {
    0 <= v <= GAIN_LIMIT
}

pub open spec fn dist_sq(a: Vec2, b: Vec2) -> int {
    (a.x - b.x) * (a.x - b.x) + (a.y - b.y) * (a.y - b.y)
}

pub open spec fn speed_sq(v: Vec2) -> int {
    v.x * v.x + v.y * v.y
}

/// Hue `step * pi / 16` on the colour wheel, at full saturation.
pub open spec fn hue_color(step: nat) -> Rgb {
    let t = (step % 32) * 3;
    let f = t % 32;
    let x = (16 - (if f >= 16 { f - 16 } else { 16 - f })) * 64;
    let s = t / 16;
    if s == 0 {
        Rgb { r: COLOR_ONE, g: x as i64, b: 0 }
    } else if s == 1 {
        Rgb { r: x as i64, g: COLOR_ONE, b: 0 }
    } else if s == 2 {
        Rgb { r: 0, g: COLOR_ONE, b: x as i64 }
    } else if s == 3 {
        Rgb { r: 0, g: x as i64, b: COLOR_ONE }
    } else if s == 4 {
        Rgb { r: x as i64, g: 0, b: COLOR_ONE }
    } else {
        Rgb { r: COLOR_ONE, g: 0, b: x as i64 }
    }
}

/// Colour of the agent created `step`-th.
pub fn hue_to_rgb(step: usize) -> (c: Rgb)
    ensures
        c == hue_color(step as nat),
        color_ok(c),
{
    let t: usize = (step % 32) * 3;
    let f: usize = t % 32;
    let dev: usize = if f >= 16 {
        f - 16
    } else {
        16 - f
    };
    let x: i64 = ((16 - dev) * 64) as i64;
    let s: usize = t / 16;
    if s == 0 {
        Rgb { r: COLOR_ONE, g: x, b: 0 }
    } else if s == 1 {
        Rgb { r: x, g: COLOR_ONE, b: 0 }
    } else if s == 2 {
        Rgb { r: 0, g: COLOR_ONE, b: x }
    } else if s == 3 {
        Rgb { r: 0, g: x, b: COLOR_ONE }
    } else if s == 4 {
        Rgb { r: x, g: 0, b: COLOR_ONE }
    } else {
        Rgb { r: COLOR_ONE, g: 0, b: x }
    }
}

impl Boid {
    pub open spec fn wf(self) -> bool {
        pos_ok(self.position) && vel_ok(self.velocity) && param_ok(self.size) && acc_ok(
            self.separation_force,
        ) && acc_ok(self.alignement_force) && acc_ok(self.cohesion_force) && 0
            <= self.cohesion_number <= ACC_LIMIT && 0 <= self.alignement_number <= ACC_LIMIT
            && param_ok(self.border_margin) && param_ok(self.separation) && param_ok(
            self.alignement,
        ) && param_ok(self.cohesion) && gain_ok(self.avoid_factor) && gain_ok(
            self.matching_factor,
        ) && gain_ok(self.centering_factor) && gain_ok(self.turn_factor) && color_ok(self.color)
            && color_ok(self.avg_color) && sum_ok(self.avg_color_nominator) && 0
            <= self.avg_color_denominator <= ACC_LIMIT && weighted_mean_ok(
            self.avg_color_nominator,
            self.avg_color_denominator as int,
        )
    }

    /// An agent at rest at `pos`, coloured after its creation rank `id`.
    pub open spec fn spawned(pos: Vec2, id: nat) -> Boid {
        Boid {
            position: pos,
            velocity: Vec2 { x: 0, y: 0 },
            size: (2 * MILLI) as i64,
            separation_force: Vec2 { x: 0, y: 0 },
            alignement_force: Vec2 { x: 0, y: 0 },
            cohesion_force: Vec2 { x: 0, y: 0 },
            cohesion_number: 0,
            alignement_number: 0,
            border_margin: (50 * MILLI) as i64,
            separation: (8 * MILLI) as i64,
            alignement: (40 * MILLI) as i64,
            cohesion: (40 * MILLI) as i64,
            avoid_factor: (3 * MILLI) as i64,
            matching_factor: (3 * MILLI) as i64,
            centering_factor: 30,
            turn_factor: (2 * MILLI) as i64,
            color: hue_color(id),
            avg_color: hue_color(id),
            avg_color_nominator: Rgb { r: 0, g: 0, b: 0 },
            avg_color_denominator: 0,
        }
    }

    pub fn new(pos: (i64, i64), id: usize) -> (b: Boid)
        requires
            coord_ok(pos.0 as int),
            coord_ok(pos.1 as int),
        ensures
            b == Boid::spawned(Vec2 { x: pos.0, y: pos.1 }, id as nat),
            b.wf(),
    {
        let color = hue_to_rgb(id);
        Boid {
            position: Vec2 { x: pos.0, y: pos.1 },
            velocity: Vec2 { x: 0, y: 0 },
            size: 2 * MILLI,
            separation_force: Vec2 { x: 0, y: 0 },
            alignement_force: Vec2 { x: 0, y: 0 },
            cohesion_force: Vec2 { x: 0, y: 0 },
            cohesion_number: 0,
            alignement_number: 0,
            border_margin: 50 * MILLI,
            separation: 8 * MILLI,
            alignement: 40 * MILLI,
            cohesion: 40 * MILLI,
            avoid_factor: 3 * MILLI,
            matching_factor: 3 * MILLI,
            centering_factor: 30,
            turn_factor: 2 * MILLI,
            color,
            avg_color: color,
            avg_color_nominator: Rgb { r: 0, g: 0, b: 0 },
            avg_color_denominator: 0,
        }
    }
}

/// One axis of the border rule in a box `[0, b]`: a coordinate closer than
/// `size` to an edge is put back at that distance with its velocity stopped;
/// then, closer than `margin` to an edge, the velocity is turned inward by `turn`.
pub open spec fn border_axis(p: int, v: int, size: int, margin: int, turn: int, b: int) -> (int, int) {
    let (pos_in, vel_in) = if p < size {
        (size, 0)
    } else if p > b - size {
        (b - size, 0)
    } else {
        (p, v)
    };
    let vel_low = if pos_in < margin {
        vel_in + turn
    } else {
        vel_in
    };
    let vel_steered = if pos_in > b - margin {
        vel_low - turn
    } else {
        vel_low
    };
    (pos_in, clamp(vel_steered, VEL_LIMIT as int))
}

/// `v` changed by the force `(fx, fy)` through `gain` over `dt`, kept within the
/// velocity bound.
pub open spec fn nudged(v: Vec2, fx: int, fy: int, gain: int, dt: int) -> Vec2 {
    Vec2 {
        x: clamp(v.x + gain_delta(fx, gain, dt), VEL_LIMIT as int) as i64,
        y: clamp(v.y + gain_delta(fy, gain, dt), VEL_LIMIT as int) as i64,
    }
}

/// `p` moved by `v` for `dt` microseconds, kept within the coordinate limit.
pub open spec fn moved(p: Vec2, v: Vec2, dt: int) -> Vec2 {
    Vec2 {
        x: clamp(p.x + div_trunc(v.x * dt, MICROS_PER_SECOND as int), COORD_LIMIT as int) as i64,
        y: clamp(p.y + div_trunc(v.y * dt, MICROS_PER_SECOND as int), COORD_LIMIT as int) as i64,
    }
}

/// `f * gain * dt` scaled back to a velocity change, rounded toward zero.
pub open spec fn gain_delta(f: int, gain: int, dt: int) -> int {
    div_trunc(f * gain * dt, GAIN_SCALE as int)
}

/// The speed floor: a standing agent gets the default heading, a slow one keeps
/// its heading at the floor speed (its speed measured to 32 binary digits below
/// one unit, each component rounded away from zero), a fast one is left alone.
pub open spec fn floored_velocity(v: Vec2) -> Vec2 {
    let sq = speed_sq(v);
    if sq < MIN_SPEED * MIN_SPEED {
        if sq == 0 {
            Vec2 { x: DEFAULT_HEADING, y: DEFAULT_HEADING }
        } else {
            let s = sqrt_floor(sq * (ROOT_SCALE * ROOT_SCALE));
            Vec2 {
                x: div_away(v.x * ROOT_SCALE * MIN_SPEED, s) as i64,
                y: div_away(v.y * ROOT_SCALE * MIN_SPEED, s) as i64,
            }
        }
    } else {
        v
    }
}

fn border_axis_exec(p: i64, v: i64, size: i64, margin: i64, turn: i64, b: i64) -> (r: (i64, i64))
    requires
        coord_ok(p as int),
        -VEL_LIMIT <= v <= VEL_LIMIT,
        param_ok(size),
        param_ok(margin),
        gain_ok(turn),
        0 <= b <= COORD_LIMIT,
    ensures
        (r.0 as int, r.1 as int) == border_axis(
            p as int,
            v as int,
            size as int,
            margin as int,
            turn as int,
            b as int,
        ),
        coord_ok(r.0 as int),
        -VEL_LIMIT <= r.1 <= VEL_LIMIT,
{
    let (pos_in, vel_in) = if p < size {
        (size, 0i64)
    } else if p > b - size {
        (b - size, 0i64)
    } else {
        (p, v)
    };
    let vel_low: i128 = if pos_in < margin {
        vel_in as i128 + turn as i128
    } else {
        vel_in as i128
    };
    let vel_steered: i128 = if pos_in > b - margin {
        vel_low - turn as i128
    } else {
        vel_low
    };
    (pos_in, clamp_exec(vel_steered, VEL_LIMIT))
}

fn gain_delta_exec(f: i128, gain: i64, dt: i64) -> (r: i128)
    requires
        -4 * ACC_LIMIT <= f <= 4 * ACC_LIMIT,
        gain_ok(gain),
        0 <= dt <= DT_LIMIT,
    ensures
        r == gain_delta(f as int, gain as int, dt as int),
        -4 * ACC_LIMIT * GAIN_LIMIT * DT_LIMIT <= r <= 4 * ACC_LIMIT * GAIN_LIMIT * DT_LIMIT,
{
    assert(-4 * ACC_LIMIT * GAIN_LIMIT <= f * gain <= 4 * ACC_LIMIT * GAIN_LIMIT) by (nonlinear_arith)
        requires
            -4 * ACC_LIMIT <= f <= 4 * ACC_LIMIT,
            0 <= gain <= GAIN_LIMIT,
    ;
    let fg = f * gain as i128;
    assert(-4 * ACC_LIMIT * GAIN_LIMIT * DT_LIMIT <= fg * dt <= 4 * ACC_LIMIT * GAIN_LIMIT * DT_LIMIT)
        by (nonlinear_arith)
        requires
            -4 * ACC_LIMIT * GAIN_LIMIT <= fg <= 4 * ACC_LIMIT * GAIN_LIMIT,
            0 <= dt <= DT_LIMIT,
    ;
    let p = fg * dt as i128;
    let r = div_trunc_exec(p, GAIN_SCALE as i128);
    proof {
        let a = p as int;
        let m = GAIN_SCALE as int;
        if a >= 0 {
            vstd::arithmetic::div_mod::lemma_div_is_ordered_by_denominator(a, 1, m);
        } else {
            vstd::arithmetic::div_mod::lemma_div_is_ordered_by_denominator(-a, 1, m);
        }
    }
    r
}

fn apply_gain(v: i64, delta: i128) -> (r: i64)
    requires
        -4 * ACC_LIMIT * GAIN_LIMIT * DT_LIMIT <= delta <= 4 * ACC_LIMIT * GAIN_LIMIT * DT_LIMIT,
    ensures
        r == clamp(v + delta, VEL_LIMIT as int),
        -VEL_LIMIT <= r <= VEL_LIMIT,
{
    clamp_exec(v as i128 + delta, VEL_LIMIT)
}

impl Boid {
    pub open spec fn after_border(self, bx: int, by: int) -> Boid {
        let (px, vx) = border_axis(
            self.position.x as int,
            self.velocity.x as int,
            self.size as int,
            self.border_margin as int,
            self.turn_factor as int,
            bx,
        );
        let (py, vy) = border_axis(
            self.position.y as int,
            self.velocity.y as int,
            self.size as int,
            self.border_margin as int,
            self.turn_factor as int,
            by,
        );
        Boid {
            position: Vec2 { x: px as i64, y: py as i64 },
            velocity: Vec2 { x: vx as i64, y: vy as i64 },
            ..self
        }
    }

    pub open spec fn after_reset(self) -> Boid {
        Boid {
            separation_force: Vec2 { x: 0, y: 0 },
            alignement_force: Vec2 { x: 0, y: 0 },
            cohesion_force: Vec2 { x: 0, y: 0 },
            alignement_number: 0,
            cohesion_number: 0,
            avg_color_nominator: Rgb { r: 0, g: 0, b: 0 },
            avg_color_denominator: 0,
            ..self
        }
    }

    pub open spec fn after_forces(self, dt: int) -> Boid {
        let v = floored_velocity(self.velocity);
        Boid {
            velocity: v,
            position: moved(self.position, v, dt),
            ..self
        }
    }

    pub open spec fn after_separation(self, dt: int) -> Boid {
        Boid {
            velocity: nudged(
                self.velocity,
                self.separation_force.x as int,
                self.separation_force.y as int,
                self.avoid_factor as int,
                dt,
            ),
            ..self
        }
    }

    pub open spec fn after_alignement(self, dt: int) -> Boid {
        if self.alignement_number > 0 {
            let n = self.alignement_number as int;
            let ax = div_trunc(self.alignement_force.x as int, n);
            let ay = div_trunc(self.alignement_force.y as int, n);
            Boid {
                velocity: nudged(
                    self.velocity,
                    ax - self.velocity.x,
                    ay - self.velocity.y,
                    self.matching_factor as int,
                    dt,
                ),
                ..self
            }
        } else {
            self
        }
    }

    pub open spec fn after_cohesion(self, dt: int) -> Boid {
        if self.cohesion_number > 0 {
            let n = self.cohesion_number as int;
            let cx = div_trunc(self.cohesion_force.x as int, n);
            let cy = div_trunc(self.cohesion_force.y as int, n);
            Boid {
                velocity: nudged(
                    self.velocity,
                    cx - self.position.x,
                    cy - self.position.y,
                    self.centering_factor as int,
                    dt,
                ),
                ..self
            }
        } else {
            self
        }
    }

    pub open spec fn after_color(self) -> Boid {
        if self.avg_color_denominator > 0 {
            let d = self.avg_color_denominator as int;
            Boid {
                avg_color: Rgb {
                    r: (self.avg_color_nominator.r as int / d) as i64,
                    g: (self.avg_color_nominator.g as int / d) as i64,
                    b: (self.avg_color_nominator.b as int / d) as i64,
                },
                ..self
            }
        } else {
            Boid { avg_color: self.color, ..self }
        }
    }

    /// Keeps the agent inside the box `[0, bound.0] x [0, bound.1]` and steers it
    /// away from the edges.
    pub fn handle_border_colision(&mut self, bound: (i64, i64))
        requires
            old(self).wf(),
            0 <= bound.0 <= COORD_LIMIT,
            0 <= bound.1 <= COORD_LIMIT,
        ensures
            *final(self) == old(self).after_border(bound.0 as int, bound.1 as int),
            final(self).wf(),
    {
        let (size, margin, turn) = (self.size, self.border_margin, self.turn_factor);
        let (px, vx) = border_axis_exec(self.position.x, self.velocity.x, size, margin, turn, bound.0);
        let (py, vy) = border_axis_exec(self.position.y, self.velocity.y, size, margin, turn, bound.1);
        self.position = Vec2 { x: px, y: py };
        self.velocity = Vec2 { x: vx, y: vy };
    }

    /// Zeroes every accumulator.
    pub fn reset_forces(&mut self)
        requires
            old(self).wf(),
        ensures
            *final(self) == old(self).after_reset(),
            final(self).wf(),
    {
        self.separation_force = Vec2 { x: 0, y: 0 };
        self.alignement_force = Vec2 { x: 0, y: 0 };
        self.cohesion_force = Vec2 { x: 0, y: 0 };
        self.alignement_number = 0;
        self.cohesion_number = 0;
        self.avg_color_nominator = Rgb { r: 0, g: 0, b: 0 };
        self.avg_color_denominator = 0;
    }

    pub fn apply_separation(&mut self, dt: i64)
        requires
            old(self).wf(),
            0 <= dt <= DT_LIMIT,
        ensures
            *final(self) == old(self).after_separation(dt as int),
            final(self).wf(),
    {
        let dx = gain_delta_exec(self.separation_force.x as i128, self.avoid_factor, dt);
        let dy = gain_delta_exec(self.separation_force.y as i128, self.avoid_factor, dt);
        self.velocity = Vec2 {
            x: apply_gain(self.velocity.x, dx),
            y: apply_gain(self.velocity.y, dy),
        };
    }

    /// Steers toward the mean velocity of the neighbours counted, if any.
    pub fn apply_alignement(&mut self, dt: i64)
        requires
            old(self).wf(),
            0 <= dt <= DT_LIMIT,
        ensures
            *final(self) == old(self).after_alignement(dt as int),
            final(self).wf(),
    {
        if self.alignement_number > 0 {
            let n = self.alignement_number as i128;
            let ax = div_trunc_exec(self.alignement_force.x as i128, n);
            let ay = div_trunc_exec(self.alignement_force.y as i128, n);
            proof {
                lemma_div_trunc_bound(self.alignement_force.x as int, n as int);
                lemma_div_trunc_bound(self.alignement_force.y as int, n as int);
            }
            let dx = gain_delta_exec(ax - self.velocity.x as i128, self.matching_factor, dt);
            let dy = gain_delta_exec(ay - self.velocity.y as i128, self.matching_factor, dt);
            self.velocity = Vec2 {
                x: apply_gain(self.velocity.x, dx),
                y: apply_gain(self.velocity.y, dy),
            };
        }
    }

    /// Steers toward the mean position of the neighbours counted, if any.
    pub fn apply_cohesion(&mut self, dt: i64)
        requires
            old(self).wf(),
            0 <= dt <= DT_LIMIT,
        ensures
            *final(self) == old(self).after_cohesion(dt as int),
            final(self).wf(),
    {
        if self.cohesion_number > 0 {
            let n = self.cohesion_number as i128;
            let cx = div_trunc_exec(self.cohesion_force.x as i128, n);
            let cy = div_trunc_exec(self.cohesion_force.y as i128, n);
            proof {
                lemma_div_trunc_bound(self.cohesion_force.x as int, n as int);
                lemma_div_trunc_bound(self.cohesion_force.y as int, n as int);
            }
            let dx = gain_delta_exec(cx - self.position.x as i128, self.centering_factor, dt);
            let dy = gain_delta_exec(cy - self.position.y as i128, self.centering_factor, dt);
            self.velocity = Vec2 {
                x: apply_gain(self.velocity.x, dx),
                y: apply_gain(self.velocity.y, dy),
            };
        }
    }

    /// The blended colour becomes the weighted mean of the neighbours' colours,
    /// or the agent's own colour when no neighbour contributed.
    pub fn apply_color(&mut self)
        requires
            old(self).wf(),
        ensures
            *final(self) == old(self).after_color(),
            final(self).wf(),
    {
        if self.avg_color_denominator > 0 {
            let d = self.avg_color_denominator;
            let n = self.avg_color_nominator;
            proof {
                lemma_mean_bound(n.r as int, d as int);
                lemma_mean_bound(n.g as int, d as int);
                lemma_mean_bound(n.b as int, d as int);
            }
            self.avg_color = Rgb { r: n.r / d, g: n.g / d, b: n.b / d };
        } else {
            self.avg_color = self.color;
        }
    }
}

pub open spec fn min_int(a: int, b: int) -> int {
    if a < b {
        a
    } else {
        b
    }
}

/// Dividing by a positive number, rounding toward zero, never grows the magnitude.
proof fn lemma_div_trunc_shrinks(a: int, m: int)
    requires
        m >= 1,
    ensures
        -(if a >= 0 { a } else { -a }) <= div_trunc(a, m) <= (if a >= 0 { a } else { -a }),
{
    if a >= 0 {
        vstd::arithmetic::div_mod::lemma_div_is_ordered_by_denominator(a, 1, m);
    } else {
        vstd::arithmetic::div_mod::lemma_div_is_ordered_by_denominator(-a, 1, m);
    }
}

proof fn lemma_div_trunc_bound(a: int, n: int)
    requires
        n >= 1,
        -ACC_LIMIT <= a <= ACC_LIMIT,
    ensures
        -ACC_LIMIT <= div_trunc(a, n) <= ACC_LIMIT,
{
    if a >= 0 {
        vstd::arithmetic::div_mod::lemma_div_is_ordered_by_denominator(a, 1, n);
    } else {
        vstd::arithmetic::div_mod::lemma_div_is_ordered_by_denominator(-a, 1, n);
    }
}

proof fn lemma_ceil_div(a: int, s: int)
    requires
        a >= 0,
        s > 0,
    ensures
        ((a + s - 1) / s) * s >= a,
        ((a + s - 1) / s - 1) * s < a,
        (a + s - 1) / s >= 0,
        a <= s * MIN_SPEED ==> (a + s - 1) / s <= MIN_SPEED,
{
    let q = (a + s - 1) / s;
    vstd::arithmetic::div_mod::lemma_fundamental_div_mod(a + s - 1, s);
    vstd::arithmetic::div_mod::lemma_div_pos_is_pos(a + s - 1, s);
    assert(q * s >= a && (q - 1) * s <= a - 1) by (nonlinear_arith)
        requires
            a + s - 1 == s * q + (a + s - 1) % s,
            0 <= (a + s - 1) % s < s,
    ;
    if a <= s * MIN_SPEED {
        assert(q <= MIN_SPEED) by (nonlinear_arith)
            requires
                a + s - 1 == s * q + (a + s - 1) % s,
                0 <= (a + s - 1) % s,
                a <= s * MIN_SPEED,
                s > 0,
        ;
    }
}

/// A component no larger than the square root of the squared speed.
proof fn lemma_component_bound(c: int, other: int, s: int)
    requires
        s >= 0,
        c * c + other * other < (s + 1) * (s + 1),
    ensures
        -s <= c <= s,
{
    assert(c * c < (s + 1) * (s + 1)) by (nonlinear_arith)
        requires
            c * c + other * other < (s + 1) * (s + 1),
    ;
    if c > s {
        assert(c * c >= (s + 1) * (s + 1)) by (nonlinear_arith)
            requires
                c >= s + 1,
                s >= 0,
        ;
    }
    if c < -s {
        assert(c * c >= (s + 1) * (s + 1)) by (nonlinear_arith)
            requires
                -c >= s + 1,
                s >= 0,
        ;
    }
}

/// Scaling each component by `m / s`, rounded away from zero, where `s` is at
/// most the speed, reaches at least speed `m`.
proof fn lemma_rescaled_speed(vx: int, vy: int, s: int, m: int, nx: int, ny: int)
    requires
        s > 0,
        m > 0,
        s * s <= vx * vx + vy * vy,
        nx * nx * (s * s) >= vx * vx * (m * m),
        ny * ny * (s * s) >= vy * vy * (m * m),
    ensures
        nx * nx + ny * ny >= m * m,
{
    assert((nx * nx + ny * ny) * (s * s) >= (s * s) * (m * m)) by (nonlinear_arith)
        requires
            nx * nx * (s * s) >= vx * vx * (m * m),
            ny * ny * (s * s) >= vy * vy * (m * m),
            s * s <= vx * vx + vy * vy,
            m > 0,
    ;
    assert(nx * nx + ny * ny >= m * m) by (nonlinear_arith)
        requires
            (nx * nx + ny * ny) * (s * s) >= (s * s) * (m * m),
            s > 0,
    ;
}

proof fn lemma_square_mono(a: int, b: int)
    requires
        0 <= b <= a,
    ensures
        b * b <= a * a,
{
    assert(b * b <= a * a) by (nonlinear_arith)
        requires
            0 <= b <= a,
    ;
}

pub open spec fn abs(x: int) -> int {
    if x >= 0 {
        x
    } else {
        -x
    }
}

/// Rescales one component: `c * MIN_SPEED / s`, rounded away from zero.
fn rescale(c: i128, other: i128, s: i128) -> (r: i64)
    requires
        -MIN_SPEED * ROOT_SCALE <= c <= MIN_SPEED * ROOT_SCALE,
        0 < s < 0x8_0000_0000_0000,
        c * c + other * other < (s + 1) * (s + 1),
    ensures
        r == div_away(c * MIN_SPEED, s as int),
        -MIN_SPEED <= r <= MIN_SPEED,
        r * r * (s * s) >= c * c * (MIN_SPEED * MIN_SPEED),
        r == 0 || (abs(r as int) - 1) * s < abs(c as int) * MIN_SPEED,
{
    assert(-MIN_SPEED * ROOT_SCALE * MIN_SPEED <= c * MIN_SPEED <= MIN_SPEED * ROOT_SCALE * MIN_SPEED)
        by (nonlinear_arith)
        requires
            -MIN_SPEED * ROOT_SCALE <= c <= MIN_SPEED * ROOT_SCALE,
    ;
    let r = div_away_exec(c * MIN_SPEED as i128, s);
    proof {
        lemma_component_bound(c as int, other as int, s as int);
        let a = abs(c as int) * MIN_SPEED;
        assert(a <= s * MIN_SPEED) by (nonlinear_arith)
            requires
                -s <= c <= s,
                a == abs(c as int) * MIN_SPEED,
        ;
        assert(a == if c >= 0 { c * MIN_SPEED } else { -c * MIN_SPEED });
        lemma_ceil_div(a, s as int);
        let q = (a + s - 1) / (s as int);
        assert(r == q || r == -q);
        assert(r * r == q * q) by (nonlinear_arith)
            requires
                r == q || r == -q,
        ;
        lemma_square_mono(q * s, a);
        assert(q * q * (s * s) == (q * s) * (q * s)) by (nonlinear_arith);
        assert(a * a == c * c * (MIN_SPEED * MIN_SPEED)) by (nonlinear_arith)
            requires
                a == abs(c as int) * MIN_SPEED,
        ;
    }
    r as i64
}

proof fn lemma_abs_square(x: int)
    ensures
        abs(x) * abs(x) == x * x,
        abs(x) >= 0,
{
    assert(abs(x) * abs(x) == x * x) by (nonlinear_arith)
        requires
            abs(x) == x || abs(x) == -x,
    ;
}

/// Components each at most one unit above `(x, y)`, where `(x, y)` scaled by
/// `s` stays within the floor speed scaled by `s + 1`, stay within the floor
/// speed plus two.
proof fn lemma_rescaled_upper(x: int, y: int, s: int, m: int, big: int)
    requires
        x >= 0,
        y >= 0,
        m >= 4,
        s >= m * m + 1,
        x * x * (s * s) + y * y * (s * s) <= big * (m * m),
        0 <= big < (s + 1) * (s + 1),
    ensures
        (x + 1) * (x + 1) + (y + 1) * (y + 1) <= (m + 2) * (m + 2),
{
    assert((x * x + y * y) * (s * s) < (s + 1) * (s + 1) * (m * m)) by (nonlinear_arith)
        requires
            x * x * (s * s) + y * y * (s * s) <= big * (m * m),
            0 <= big < (s + 1) * (s + 1),
            m >= 4,
    ;
    assert((s + 1) * (s + 1) * (m * m) <= (m * m + 2) * (s * s)) by (nonlinear_arith)
        requires
            s >= m * m + 1,
            m >= 4,
    ;
    assert(x * x + y * y <= m * m + 1) by (nonlinear_arith)
        requires
            (x * x + y * y) * (s * s) < (m * m + 2) * (s * s),
            s > 0,
    ;
    assert(2 * (x + y) < 3 * m) by (nonlinear_arith)
        requires
            x * x + y * y <= m * m + 1,
            x >= 0,
            y >= 0,
            m >= 4,
    ;
    assert((x + 1) * (x + 1) + (y + 1) * (y + 1) <= (m + 2) * (m + 2)) by (nonlinear_arith)
        requires
            x * x + y * y <= m * m + 1,
            2 * (x + y) < 3 * m,
    ;
}

fn floor_velocity(v: Vec2) -> (r: Vec2)
    requires
        vel_ok(v),
    ensures
        r == floored_velocity(v),
        vel_ok(r),
        speed_sq(r) >= MIN_SPEED * MIN_SPEED,
        speed_sq(v) == 0 ==> speed_sq(r) == 2 * DEFAULT_HEADING * DEFAULT_HEADING,
        0 < speed_sq(v) < MIN_SPEED * MIN_SPEED ==> speed_sq(r) <= (MIN_SPEED + 2) * (MIN_SPEED + 2),
{
    assert(0 <= v.x * v.x <= VEL_LIMIT * VEL_LIMIT && 0 <= v.y * v.y <= VEL_LIMIT * VEL_LIMIT)
        by (nonlinear_arith)
        requires
            vel_ok(v),
    ;
    let sq: i128 = v.x as i128 * v.x as i128 + v.y as i128 * v.y as i128;
    if sq < MIN_SPEED as i128 * MIN_SPEED as i128 {
        if sq == 0 {
            let r = Vec2 { x: DEFAULT_HEADING, y: DEFAULT_HEADING };
            assert(r.x * r.x + r.y * r.y >= MIN_SPEED * MIN_SPEED && r.x * r.x + r.y * r.y == 2
                * DEFAULT_HEADING * DEFAULT_HEADING) by (nonlinear_arith)
                requires
                    r.x == DEFAULT_HEADING,
                    r.y == DEFAULT_HEADING,
            ;
            r
        } else {
            let k = ROOT_SCALE as i128;
            let big = sq * (k * k);
            let s = sqrt_floor_exec(big as u128) as i128;
            let cx = v.x as i128 * k;
            let cy = v.y as i128 * k;
            proof {
                let m = MIN_SPEED as int;
                assert(cx * cx + cy * cy == big) by (nonlinear_arith)
                    requires
                        cx == v.x * k,
                        cy == v.y * k,
                        big == (v.x * v.x + v.y * v.y) * (k * k),
                ;
                lemma_component_bound(v.x as int, v.y as int, m - 1);
                lemma_component_bound(v.y as int, v.x as int, m - 1);
                assert(-m * k <= cx <= m * k && -m * k <= cy <= m * k) by (nonlinear_arith)
                    requires
                        -m + 1 <= v.x <= m - 1,
                        -m + 1 <= v.y <= m - 1,
                        cx == v.x * k,
                        cy == v.y * k,
                        k > 0,
                ;
                if s < k {
                    lemma_square_mono(k as int, s + 1);
                    assert(k * k <= big) by (nonlinear_arith)
                        requires
                            big == sq * (k * k),
                            sq >= 1,
                    ;
                }
            }
            let nx = rescale(cx, cy, s);
            let ny = rescale(cy, cx, s);
            proof {
                let m = MIN_SPEED as int;
                lemma_rescaled_speed(cx as int, cy as int, s as int, m, nx as int, ny as int);
                let x = if nx == 0 { 0 } else { abs(nx as int) - 1 };
                let y = if ny == 0 { 0 } else { abs(ny as int) - 1 };
                assert(x * s <= abs(cx as int) * m && y * s <= abs(cy as int) * m);
                lemma_square_mono(abs(cx as int) * m, x * s);
                lemma_square_mono(abs(cy as int) * m, y * s);
                lemma_abs_square(cx as int);
                lemma_abs_square(cy as int);
                let ax = abs(cx as int);
                let ay = abs(cy as int);
                assert(x * x * (s * s) == (x * s) * (x * s)) by (nonlinear_arith);
                assert(y * y * (s * s) == (y * s) * (y * s)) by (nonlinear_arith);
                assert((ax * m) * (ax * m) == (ax * ax) * (m * m)) by (nonlinear_arith);
                assert((ay * m) * (ay * m) == (ay * ay) * (m * m)) by (nonlinear_arith);
                assert((cx * cx) * (m * m) + (cy * cy) * (m * m) == big * (m * m)) by (nonlinear_arith)
                    requires
                        cx * cx + cy * cy == big,
                ;
                lemma_rescaled_upper(x, y, s as int, m, big as int);
                lemma_square_mono(x + 1, abs(nx as int));
                lemma_square_mono(y + 1, abs(ny as int));
                lemma_abs_square(nx as int);
                lemma_abs_square(ny as int);
            }
            Vec2 { x: nx, y: ny }
        }
    } else {
        v
    }
}

impl Boid {
    /// Enforces the speed floor, then moves the agent by `velocity * dt`.
    pub fn apply_forces(&mut self, dt: i64)
        requires
            old(self).wf(),
            0 <= dt <= DT_LIMIT,
        ensures
            *final(self) == old(self).after_forces(dt as int),
            final(self).wf(),
            speed_sq(final(self).velocity) >= MIN_SPEED * MIN_SPEED,
            speed_sq(old(self).velocity) == 0 ==> speed_sq(final(self).velocity) == 2
                * DEFAULT_HEADING * DEFAULT_HEADING,
            0 < speed_sq(old(self).velocity) < MIN_SPEED * MIN_SPEED ==> speed_sq(
                final(self).velocity,
            ) <= (MIN_SPEED + 2) * (MIN_SPEED + 2),
    {
        let v = floor_velocity(self.velocity);
        assert(-VEL_LIMIT * DT_LIMIT <= v.x * dt <= VEL_LIMIT * DT_LIMIT && -VEL_LIMIT * DT_LIMIT
            <= v.y * dt <= VEL_LIMIT * DT_LIMIT) by (nonlinear_arith)
            requires
                vel_ok(v),
                0 <= dt <= DT_LIMIT,
        ;
        let mx = div_trunc_exec(v.x as i128 * dt as i128, MICROS_PER_SECOND as i128);
        let my = div_trunc_exec(v.y as i128 * dt as i128, MICROS_PER_SECOND as i128);
        proof {
            lemma_div_trunc_shrinks(v.x * dt, MICROS_PER_SECOND as int);
            lemma_div_trunc_shrinks(v.y * dt, MICROS_PER_SECOND as int);
        }
        self.velocity = v;
        self.position = Vec2 {
            x: clamp_exec(self.position.x as i128 + mx, COORD_LIMIT),
            y: clamp_exec(self.position.y as i128 + my, COORD_LIMIT),
        };
    }
}

pub open spec fn sat(v: int) -> int {
    clamp(v, ACC_LIMIT as int)
}

/// `v + (dx, dy)`, each component saturating at the accumulator bound.
pub open spec fn sat_add(v: Vec2, dx: int, dy: int) -> Vec2 {
    Vec2 { x: sat(v.x + dx) as i64, y: sat(v.y + dy) as i64 }
}

/// `p + (dx, dy)`, kept within the coordinate limit.
pub open spec fn shifted(p: Vec2, dx: int, dy: int) -> Vec2 {
    Vec2 {
        x: clamp(p.x + dx, COORD_LIMIT as int) as i64,
        y: clamp(p.y + dy, COORD_LIMIT as int) as i64,
    }
}

pub open spec fn max_int(a: int, b: int) -> int {
    if a > b {
        a
    } else {
        b
    }
}

/// Separation of `a` and `b`, judged by `a`'s radius: each accumulates the
/// offset away from the other; if they overlap, both are pushed apart along the
/// line between them by half the overlap. Distance and overlap are measured
/// to 16 binary digits below one unit.
pub open spec fn separation_pair(a: Boid, b: Boid) -> (Boid, Boid) {
    let d2 = dist_sq(a.position, b.position);
    if d2 < a.separation * a.separation {
        let dx = a.position.x - b.position.x;
        let dy = a.position.y - b.position.y;
        let a1 = Boid {
            separation_force: sat_add(a.separation_force, dx, dy),
            ..a
        };
        let b1 = Boid {
            separation_force: sat_add(b.separation_force, -dx, -dy),
            ..b
        };
        let sum = a.size + b.size;
        if d2 < sum * sum {
            let dist = max_int(sqrt_floor(d2 * (SEP_SCALE * SEP_SCALE)), 1);
            let overlap = max_int(sum * SEP_SCALE - dist, 0) / 2;
            let mx = div_trunc(dx * overlap, dist);
            let my = div_trunc(dy * overlap, dist);
            (
                Boid { position: shifted(a.position, mx, my), ..a1 },
                Boid { position: shifted(b.position, -mx, -my), ..b1 },
            )
        } else {
            (a1, b1)
        }
    } else {
        (a, b)
    }
}

/// Alignment, judged by `a`'s alignment and cohesion radii: each counts the
/// other and accumulates its velocity.
pub open spec fn alignement_pair(a: Boid, b: Boid) -> (Boid, Boid) {
    if dist_sq(a.position, b.position) < a.alignement * a.cohesion {
        (
            Boid {
                alignement_number: min_int(a.alignement_number + 1, ACC_LIMIT as int) as i64,
                alignement_force: sat_add(a.alignement_force, b.velocity.x as int, b.velocity.y as int),
                ..a
            },
            Boid {
                alignement_number: min_int(b.alignement_number + 1, ACC_LIMIT as int) as i64,
                alignement_force: sat_add(b.alignement_force, a.velocity.x as int, a.velocity.y as int),
                ..b
            },
        )
    } else {
        (a, b)
    }
}

/// Cohesion, judged by `a`'s cohesion radius: each counts the other and
/// accumulates its position.
pub open spec fn cohesion_pair(a: Boid, b: Boid) -> (Boid, Boid) {
    if dist_sq(a.position, b.position) < a.cohesion * a.cohesion {
        (
            Boid {
                cohesion_number: min_int(a.cohesion_number + 1, ACC_LIMIT as int) as i64,
                cohesion_force: sat_add(a.cohesion_force, b.position.x as int, b.position.y as int),
                ..a
            },
            Boid {
                cohesion_number: min_int(b.cohesion_number + 1, ACC_LIMIT as int) as i64,
                cohesion_force: sat_add(b.cohesion_force, a.position.x as int, a.position.y as int),
                ..b
            },
        )
    } else {
        (a, b)
    }
}

/// A colour sum with `c * w` added, saturating.
pub open spec fn add_weighted(sum: Rgb, c: Rgb, w: int) -> Rgb {
    Rgb {
        r: min_int(sum.r + c.r * w, ACC_LIMIT as int) as i64,
        g: min_int(sum.g + c.g * w, ACC_LIMIT as int) as i64,
        b: min_int(sum.b + c.b * w, ACC_LIMIT as int) as i64,
    }
}

/// Colour diffusion within `a`'s cohesion radius: each adds the other's blended
/// colour weighted by the inverse of their distance (at least one unit).
pub open spec fn color_pair(a: Boid, b: Boid) -> (Boid, Boid) {
    let d2 = dist_sq(a.position, b.position);
    if d2 < a.cohesion * a.cohesion {
        let w = COLOR_WEIGHT as int / max_int(sqrt_floor(d2), 1);
        (
            Boid {
                avg_color_nominator: add_weighted(a.avg_color_nominator, b.avg_color, w),
                avg_color_denominator: min_int(a.avg_color_denominator + w, ACC_LIMIT as int) as i64,
                ..a
            },
            Boid {
                avg_color_nominator: add_weighted(b.avg_color_nominator, a.avg_color, w),
                avg_color_denominator: min_int(b.avg_color_denominator + w, ACC_LIMIT as int) as i64,
                ..b
            },
        )
    } else {
        (a, b)
    }
}

fn dist_sq_exec(a: Vec2, b: Vec2) -> (r: i128)
    requires
        pos_ok(a),
        pos_ok(b),
    ensures
        r == dist_sq(a, b),
        0 <= r <= 8 * COORD_LIMIT * COORD_LIMIT,
{
    let dx = a.x as i128 - b.x as i128;
    let dy = a.y as i128 - b.y as i128;
    assert(0 <= dx * dx <= 4 * COORD_LIMIT * COORD_LIMIT && 0 <= dy * dy <= 4 * COORD_LIMIT
        * COORD_LIMIT) by (nonlinear_arith)
        requires
            -2 * COORD_LIMIT <= dx <= 2 * COORD_LIMIT,
            -2 * COORD_LIMIT <= dy <= 2 * COORD_LIMIT,
    ;
    dx * dx + dy * dy
}

fn product(a: i128, b: i128) -> (r: i128)
    requires
        0 <= a <= 2 * PARAM_LIMIT,
        0 <= b <= 2 * PARAM_LIMIT,
    ensures
        r == a * b,
{
    assert(0 <= a * b <= 4 * PARAM_LIMIT * PARAM_LIMIT) by (nonlinear_arith)
        requires
            0 <= a <= 2 * PARAM_LIMIT,
            0 <= b <= 2 * PARAM_LIMIT,
    ;
    a * b
}

fn sat_add_exec(v: Vec2, dx: i128, dy: i128) -> (r: Vec2)
    requires
        -2 * COORD_LIMIT <= dx <= 2 * COORD_LIMIT,
        -2 * COORD_LIMIT <= dy <= 2 * COORD_LIMIT,
    ensures
        r == sat_add(v, dx as int, dy as int),
{
    Vec2 {
        x: clamp_exec(v.x as i128 + dx, ACC_LIMIT),
        y: clamp_exec(v.y as i128 + dy, ACC_LIMIT),
    }
}

fn min_acc(v: i128) -> (r: i64)
    requires
        v >= 0,
    ensures
        r == min_int(v as int, ACC_LIMIT as int),
{
    if v < ACC_LIMIT as i128 {
        v as i64
    } else {
        ACC_LIMIT
    }
}

/// Moves one coordinate of a pair apart by `delta * overlap / dist`.
fn push_apart(p: i64, delta: i128, overlap: i128, dist: i128, sign: i128) -> (r: i64)
    requires
        -2 * COORD_LIMIT <= delta <= 2 * COORD_LIMIT,
        0 <= overlap <= PARAM_LIMIT * SEP_SCALE,
        dist >= 1,
        sign == 1 || sign == -1,
        coord_ok(p as int),
    ensures
        r == clamp(p + sign * div_trunc(delta * overlap, dist as int), COORD_LIMIT as int),
{
    assert(-2 * COORD_LIMIT * PARAM_LIMIT * SEP_SCALE <= delta * overlap <= 2 * COORD_LIMIT
        * PARAM_LIMIT * SEP_SCALE) by (nonlinear_arith)
        requires
            -2 * COORD_LIMIT <= delta <= 2 * COORD_LIMIT,
            0 <= overlap <= PARAM_LIMIT * SEP_SCALE,
    ;
    let m = div_trunc_exec(delta * overlap, dist);
    proof {
        let a = delta * overlap;
        if a >= 0 {
            vstd::arithmetic::div_mod::lemma_div_is_ordered_by_denominator(a, 1, dist as int);
        } else {
            vstd::arithmetic::div_mod::lemma_div_is_ordered_by_denominator(-a, 1, dist as int);
        }
    }
    clamp_exec(p as i128 + sign * m, COORD_LIMIT)
}

impl Boid {
    #[verifier::rlimit(30)]
    pub fn handle_separation(&mut self, other: &mut Boid)
        requires
            old(self).wf(),
            old(other).wf(),
        ensures
            (*final(self), *final(other)) == separation_pair(*old(self), *old(other)),
            final(self).wf(),
            final(other).wf(),
    {
        let d2 = dist_sq_exec(self.position, other.position);
        let r = self.separation as i128;
        if d2 < product(r, r) {
            let dx = self.position.x as i128 - other.position.x as i128;
            let dy = self.position.y as i128 - other.position.y as i128;
            self.separation_force = sat_add_exec(self.separation_force, dx, dy);
            other.separation_force = sat_add_exec(other.separation_force, -dx, -dy);
            let sum = self.size as i128 + other.size as i128;
            if d2 < product(sum, sum) {
                let k = SEP_SCALE as i128;
                assert(d2 * (k * k) < 0x4_0000_0000_0000_0000_0000_0000) by (nonlinear_arith)
                    requires
                        0 <= d2 < sum * sum,
                        0 <= sum <= 2 * PARAM_LIMIT,
                        k == SEP_SCALE,
                ;
                let root = sqrt_floor_exec((d2 * (k * k)) as u128) as i128;
                let dist = if root > 1 { root } else { 1 };
                let gap = if sum * k - dist > 0 { sum * k - dist } else { 0 };
                let overlap = gap / 2;
                proof {
                    let d2s = dist_sq(old(self).position, old(other).position);
                    assert(d2 == d2s);
                    assert(d2 * (k * k) == d2s * (SEP_SCALE * SEP_SCALE));
                    assert(dist == max_int(sqrt_floor(d2s * (SEP_SCALE * SEP_SCALE)), 1));
                    assert(sum == old(self).size + old(other).size);
                    assert(overlap == max_int(sum * SEP_SCALE - dist, 0) / 2);
                }
                let (ax, ay) = (self.position.x, self.position.y);
                let (bx, by) = (other.position.x, other.position.y);
                self.position = Vec2 {
                    x: push_apart(ax, dx, overlap, dist, 1),
                    y: push_apart(ay, dy, overlap, dist, 1),
                };
                other.position = Vec2 {
                    x: push_apart(bx, dx, overlap, dist, -1),
                    y: push_apart(by, dy, overlap, dist, -1),
                };
            }
        }
    }

    pub fn handle_alignement(&mut self, other: &mut Boid)
        requires
            old(self).wf(),
            old(other).wf(),
        ensures
            (*final(self), *final(other)) == alignement_pair(*old(self), *old(other)),
            final(self).wf(),
            final(other).wf(),
    {
        let d2 = dist_sq_exec(self.position, other.position);
        if d2 < product(self.alignement as i128, self.cohesion as i128) {
            let (av, bv) = (self.velocity, other.velocity);
            self.alignement_number = min_acc(self.alignement_number as i128 + 1);
            self.alignement_force = sat_add_exec(self.alignement_force, bv.x as i128, bv.y as i128);
            other.alignement_number = min_acc(other.alignement_number as i128 + 1);
            other.alignement_force = sat_add_exec(other.alignement_force, av.x as i128, av.y as i128);
        }
    }

    pub fn handle_cohesion(&mut self, other: &mut Boid)
        requires
            old(self).wf(),
            old(other).wf(),
        ensures
            (*final(self), *final(other)) == cohesion_pair(*old(self), *old(other)),
            final(self).wf(),
            final(other).wf(),
    {
        let d2 = dist_sq_exec(self.position, other.position);
        if d2 < product(self.cohesion as i128, self.cohesion as i128) {
            let (ap, bp) = (self.position, other.position);
            self.cohesion_number = min_acc(self.cohesion_number as i128 + 1);
            self.cohesion_force = sat_add_exec(self.cohesion_force, bp.x as i128, bp.y as i128);
            other.cohesion_number = min_acc(other.cohesion_number as i128 + 1);
            other.cohesion_force = sat_add_exec(other.cohesion_force, ap.x as i128, ap.y as i128);
        }
    }

    pub fn handle_color(&mut self, other: &mut Boid)
        requires
            old(self).wf(),
            old(other).wf(),
        ensures
            (*final(self), *final(other)) == color_pair(*old(self), *old(other)),
            final(self).wf(),
            final(other).wf(),
    {
        let d2 = dist_sq_exec(self.position, other.position);
        if d2 < product(self.cohesion as i128, self.cohesion as i128) {
            let root = sqrt_floor_exec(d2 as u128) as i128;
            let dist = if root > 1 { root } else { 1 };
            let w = COLOR_WEIGHT as i128 / dist;
            proof {
                lemma_div_trunc_shrinks(COLOR_WEIGHT as int, dist as int);
            }
            let (ac, bc) = (self.avg_color, other.avg_color);
            proof {
                lemma_blend_bound(self.avg_color_nominator, self.avg_color_denominator as int, bc, w as int);
                lemma_blend_bound(other.avg_color_nominator, other.avg_color_denominator as int, ac, w as int);
            }
            self.avg_color_nominator = weighted_sum(self.avg_color_nominator, bc, w);
            self.avg_color_denominator = min_acc(self.avg_color_denominator as i128 + w);
            other.avg_color_nominator = weighted_sum(other.avg_color_nominator, ac, w);
            other.avg_color_denominator = min_acc(other.avg_color_denominator as i128 + w);
        }
    }
}

proof fn lemma_mean_bound(n: int, d: int)
    requires
        0 <= n <= COLOR_ONE * d,
        d > 0,
    ensures
        0 <= n / d <= COLOR_ONE,
{
    vstd::arithmetic::div_mod::lemma_div_is_ordered(n, COLOR_ONE * d, d);
    vstd::arithmetic::div_mod::lemma_div_by_multiple(COLOR_ONE as int, d);
    vstd::arithmetic::div_mod::lemma_div_pos_is_pos(n, d);
}

/// Adding a colour of weight `w` keeps a colour sum within full intensity
/// times its weight, saturation included.
proof fn lemma_blend_bound(sum: Rgb, den: int, c: Rgb, w: int)
    requires
        sum_ok(sum),
        0 <= den <= ACC_LIMIT,
        weighted_mean_ok(sum, den),
        color_ok(c),
        w >= 0,
    ensures
        weighted_mean_ok(add_weighted(sum, c, w), min_int(den + w, ACC_LIMIT as int)),
{
    assert(c.r * w <= COLOR_ONE * w && c.g * w <= COLOR_ONE * w && c.b * w <= COLOR_ONE * w)
        by (nonlinear_arith)
        requires
            color_ok(c),
            w >= 0,
    ;
    assert(COLOR_ONE * den + COLOR_ONE * w == COLOR_ONE * (den + w)) by (nonlinear_arith);
}

fn weighted_sum(sum: Rgb, c: Rgb, w: i128) -> (r: Rgb)
    requires
        sum_ok(sum),
        color_ok(c),
        0 <= w <= COLOR_WEIGHT,
    ensures
        r == add_weighted(sum, c, w as int),
        sum_ok(r),
{
    assert(0 <= c.r * w <= COLOR_ONE * COLOR_WEIGHT && 0 <= c.g * w <= COLOR_ONE * COLOR_WEIGHT
        && 0 <= c.b * w <= COLOR_ONE * COLOR_WEIGHT) by (nonlinear_arith)
        requires
            color_ok(c),
            0 <= w <= COLOR_WEIGHT,
    ;
    Rgb {
        r: min_acc(sum.r as i128 + c.r as i128 * w),
        g: min_acc(sum.g as i128 + c.g as i128 * w),
        b: min_acc(sum.b as i128 + c.b as i128 * w),
    }
}

/// After the border rule in a box `[0, bx] x [0, by]` wide enough for the agent,
/// each coordinate lies in `[size, bound - size]`. A coordinate that was outside
/// that range also has its velocity component stopped, wherever the steering
/// band (`border_margin`) does not reach past `size`.
pub proof fn lemma_border_clamps(a: Boid, bx: int, by: int)
    requires
        a.wf(),
        0 <= bx <= COORD_LIMIT,
        0 <= by <= COORD_LIMIT,
        2 * a.size <= bx,
        2 * a.size <= by,
    ensures
        a.size <= a.after_border(bx, by).position.x <= bx - a.size,
        a.size <= a.after_border(bx, by).position.y <= by - a.size,
        (a.position.x < a.size || a.position.x > bx - a.size) && a.border_margin <= a.size
            && a.size + a.border_margin <= bx ==> a.after_border(bx, by).velocity.x == 0,
        (a.position.y < a.size || a.position.y > by - a.size) && a.border_margin <= a.size
            && a.size + a.border_margin <= by ==> a.after_border(bx, by).velocity.y == 0,
{
}

/// Two agents within the first one's separation radius receive separation
/// contributions of equal size and opposite sign, the offset between them,
/// as long as neither accumulator saturates.
pub proof fn lemma_separation_opposite(a: Boid, b: Boid)
    requires
        a.wf(),
        b.wf(),
        dist_sq(a.position, b.position) < a.separation * a.separation,
        -ACC_LIMIT <= a.separation_force.x + (a.position.x - b.position.x) <= ACC_LIMIT,
        -ACC_LIMIT <= a.separation_force.y + (a.position.y - b.position.y) <= ACC_LIMIT,
        -ACC_LIMIT <= b.separation_force.x - (a.position.x - b.position.x) <= ACC_LIMIT,
        -ACC_LIMIT <= b.separation_force.y - (a.position.y - b.position.y) <= ACC_LIMIT,
    ensures
        separation_pair(a, b).0.separation_force.x - a.separation_force.x == a.position.x
            - b.position.x,
        separation_pair(a, b).0.separation_force.y - a.separation_force.y == a.position.y
            - b.position.y,
        separation_pair(a, b).1.separation_force.x - b.separation_force.x == -(
        separation_pair(a, b).0.separation_force.x - a.separation_force.x),
        separation_pair(a, b).1.separation_force.y - b.separation_force.y == -(
        separation_pair(a, b).0.separation_force.y - a.separation_force.y),
{
}

proof fn lemma_dist_sq_symmetric(a: Vec2, b: Vec2)
    ensures
        dist_sq(a, b) == dist_sq(b, a),
{
    assert(dist_sq(a, b) == dist_sq(b, a)) by (nonlinear_arith);
}

/// An agent that no neighbour reaches within either one's cohesion radius keeps
/// its own colour: after the reset, colour diffusion with such a neighbour (as
/// the scanning agent or as the one scanned) adds nothing, and `apply_color`
/// then falls back to the identity colour.
pub proof fn lemma_isolated_keeps_color(a: Boid, b: Boid)
    requires
        dist_sq(a.position, b.position) >= a.cohesion * a.cohesion,
        dist_sq(a.position, b.position) >= b.cohesion * b.cohesion,
    ensures
        a.after_reset().after_color().avg_color == a.color,
        color_pair(a.after_reset(), b).0.after_color().avg_color == a.color,
        color_pair(b, a.after_reset()).1.after_color().avg_color == a.color,
{
    lemma_dist_sq_symmetric(a.position, b.position);
}

} // verus!
