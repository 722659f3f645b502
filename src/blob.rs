use vstd::prelude::*;
use crate::fixed::{
    Vec2, SCALE, trunc_div, clamp_unit, abs, ceil_root, ceil_sqrt, div_toward_zero,
    lemma_trunc_div, is_ceil_root, lemma_ceil_root_exists,
};

verus! {

/// Tunable parameters shared by every particle of a run, each in millionths.
///
/// `min_distance` is a threshold on the squared distance to the target: at
/// or below it the pull is replaced by damping.
#[derive(Clone, Copy, Debug, PartialEq, Eq, Structural)]
pub struct Config {
    pub max_speed: u32,
    pub gravity: u32,
    pub min_distance: u32,
    pub friction: u32,
    pub time_step: u32,
}

/// The acceleration of a particle at `p` with velocity `v` toward `(tx, ty)`:
/// an inverse-square pull while the squared distance exceeds `min_distance`,
/// otherwise damping against the velocity.
pub open spec fn acceleration(c: Config, p: Vec2, v: Vec2, tx: int, ty: int) -> (int, int) {
    let rx = tx - p.x;
    let ry = ty - p.y;
    let rsq = rx * rx + ry * ry;
    if rsq > c.min_distance * SCALE {
        (trunc_div(c.gravity * SCALE * rx, rsq), trunc_div(c.gravity * SCALE * ry, rsq))
    } else {
        (trunc_div(-(c.friction * v.x), SCALE as int), trunc_div(-(c.friction * v.y), SCALE as int))
    }
}

/// The velocity `(wx, wy)` rescaled to `max_speed` when it is faster than that.
pub open spec fn limited(c: Config, wx: int, wy: int) -> (int, int) {
    let m = c.max_speed as int;
    let nsq = wx * wx + wy * wy;
    if nsq > m * m {
        let n = ceil_root(nsq);
        (trunc_div(wx * m, n), trunc_div(wy * m, n))
    } else {
        (wx, wy)
    }
}

/// A coordinate advanced by one time step at velocity `v`.
pub open spec fn moved(c: Config, p: int, v: int) -> int {
    p + trunc_div(v * c.time_step, SCALE as int)
}

/// One axis after reflection at the edges of the unit interval, as
/// (position, velocity).
pub open spec fn reflected(p: int, v: int) -> (int, int) {
    if p < 0 || p > SCALE {
        (clamp_unit(p), -v)
    } else {
        (p, v)
    }
}

/// The velocity after the pull and the speed limit, before reflection.
pub open spec fn integrated_velocity(c: Config, p: Vec2, v: Vec2, tx: int, ty: int) -> (int, int) {
    let a = acceleration(c, p, v, tx, ty);
    limited(c, v.x + a.0, v.y + a.1)
}

/// The state after one step: (position x, position y, velocity x, velocity y).
pub open spec fn next_state(c: Config, p: Vec2, v: Vec2, tx: int, ty: int) -> (int, int, int, int) {
    let w = integrated_velocity(c, p, v, tx, ty);
    let ex = reflected(moved(c, p.x as int, w.0), w.0);
    let ey = reflected(moved(c, p.y as int, w.1), w.1);
    (ex.0, ey.0, ex.1, ey.1)
}

/// `after` is `before` advanced by one step toward `(tx, ty)`.
pub open spec fn is_step(before: Blob, after: Blob, tx: int, ty: int) -> bool {
    let s = next_state(before.config, before.pos, before.velocity, tx, ty);
    &&& after.config == before.config
    &&& after.pos.x == s.0
    &&& after.pos.y == s.1
    &&& after.velocity.x == s.2
    &&& after.velocity.y == s.3
}

/// A particle of the simulation.
#[derive(Clone, Copy, Debug)]
pub struct Blob {
    pub pos: Vec2,
    pub config: Config,
    pub velocity: Vec2,
}

proof fn lemma_square_le(x: int, b: int)
    requires
        abs(x) <= b,
    ensures
        0 <= x * x <= b * b,
{
    let a = abs(x);
    assert(0 <= a * a <= b * b) by (nonlinear_arith)
        requires
            0 <= a <= b,
    ;
    assert(x * x == a * a) by (nonlinear_arith)
        requires
            a == x || a == -x,
    ;
}

proof fn lemma_abs_le_of_square(x: int, m: int)
    requires
        m >= 0,
        x * x <= m * m,
    ensures
        abs(x) <= m,
{
    let a = abs(x);
    assert(x * x == a * a) by (nonlinear_arith)
        requires
            a == x || a == -x,
    ;
    assert(a <= m) by (nonlinear_arith)
        requires
            a >= 0,
            m >= 0,
            a * a <= m * m,
    ;
}

/// The pull never exceeds the gravity constant `g`, whatever the distance.
proof fn lemma_pull_bound(g: int, r: int, rsq: int)
    requires
        g >= 0,
        rsq > 0,
        rsq >= r * r,
    ensures
        abs(trunc_div(g * r, rsq)) <= g,
{
    let q = abs(trunc_div(g * r, rsq));
    lemma_trunc_div(g * r, rsq);
    let ar = abs(r);
    assert(ar <= rsq) by (nonlinear_arith)
        requires
            ar == r || ar == -r,
            ar >= 0,
            rsq >= r * r,
    ;
    assert(abs(g * r) == g * ar) by (nonlinear_arith)
        requires
            g >= 0,
            ar == abs(r),
            ar == r || ar == -r,
            ar >= 0,
    ;
    assert(g * ar <= g * rsq) by (nonlinear_arith)
        requires
            0 <= ar <= rsq,
            g >= 0,
    ;
    assert(q <= g) by (nonlinear_arith)
        requires
            q >= 0,
            q * rsq <= g * rsq,
            rsq > 0,
            g >= 0,
    ;
}

/// Rescaling by the rounded-up norm never leaves the velocity faster than `m`.
proof fn lemma_limit(wx: int, wy: int, m: int, n: int)
    requires
        m >= 0,
        n > 0,
        wx * wx + wy * wy <= n * n,
    ensures
        trunc_div(wx * m, n) * trunc_div(wx * m, n) + trunc_div(wy * m, n) * trunc_div(wy * m, n)
            <= m * m,
{
    let qx = trunc_div(wx * m, n);
    let qy = trunc_div(wy * m, n);
    lemma_trunc_div(wx * m, n);
    lemma_trunc_div(wy * m, n);
    lemma_scaled_square(qx, wx, m, n);
    lemma_scaled_square(qy, wy, m, n);
    assert(qx * qx + qy * qy <= m * m) by (nonlinear_arith)
        requires
            n > 0,
            m >= 0,
            qx * qx * (n * n) <= wx * wx * (m * m),
            qy * qy * (n * n) <= wy * wy * (m * m),
            wx * wx + wy * wy <= n * n,
    ;
}

proof fn lemma_scaled_square(q: int, w: int, m: int, n: int)
    requires
        m >= 0,
        n > 0,
        abs(q) * n <= abs(w * m),
    ensures
        q * q * (n * n) <= w * w * (m * m),
{
    let aq = abs(q);
    let aw = abs(w);
    assert(abs(w * m) == aw * m) by (nonlinear_arith)
        requires
            m >= 0,
            aw == w || aw == -w,
            aw >= 0,
            abs(w * m) == w * m || abs(w * m) == -(w * m),
            abs(w * m) >= 0,
    ;
    assert(q * q * (n * n) <= w * w * (m * m)) by (nonlinear_arith)
        requires
            aq == q || aq == -q,
            aq >= 0,
            aw == w || aw == -w,
            aw >= 0,
            m >= 0,
            n > 0,
            aq * n <= aw * m,
    ;
}

impl Blob {
    /// The invariant of a particle: its position lies in the unit square and
    /// each velocity component is at most `max_speed` in magnitude.
    pub open spec fn wf(&self) -> bool {
        &&& 0 <= self.pos.x <= SCALE
        &&& 0 <= self.pos.y <= SCALE
        &&& abs(self.velocity.x as int) <= self.config.max_speed
        &&& abs(self.velocity.y as int) <= self.config.max_speed
    }

    /// A particle with the given state, or `None` when the position lies
    /// outside the unit square or a velocity component exceeds `max_speed`.
    pub fn with_state(config: Config, pos: Vec2, velocity: Vec2) -> (r: Option<Blob>)
        ensures
            r is Some <==> {
                &&& 0 <= pos.x <= SCALE
                &&& 0 <= pos.y <= SCALE
                &&& abs(velocity.x as int) <= config.max_speed
                &&& abs(velocity.y as int) <= config.max_speed
            },
            r matches Some(b) ==> b.pos == pos && b.velocity == velocity && b.config == config
                && b.wf(),
    {
        let m: i64 = config.max_speed as i64;
        if 0 <= pos.x && pos.x <= SCALE && 0 <= pos.y && pos.y <= SCALE && -m <= velocity.x
            && velocity.x <= m && -m <= velocity.y && velocity.y <= m {
            Some(Blob { pos, config, velocity })
        } else {
            None
        }
    }

    /// A particle at a uniformly random position of the unit square, with
    /// each velocity component drawn uniformly from `[0, max_speed)`
    /// (zero when `max_speed` is zero).
    pub fn new(config: Config) -> (r: Blob)
        ensures
            r.config == config,
            r.wf(),
            0 <= r.pos.x < SCALE,
            0 <= r.pos.y < SCALE,
            config.max_speed > 0 ==> 0 <= r.velocity.x < config.max_speed,
            config.max_speed > 0 ==> 0 <= r.velocity.y < config.max_speed,
            config.max_speed == 0 ==> r.velocity.x == 0 && r.velocity.y == 0,
    {
        let px = sample_below(SCALE as u32);
        let py = sample_below(SCALE as u32);
        let (vx, vy) = if config.max_speed > 0 {
            (sample_below(config.max_speed), sample_below(config.max_speed))
        } else {
            (0u32, 0u32)
        };
        Blob {
            pos: Vec2 { x: px as i64, y: py as i64 },
            config,
            velocity: Vec2 { x: vx as i64, y: vy as i64 },
        }
    }

    /// Advances the particle by one step toward the target `(target_x, target_y)`.
    pub fn update(&mut self, target_x: i32, target_y: i32)
        requires
            old(self).wf(),
        ensures
            final(self).wf(),
            is_step(*old(self), *final(self), target_x as int, target_y as int),
            final(self).velocity.x * final(self).velocity.x + final(self).velocity.y * final(self).velocity.y
                <= old(self).config.max_speed * old(self).config.max_speed,
    {
        let c = self.config;
        let s: i128 = SCALE as i128;
        let px: i128 = self.pos.x as i128;
        let py: i128 = self.pos.y as i128;
        let vx: i128 = self.velocity.x as i128;
        let vy: i128 = self.velocity.y as i128;
        let m: i128 = c.max_speed as i128;
        let rx: i128 = target_x as i128 - px;
        let ry: i128 = target_y as i128 - py;
        proof {
            lemma_square_le(rx as int, 0x2_0000_0000);
            lemma_square_le(ry as int, 0x2_0000_0000);
        }
        let rsq: i128 = rx * rx + ry * ry;
        let ax: i128;
        let ay: i128;
        if rsq > c.min_distance as i128 * s {
            let g: i128 = c.gravity as i128 * s;
            assert(abs((g * rx) as int) <= 0x1_0000_0000_0000_0000_0000_0000) by (nonlinear_arith)
                requires
                    0 <= g <= 0x10_0000_0000_0000,
                    -0x2_0000_0000 <= rx <= 0x2_0000_0000,
            ;
            assert(abs((g * ry) as int) <= 0x1_0000_0000_0000_0000_0000_0000) by (nonlinear_arith)
                requires
                    0 <= g <= 0x10_0000_0000_0000,
                    -0x2_0000_0000 <= ry <= 0x2_0000_0000,
            ;
            assert(rsq >= rx * rx && rsq >= ry * ry) by (nonlinear_arith)
                requires
                    rsq == rx * rx + ry * ry,
            ;
            proof {
                lemma_pull_bound(g as int, rx as int, rsq as int);
                lemma_pull_bound(g as int, ry as int, rsq as int);
            }
            ax = div_toward_zero(g * rx, rsq);
            ay = div_toward_zero(g * ry, rsq);
        } else {
            let f: i128 = c.friction as i128;
            assert(abs((f * vx) as int) <= 0x1_0000_0000_0000_0000) by (nonlinear_arith)
                requires
                    0 <= f <= 0xffff_ffff,
                    -0xffff_ffff <= vx <= 0xffff_ffff,
            ;
            assert(abs((f * vy) as int) <= 0x1_0000_0000_0000_0000) by (nonlinear_arith)
                requires
                    0 <= f <= 0xffff_ffff,
                    -0xffff_ffff <= vy <= 0xffff_ffff,
            ;
            ax = div_toward_zero(-(f * vx), s);
            ay = div_toward_zero(-(f * vy), s);
        }
        assert(abs(ax as int) <= 0x10_0000_0000_0000 && abs(ay as int) <= 0x10_0000_0000_0000);
        let wx: i128 = vx + ax;
        let wy: i128 = vy + ay;
        proof {
            lemma_square_le(wx as int, 0x20_0000_0000_0000);
            lemma_square_le(wy as int, 0x20_0000_0000_0000);
        }
        let nsq: i128 = wx * wx + wy * wy;
        proof {
            lemma_square_le(m as int, 0xffff_ffff);
        }
        let lx: i128;
        let ly: i128;
        if nsq > m * m {
            let root: u64 = ceil_sqrt(nsq as u128);
            assert(root > 0) by {
                if root == 0 {
                    assert(root * root == 0);
                }
            }
            let n: i128 = root as i128;
            assert(abs((wx * m) as int) <= 0x20_0000_0000_0000_0000_0000) by (nonlinear_arith)
                requires
                    0 <= m <= 0xffff_ffff,
                    -0x20_0000_0000_0000 <= wx <= 0x20_0000_0000_0000,
            ;
            assert(abs((wy * m) as int) <= 0x20_0000_0000_0000_0000_0000) by (nonlinear_arith)
                requires
                    0 <= m <= 0xffff_ffff,
                    -0x20_0000_0000_0000 <= wy <= 0x20_0000_0000_0000,
            ;
            proof {
                lemma_limit(wx as int, wy as int, m as int, n as int);
            }
            lx = div_toward_zero(wx * m, n);
            ly = div_toward_zero(wy * m, n);
        } else {
            lx = wx;
            ly = wy;
        }
        assert(lx * lx + ly * ly <= m * m);
        assert(lx * lx <= m * m && ly * ly <= m * m) by (nonlinear_arith)
            requires
                lx * lx + ly * ly <= m * m,
        ;
        proof {
            lemma_abs_le_of_square(lx as int, m as int);
            lemma_abs_le_of_square(ly as int, m as int);
        }
        let ts: i128 = c.time_step as i128;
        assert(abs((lx * ts) as int) <= 0x1_0000_0000_0000_0000) by (nonlinear_arith)
            requires
                0 <= ts <= 0xffff_ffff,
                -0xffff_ffff <= lx <= 0xffff_ffff,
        ;
        assert(abs((ly * ts) as int) <= 0x1_0000_0000_0000_0000) by (nonlinear_arith)
            requires
                0 <= ts <= 0xffff_ffff,
                -0xffff_ffff <= ly <= 0xffff_ffff,
        ;
        let mx: i128 = px + div_toward_zero(lx * ts, s);
        let my: i128 = py + div_toward_zero(ly * ts, s);
        let (nx, nvx) = reflect_axis(mx, lx);
        let (ny, nvy) = reflect_axis(my, ly);
        assert(nvx * nvx + nvy * nvy == lx * lx + ly * ly) by (nonlinear_arith)
            requires
                nvx == lx || nvx == -lx,
                nvy == ly || nvy == -ly,
        ;
        self.pos = Vec2 { x: nx as i64, y: ny as i64 };
        self.velocity = Vec2 { x: nvx as i64, y: nvy as i64 };
    }
}

/// Relies on rand's `thread_rng` sampled through `Uniform::new(0, high)`:
/// a value drawn from `[0, high)`; `Uniform::new` panics when `high` is 0.
#[verifier::external_body]
fn sample_below(high: u32) -> (r: u32)
    requires
        high > 0,
    ensures
        r < high,
{
    rand::Rng::sample(&mut rand::thread_rng(), rand::distributions::Uniform::new(0u32, high))
}

/// Aiming a particle at its own position takes the damping branch, whatever
/// `min_distance` is, so the squared distance of zero is never a divisor.
pub proof fn lemma_coincident_target_damps(b: Blob)
    requires
        b.wf(),
    ensures
        acceleration(b.config, b.pos, b.velocity, b.pos.x as int, b.pos.y as int) == (
            trunc_div(-(b.config.friction * b.velocity.x), SCALE as int),
            trunc_div(-(b.config.friction * b.velocity.y), SCALE as int),
        ),
{
}

/// A step that carries a coordinate past an edge of the unit square flips
/// that velocity component, keeping its magnitude, and leaves the coordinate
/// exactly on the edge; a coordinate that stays inside keeps both.
pub proof fn lemma_reflection(c: Config, p: Vec2, v: Vec2, tx: int, ty: int)
    ensures
        ({
            let w = integrated_velocity(c, p, v, tx, ty);
            let s = next_state(c, p, v, tx, ty);
            let mx = moved(c, p.x as int, w.0);
            let my = moved(c, p.y as int, w.1);
            &&& mx > SCALE ==> s.0 == SCALE && s.2 == -w.0
            &&& mx < 0 ==> s.0 == 0 && s.2 == -w.0
            &&& 0 <= mx <= SCALE ==> s.0 == mx && s.2 == w.0
            &&& my > SCALE ==> s.1 == SCALE && s.3 == -w.1
            &&& my < 0 ==> s.1 == 0 && s.3 == -w.1
            &&& 0 <= my <= SCALE ==> s.1 == my && s.3 == w.1
        }),
{
}

/// The speed limit only shortens a velocity: each component keeps its sign
/// and does not grow in magnitude.
pub proof fn lemma_limit_keeps_direction(c: Config, wx: int, wy: int)
    ensures
        ({
            let l = limited(c, wx, wy);
            &&& abs(l.0) <= abs(wx)
            &&& abs(l.1) <= abs(wy)
            &&& wx >= 0 ==> l.0 >= 0
            &&& wx <= 0 ==> l.0 <= 0
            &&& wy >= 0 ==> l.1 >= 0
            &&& wy <= 0 ==> l.1 <= 0
        }),
{
    let m = c.max_speed as int;
    let nsq = wx * wx + wy * wy;
    if nsq > m * m {
        let n = ceil_root(nsq);
        assert(0 <= m * m) by (nonlinear_arith);
        assert(exists|r: int| is_ceil_root(nsq, r)) by {
            lemma_ceil_root_exists(nsq);
        }
        assert(is_ceil_root(nsq, n));
        assert(m < n) by (nonlinear_arith)
            requires
                nsq <= n * n,
                nsq > m * m,
                m >= 0,
                n >= 0,
        ;
        lemma_shrink(wx, m, n);
        lemma_shrink(wy, m, n);
    }
}

proof fn lemma_shrink(w: int, m: int, n: int)
    requires
        0 <= m < n,
    ensures
        abs(trunc_div(w * m, n)) <= abs(w),
        w >= 0 ==> trunc_div(w * m, n) >= 0,
        w <= 0 ==> trunc_div(w * m, n) <= 0,
{
    lemma_trunc_div(w * m, n);
    let aw = abs(w);
    let q = abs(trunc_div(w * m, n));
    assert(abs(w * m) == aw * m) by (nonlinear_arith)
        requires
            m >= 0,
            aw == w || aw == -w,
            aw >= 0,
            abs(w * m) == w * m || abs(w * m) == -(w * m),
            abs(w * m) >= 0,
    ;
    assert(q <= aw) by (nonlinear_arith)
        requires
            q >= 0,
            q * n <= aw * m,
            aw >= 0,
            0 <= m < n,
    ;
    assert(w >= 0 ==> w * m >= 0) by (nonlinear_arith)
        requires
            m >= 0,
    ;
    assert(w <= 0 ==> w * m <= 0) by (nonlinear_arith)
        requires
            m >= 0,
    ;
}

/// Reflects one axis at the edges of the unit interval.
fn reflect_axis(p: i128, v: i128) -> (r: (i128, i128))
    requires
        -0xffff_ffff <= v <= 0xffff_ffff,
    ensures
        r.0 == reflected(p as int, v as int).0,
        r.1 == reflected(p as int, v as int).1,
        0 <= r.0 <= SCALE,
{
    if p < 0 || p > SCALE as i128 {
        let q: i128 = if p < 0 {
            0
        } else {
            SCALE as i128
        };
        (q, -v)
    } else {
        (p, v)
    }
}

} // verus!
