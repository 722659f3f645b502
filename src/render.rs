use vstd::prelude::*;
use crate::fixed::{Vec2, SCALE, trunc_div, abs, ceil_root, ceil_sqrt, div_toward_zero};
use crate::blob::Blob;

verus! {

/// Largest number of particles a frame carries to the compositor.
pub const MAX_BLOBS: usize = 40;

/// Radius of every blob, in millionths.
pub const BLOB_RADIUS: i64 = 20_000;

/// Width over which the smooth minimum blends two fields, in millionths.
pub const SMOOTHING: i64 = 100_000;

/// Field value that stands for "no blob nearby", in millionths.
pub const SENTINEL: i64 = 99_000_000;

/// Width of the anti-aliased band at the edge of the shape, in millionths.
pub const EDGE_WIDTH: i64 = 1_000;

/// Largest magnitude of a field value that `smooth_min` accepts.
pub const FIELD_LIMIT: i64 = 0x1000_0000_0000_0000;

/// A particle position as the compositor sees it: the y axis points the other way.
pub open spec fn flipped(p: Vec2) -> Vec2 {
    Vec2 { x: p.x, y: (SCALE - p.y) as i64 }
}

/// The centers that the compositor draws for a population: those of the
/// first `MAX_BLOBS` particles, in population order.
pub open spec fn frame_centers(blobs: Seq<Blob>) -> Seq<Vec2> {
    let n = if blobs.len() < MAX_BLOBS {
        blobs.len()
    } else {
        MAX_BLOBS as nat
    };
    Seq::new(n, |i: int| flipped(blobs[i].pos))
}

/// The blend weight of the polynomial smooth minimum, in millionths:
/// `clamp(1/2 + (a - b) / 2k, 0, 1)`.
pub open spec fn smooth_weight(a: int, b: int, k: int) -> int {
    let t = k + a - b;
    if t <= 0 {
        0
    } else if t >= 2 * k {
        SCALE as int
    } else {
        t * SCALE / (2 * k)
    }
}

/// The polynomial smooth minimum of `a` and `b` over width `k`:
/// `mix(a, b, h) - k h (1 - h)`, both terms rounded down.
pub open spec fn smooth_min_spec(a: int, b: int, k: int) -> int {
    let h = smooth_weight(a, b, k);
    a + (b - a) * h / (SCALE as int) - k * h * (SCALE - h) / (SCALE * SCALE)
}

proof fn lemma_floor_div(x: int, d: int)
    requires
        d > 0,
    ensures
        (x / d) * d <= x < (x / d) * d + d,
{
    vstd::arithmetic::div_mod::lemma_fundamental_div_mod(x, d);
    assert(0 <= x % d < d) by (nonlinear_arith)
        requires
            d > 0,
    ;
    assert((x / d) * d == d * (x / d)) by (nonlinear_arith);
}

proof fn lemma_weight(a: int, b: int, k: int)
    requires
        k > 0,
    ensures
        0 <= smooth_weight(a, b, k) <= SCALE,
        0 < k + a - b < 2 * k ==> smooth_weight(a, b, k) * (2 * k) <= (k + a - b) * SCALE
            < smooth_weight(a, b, k) * (2 * k) + 2 * k,
{
    let t = k + a - b;
    if 0 < t < 2 * k {
        lemma_floor_div(t * SCALE, 2 * k);
        assert(0 <= t * SCALE / (2 * k) <= SCALE) by (nonlinear_arith)
            requires
                0 < t < 2 * k,
        ;
    }
}

/// The smooth minimum never lies more than `k / 4` (rounded up) below the
/// smaller of its arguments.
pub proof fn lemma_smooth_min_lower(a: int, b: int, k: int)
    requires
        k > 0,
    ensures
        4 * smooth_min_spec(a, b, k) >= 4 * min(a, b) - k - 3,
{
    let s = SCALE as int;
    let m = min(a, b);
    let h = smooth_weight(a, b, k);
    lemma_weight(a, b, k);
    let x = (b - a) * h;
    let y = k * h * (s - h);
    let f = x / s;
    let g = y / (s * s);
    lemma_floor_div(x, s);
    lemma_floor_div(y, s * s);
    let e = 2 * k * h - k * s;
    assert(e * e >= 0) by (nonlinear_arith);
    lemma_penalty_square(k, h, s);
    let z = k * s * s;
    // the blend term and the distance to the minimum together are nonnegative
    if a <= b {
        assert(4 * k * s * x >= 0) by (nonlinear_arith)
            requires
                k > 0,
                s > 0,
                b - a >= 0,
                h >= 0,
                x == (b - a) * h,
        ;
        assert(4 * z * (a - m) == 0) by (nonlinear_arith)
            requires
                a == m,
        ;
    } else {
        assert(4 * z * (a - m) + 4 * k * s * x >= 0) by (nonlinear_arith)
            requires
                k > 0,
                s > 0,
                a - b > 0,
                m == b,
                0 <= h <= s,
                x == (b - a) * h,
                z == k * s * s,
        ;
    }
    assert(4 * k * s * (f * s) > 4 * k * s * (x - s)) by (nonlinear_arith)
        requires
            f * s > x - s,
            k > 0,
            s > 0,
    ;
    assert(4 * k * (g * (s * s)) <= 4 * k * y) by (nonlinear_arith)
        requires
            g * (s * s) <= y,
            k > 0,
    ;
    let r = a + f - g;
    let q = 4 * (r - m) + k + 4;
    assert(z * q == 4 * z * (a - m) + 4 * z * f - 4 * z * g + z * k + 4 * z) by (nonlinear_arith)
        requires
            q == 4 * (r - m) + k + 4,
            r == a + f - g,
    ;
    assert(4 * z * f == 4 * k * s * (f * s)) by (nonlinear_arith)
        requires
            z == k * s * s,
    ;
    assert(4 * z * g == 4 * k * (g * (s * s))) by (nonlinear_arith)
        requires
            z == k * s * s,
    ;
    assert(z * k == k * k * s * s) by (nonlinear_arith)
        requires
            z == k * s * s,
    ;
    assert(4 * k * s * (x - s) == 4 * k * s * x - 4 * z) by (nonlinear_arith)
        requires
            z == k * s * s,
    ;
    assert(z * q > 0);
    assert(q > 0) by (nonlinear_arith)
        requires
            z * q > 0,
            z == k * s * s,
            k > 0,
            s > 0,
    ;
}

proof fn lemma_penalty_square(k: int, h: int, s: int)
    ensures
        4 * k * (k * h * (s - h)) == k * k * s * s - (2 * k * h - k * s) * (2 * k * h - k * s),
{
    assert(4 * k * (k * h * (s - h)) == k * k * s * s - (2 * k * h - k * s) * (2 * k * h - k * s))
        by (nonlinear_arith);
}

/// For a blend width of at most half a unit, the smooth minimum never
/// exceeds the smaller of its arguments.
pub proof fn lemma_smooth_min_upper(a: int, b: int, k: int)
    requires
        0 < k <= SCALE / 2,
    ensures
        smooth_min_spec(a, b, k) <= min(a, b),
{
    let s = SCALE as int;
    let h = smooth_weight(a, b, k);
    lemma_weight(a, b, k);
    let x = (b - a) * h;
    let y = k * h * (s - h);
    let f = x / s;
    let g = y / (s * s);
    lemma_floor_div(x, s);
    lemma_floor_div(y, s * s);
    assert(y >= 0) by (nonlinear_arith)
        requires
            k > 0,
            0 <= h <= s,
            y == k * h * (s - h),
    ;
    if a <= b {
        let dd = b - a;
        if h == 0 {
            assert(x == 0 && y == 0) by (nonlinear_arith)
                requires
                    h == 0,
                    x == (b - a) * h,
                    y == k * h * (s - h),
            ;
        } else {
            // 0 < t <= k here, so the weight is the rounded quotient
            assert(k * h <= (k - dd) * s) by (nonlinear_arith)
                requires
                    h * (2 * k) <= (k - dd) * s,
                    k > 0,
                    h > 0,
            ;
            assert(x * s <= y) by (nonlinear_arith)
                requires
                    k * h <= (k - dd) * s,
                    h >= 0,
                    x == (b - a) * h,
                    dd == b - a,
                    y == k * h * (s - h),
                    dd >= 0,
            ;
            assert(f <= g) by (nonlinear_arith)
                requires
                    f * s <= x,
                    x * s <= y,
                    y < g * (s * s) + s * s,
                    s > 0,
            ;
        }
    } else {
        let dd = a - b;
        if k + dd >= 2 * k {
            assert(x == -(dd * s) && y == 0) by (nonlinear_arith)
                requires
                    h == s,
                    x == (b - a) * h,
                    dd == a - b,
                    y == k * h * (s - h),
            ;
            assert(f == -dd) by (nonlinear_arith)
                requires
                    f * s <= x < f * s + s,
                    x == -(dd * s),
                    s > 0,
            ;
        } else {
            assert(dd * s < k * h) by (nonlinear_arith)
                requires
                    (k + dd) * s < h * (2 * k) + 2 * k,
                    0 < dd < k,
                    2 * k <= s,
            ;
            assert((f + dd) * (s * s) <= y) by (nonlinear_arith)
                requires
                    f * s <= x,
                    x == (b - a) * h,
                    dd == a - b,
                    dd * s < k * h,
                    0 <= h <= s,
                    y == k * h * (s - h),
                    s > 0,
            ;
            assert(f + dd <= g) by (nonlinear_arith)
                requires
                    (f + dd) * (s * s) <= y,
                    y < g * (s * s) + s * s,
                    s > 0,
            ;
        }
    }
}

pub open spec fn min(a: int, b: int) -> int {
    if a <= b {
        a
    } else {
        b
    }
}

/// Signed distance from the screen point `st` to the blob centered at `c`,
/// the horizontal offset stretched by the aspect ratio `width / height`.
pub open spec fn sdf_spec(st: Vec2, c: Vec2, width: int, height: int) -> int {
    let dx = trunc_div((c.x - st.x) * width, height);
    let dy = c.y - st.y;
    ceil_root(dx * dx + dy * dy) - BLOB_RADIUS
}

/// The field at `st`: the signed distances of `centers` folded left to right
/// with the smooth minimum, starting from `SENTINEL`.
pub open spec fn field_spec(centers: Seq<Vec2>, st: Vec2, width: int, height: int) -> int
    decreases centers.len(),
{
    if centers.len() == 0 {
        SENTINEL as int
    } else {
        let n = centers.len() - 1;
        smooth_min_spec(
            field_spec(centers.take(n), st, width, height),
            sdf_spec(st, centers[n], width, height),
            SMOOTHING as int,
        )
    }
}

/// Cubic Hermite step of `d` over `[0, EDGE_WIDTH]`, in millionths.
pub open spec fn smoothstep_spec(d: int) -> int {
    let t = if d <= 0 {
        0
    } else if d >= EDGE_WIDTH {
        SCALE as int
    } else {
        d * SCALE / (EDGE_WIDTH as int)
    };
    t * t * (3 * SCALE - 2 * t) / (SCALE * SCALE)
}

/// Opacity of a pixel whose field value is `d`, in millionths.
pub open spec fn coverage(d: int) -> int {
    SCALE - smoothstep_spec(d)
}

pub open spec fn in_unit_square(p: Vec2) -> bool {
    0 <= p.x <= SCALE && 0 <= p.y <= SCALE
}

/// Polynomial smooth minimum of two field values over width `k`.
pub fn smooth_min(a: i64, b: i64, k: i64) -> (r: i64)
    requires
        abs(a as int) <= FIELD_LIMIT,
        abs(b as int) <= FIELD_LIMIT,
        0 < k <= FIELD_LIMIT,
    ensures
        r == smooth_min_spec(a as int, b as int, k as int),
        4 * r >= 4 * min(a as int, b as int) - k - 3,
        k <= SCALE / 2 ==> r <= min(a as int, b as int),
        r <= a || r <= b,
{
    proof {
        lemma_smooth_min_lower(a as int, b as int, k as int);
        if k <= SCALE / 2 {
            lemma_smooth_min_upper(a as int, b as int, k as int);
        }
    }
    let s: i128 = SCALE as i128;
    let t: i128 = k as i128 + a as i128 - b as i128;
    let h: i128 = if t <= 0 {
        0
    } else if t >= 2 * k as i128 {
        s
    } else {
        assert(0 <= t * s / (2 * k) <= s) by (nonlinear_arith)
            requires
                0 < t < 2 * k,
                s == SCALE,
        ;
        t * s / (2 * k as i128)
    };
    let diff: i128 = b as i128 - a as i128;
    assert(abs((diff * h) as int) <= abs(diff as int) * s) by (nonlinear_arith)
        requires
            0 <= h <= s,
            s == SCALE,
    ;
    assert(abs(diff as int) * s <= 0x2000_0000_0000_0000 * SCALE) by (nonlinear_arith)
        requires
            abs(diff as int) <= 0x2000_0000_0000_0000,
            s == SCALE,
    ;
    let x: i128 = diff * h;
    let mixed: i128 = floor_div(x, s);
    proof {
        lemma_floor_div(x as int, s as int);
    }
    assert(diff >= 0 ==> 0 <= mixed <= diff) by (nonlinear_arith)
        requires
            mixed * s <= x < mixed * s + s,
            x == diff * h,
            0 <= h <= s,
    ;
    assert(diff < 0 ==> x <= 0) by (nonlinear_arith)
        requires
            x == diff * h,
            0 <= h,
    ;
    assert(diff < 0 ==> mixed <= 0) by (nonlinear_arith)
        requires
            mixed * s <= x,
            s > 0,
            diff < 0 ==> x <= 0,
            x == diff * h,
            0 <= h <= s,
    ;
    assert(0 <= h * (s - h) <= s * s) by (nonlinear_arith)
        requires
            0 <= h <= s,
    ;
    let spread: i128 = h * (s - h);
    assert(0 <= k * spread <= k * (s * s)) by (nonlinear_arith)
        requires
            0 <= spread <= s * s,
            k > 0,
    ;
    let penalty: i128 = k as i128 * spread / (s * s);
    assert(0 <= penalty <= k) by (nonlinear_arith)
        requires
            penalty == k * spread / (s * s),
            0 <= k * spread <= k * (s * s),
            s == SCALE,
            k > 0,
    ;
    assert(k * h * (s - h) == k * spread) by (nonlinear_arith)
        requires
            spread == h * (s - h),
    ;
    (a as i128 + mixed - penalty) as i64
}

/// Division by a positive `d`, rounded down.
fn floor_div(x: i128, d: i128) -> (r: i128)
    requires
        d > 0,
        x > i128::MIN + d,
    ensures
        r == x / d,
{
    if x >= 0 {
        x / d
    } else {
        let q: i128 = (d - 1 - x) / d;
        proof {
            lemma_floor_div(d - 1 - x, d as int);
            lemma_floor_div(x as int, d as int);
            let f = x / d;
            assert(f == -q) by (nonlinear_arith)
                requires
                    q * d <= d - 1 - x < q * d + d,
                    f * d <= x < f * d + d,
                    d > 0,
            ;
        }
        -q
    }
}

/// Signed distance from the screen point `st` to the blob centered at `c`
/// on a drawable of `width` by `height` pixels.
pub fn blob_sdf(st: Vec2, c: Vec2, width: u32, height: u32) -> (r: i64)
    requires
        in_unit_square(st),
        in_unit_square(c),
        height > 0,
    ensures
        r == sdf_spec(st, c, width as int, height as int),
        -BLOB_RADIUS <= r <= 0x40_0000_0000_0000,
{
    let ox: i128 = c.x as i128 - st.x as i128;
    assert(abs((ox * width as i128) as int) <= 0x10_0000_0000_0000) by (nonlinear_arith)
        requires
            -SCALE <= ox <= SCALE,
            0 <= width <= 0xffff_ffff,
    ;
    let dx: i128 = div_toward_zero(ox * width as i128, height as i128);
    let dy: i128 = c.y as i128 - st.y as i128;
    assert(-0x10_0000_0000_0000 <= dx <= 0x10_0000_0000_0000);
    assert(0 <= dx * dx <= 0x10_0000_0000_0000 * 0x10_0000_0000_0000 && 0 <= dy * dy <= SCALE
        * SCALE) by (nonlinear_arith)
        requires
            -0x10_0000_0000_0000 <= dx <= 0x10_0000_0000_0000,
            -SCALE <= dy <= SCALE,
    ;
    let nsq: i128 = dx * dx + dy * dy;
    let root: u64 = ceil_sqrt(nsq as u128);
    assert(root <= 0x20_0000_0000_0000) by (nonlinear_arith)
        requires
            root == 0 || (root - 1) * (root - 1) < nsq,
            nsq <= 0x10_0000_0000_0000 * 0x10_0000_0000_0000 + SCALE * SCALE,
            root >= 0,
    ;
    root as i64 - BLOB_RADIUS
}

/// Cubic step of a field value over the edge band `[0, EDGE_WIDTH]`.
pub fn smoothstep_edge(d: i64) -> (r: i64)
    ensures
        r == smoothstep_spec(d as int),
        0 <= r <= SCALE,
{
    let s: i128 = SCALE as i128;
    let t: i128 = if d <= 0 {
        0
    } else if d >= EDGE_WIDTH {
        s
    } else {
        assert(0 <= d * s / (EDGE_WIDTH as int) <= s) by (nonlinear_arith)
            requires
                0 < d < EDGE_WIDTH,
                s == SCALE,
        ;
        d as i128 * s / EDGE_WIDTH as i128
    };
    assert(0 <= t * t <= s * s) by (nonlinear_arith)
        requires
            0 <= t <= s,
    ;
    assert(0 <= t * t * (3 * s - 2 * t) <= s * s * s) by (nonlinear_arith)
        requires
            0 <= t <= s,
            s == SCALE,
    ;
    assert(t * t * (3 * s - 2 * t) / (s * s) <= s) by (nonlinear_arith)
        requires
            0 <= t * t * (3 * s - 2 * t) <= s * s * s,
            s == SCALE,
    ;
    (t * t * (3 * s - 2 * t) / (s * s)) as i64
}

proof fn lemma_scaled_back(x: int)
    ensures
        trunc_div(x * SCALE, SCALE as int) == x,
{
    let s = SCALE as int;
    if x >= 0 {
        assert((x * s) / s == x) by (nonlinear_arith)
            requires
                s > 0,
        ;
    } else {
        assert(-(x * s) == (-x) * s) by (nonlinear_arith);
        assert(((-x) * s) / s == -x) by (nonlinear_arith)
            requires
                s > 0,
        ;
    }
}

/// Two field values at least `k` apart blend to exactly the smaller one:
/// the smooth minimum rounds the union only where the fields are close.
pub proof fn lemma_smooth_min_far_apart(a: int, b: int, k: int)
    requires
        k > 0,
        a - b >= k || b - a >= k,
    ensures
        smooth_min_spec(a, b, k) == min(a, b),
{
    let s = SCALE as int;
    if a - b >= k {
        assert(smooth_weight(a, b, k) == s);
        lemma_scaled_back(b - a);
        assert(k * s * (s - s) == 0) by (nonlinear_arith);
    } else {
        assert(smooth_weight(a, b, k) == 0);
        assert((b - a) * 0 == 0);
        assert(k * 0 * (s - 0) == 0) by (nonlinear_arith);
    }
}

/// At the narrowest blend width the smooth minimum is the exact minimum.
pub proof fn lemma_smooth_min_narrow(a: int, b: int)
    ensures
        smooth_min_spec(a, b, 1) == min(a, b),
{
    if a == b {
        let h = smooth_weight(a, b, 1);
        assert(h == SCALE / 2);
        assert((b - a) * h == 0);
        assert(1 * h * (SCALE - h) == 250_000_000_000) by (nonlinear_arith)
            requires
                h == 500_000,
        ;
        assert(SCALE * SCALE == 1_000_000_000_000int);
        assert(250_000_000_000int / 1_000_000_000_000int == 0);
        assert(trunc_div(0, SCALE as int) == 0);
    } else {
        lemma_smooth_min_far_apart(a, b, 1);
    }
}

/// Near one of two blobs that lie far apart, the field is that blob's own
/// signed distance: the far blob has no influence.
pub proof fn lemma_far_blob_ignored(c0: Vec2, c1: Vec2, st: Vec2, width: int, height: int)
    requires
        sdf_spec(st, c0, width, height) <= SENTINEL - SMOOTHING,
        sdf_spec(st, c1, width, height) >= sdf_spec(st, c0, width, height) + SMOOTHING,
    ensures
        field_spec(seq![c0, c1], st, width, height) == sdf_spec(st, c0, width, height),
{
    let cs = seq![c0, c1];
    assert(cs.take(1) =~= seq![c0]);
    assert(seq![c0].take(0) =~= Seq::<Vec2>::empty());
    let d0 = sdf_spec(st, c0, width, height);
    lemma_smooth_min_far_apart(SENTINEL as int, d0, SMOOTHING as int);
    assert(field_spec(Seq::<Vec2>::empty(), st, width, height) == SENTINEL);
    assert(seq![c0][0] == c0);
    assert(field_spec(seq![c0], st, width, height) == d0);
    lemma_smooth_min_far_apart(d0, sdf_spec(st, c1, width, height), SMOOTHING as int);
}

/// With no active particle the field is the sentinel everywhere, and every
/// pixel is fully transparent.
pub proof fn lemma_empty_scene_transparent(frame: RenderFrame, st: Vec2)
    requires
        frame.count == 0,
    ensures
        field_spec(frame.active(), st, frame.width as int, frame.height as int) == SENTINEL,
        coverage(field_spec(frame.active(), st, frame.width as int, frame.height as int)) == 0,
{
    assert(frame.active().len() == 0);
    let s = SCALE as int;
    assert(s * s * (3 * s - 2 * s) / (s * s) == s) by (nonlinear_arith)
        requires
            s == SCALE,
    ;
}

/// Only the first `MAX_BLOBS` particles reach the compositor: a larger
/// population gives exactly the centers of its first `MAX_BLOBS` particles.
pub proof fn lemma_capacity_clamp(blobs: Seq<Blob>)
    requires
        blobs.len() >= MAX_BLOBS,
    ensures
        frame_centers(blobs).len() == MAX_BLOBS,
        frame_centers(blobs) == frame_centers(blobs.take(MAX_BLOBS as int)),
        forall|i: int| 0 <= i < MAX_BLOBS ==> #[trigger] frame_centers(blobs)[i] == flipped(blobs[i].pos),
{
    assert(frame_centers(blobs) =~= frame_centers(blobs.take(MAX_BLOBS as int)));
}

/// The field never exceeds the sentinel, nor the signed distance of any of
/// the centers folded into it.
pub proof fn lemma_field_below_each(centers: Seq<Vec2>, st: Vec2, width: int, height: int)
    ensures
        field_spec(centers, st, width, height) <= SENTINEL,
        forall|j: int|
            0 <= j < centers.len() ==> field_spec(centers, st, width, height) <= sdf_spec(
                st,
                #[trigger] centers[j],
                width,
                height,
            ),
    decreases centers.len(),
{
    if centers.len() > 0 {
        let n = centers.len() - 1;
        let prev = centers.take(n);
        lemma_field_below_each(prev, st, width, height);
        lemma_smooth_min_upper(
            field_spec(prev, st, width, height),
            sdf_spec(st, centers[n], width, height),
            SMOOTHING as int,
        );
        assert forall|j: int| 0 <= j < n implies prev[j] == centers[j] by {}
    }
}

/// Adding a blob to a frame never raises the field anywhere, so no pixel
/// becomes less opaque.
pub proof fn lemma_adding_blob_lowers_field(centers: Seq<Vec2>, c: Vec2, st: Vec2, width: int, height: int)
    ensures
        field_spec(centers.push(c), st, width, height) <= field_spec(centers, st, width, height),
{
    assert(centers.push(c).take(centers.len() as int) =~= centers);
    lemma_smooth_min_upper(
        field_spec(centers, st, width, height),
        sdf_spec(st, c, width, height),
        SMOOTHING as int,
    );
}

/// What the compositor draws in one frame: the active particle centers in
/// screen orientation, how many of them are active, and the drawable's size
/// in pixels. Entries past `count` are zero.
#[derive(Clone, Copy, Debug)]
pub struct RenderFrame {
    pub centers: [Vec2; MAX_BLOBS],
    pub count: usize,
    pub width: u32,
    pub height: u32,
}

impl RenderFrame {
    /// The active centers.
    pub open spec fn active(&self) -> Seq<Vec2> {
        self.centers@.take(self.count as int)
    }

    pub open spec fn wf(&self) -> bool {
        &&& self.count <= MAX_BLOBS
        &&& forall|i: int| 0 <= i < self.count ==> in_unit_square(#[trigger] self.centers@[i])
    }

    /// The frame for a population of particles: the first `MAX_BLOBS` of
    /// them, in population order, y flipped; any further ones are left out.
    pub fn new(blobs: &[Blob], width: u32, height: u32) -> (r: RenderFrame)
        requires
            forall|i: int| 0 <= i < blobs@.len() ==> (#[trigger] blobs@[i]).wf(),
        ensures
            r.wf(),
            r.count == min(blobs@.len() as int, MAX_BLOBS as int),
            r.active() == frame_centers(blobs@),
            forall|i: int| r.count <= i < MAX_BLOBS ==> #[trigger] r.centers@[i] == (Vec2 { x: 0, y: 0 }),
            r.width == width,
            r.height == height,
    {
        let mut centers = [Vec2 { x: 0, y: 0 }; MAX_BLOBS];
        let count: usize = if blobs.len() < MAX_BLOBS {
            blobs.len()
        } else {
            MAX_BLOBS
        };
        let mut i: usize = 0;
        while i < count
            invariant
                count == min(blobs@.len() as int, MAX_BLOBS as int),
                i <= count,
                centers@.len() == MAX_BLOBS,
                forall|j: int| 0 <= j < blobs@.len() ==> (#[trigger] blobs@[j]).wf(),
                forall|j: int| 0 <= j < i ==> #[trigger] centers@[j] == flipped(blobs@[j].pos),
                forall|j: int| i <= j < MAX_BLOBS ==> #[trigger] centers@[j] == (Vec2 { x: 0, y: 0 }),
            decreases count - i,
        {
            let p = blobs[i].pos;
            assert(blobs@[i as int].wf());
            centers[i] = Vec2 { x: p.x, y: SCALE - p.y };
            i = i + 1;
        }
        let r = RenderFrame { centers, count, width, height };
        assert(r.active() =~= frame_centers(blobs@));
        r
    }

    /// The field value at the screen point `st`.
    pub fn field_at(&self, st: Vec2) -> (r: i64)
        requires
            self.wf(),
            self.height > 0,
            in_unit_square(st),
        ensures
            r == field_spec(self.active(), st, self.width as int, self.height as int),
            r <= SENTINEL,
            forall|j: int|
                0 <= j < self.count ==> r <= sdf_spec(
                    st,
                    #[trigger] self.centers@[j],
                    self.width as int,
                    self.height as int,
                ),
    {
        let mut d: i64 = SENTINEL;
        let mut i: usize = 0;
        while i < self.count
            invariant
                self.wf(),
                self.height > 0,
                in_unit_square(st),
                i <= self.count,
                d == field_spec(self.active().take(i as int), st, self.width as int, self.height as int),
                -(BLOB_RADIUS + i * SMOOTHING) <= d <= 0x40_0000_0000_0000,
            decreases self.count - i,
        {
            let c = self.centers[i];
            assert(in_unit_square(self.centers@[i as int]));
            let b = blob_sdf(st, c, self.width, self.height);
            let ghost prev = self.active().take(i as int);
            let ghost next = self.active().take(i + 1);
            assert(next.take(i as int) =~= prev);
            assert(next[i as int] == c);
            d = smooth_min(d, b, SMOOTHING);
            i = i + 1;
        }
        assert(self.active().take(self.count as int) =~= self.active());
        proof {
            lemma_field_below_each(self.active(), st, self.width as int, self.height as int);
            assert forall|j: int| 0 <= j < self.count implies d <= sdf_spec(
                st,
                #[trigger] self.centers@[j],
                self.width as int,
                self.height as int,
            ) by {
                assert(self.active()[j] == self.centers@[j]);
            }
        }
        d
    }

    /// The opacity of the pixel at the screen point `st`, in millionths:
    /// one deep inside the union of blobs, zero outside it.
    pub fn alpha_at(&self, st: Vec2) -> (r: i64)
        requires
            self.wf(),
            self.height > 0,
            in_unit_square(st),
        ensures
            r == coverage(field_spec(self.active(), st, self.width as int, self.height as int)),
            0 <= r <= SCALE,
            (exists|j: int|
                0 <= j < self.count && sdf_spec(
                    st,
                    #[trigger] self.centers@[j],
                    self.width as int,
                    self.height as int,
                ) <= 0) ==> r == SCALE,
    {
        let d = self.field_at(st);
        proof {
            if exists|j: int|
                0 <= j < self.count && sdf_spec(
                    st,
                    #[trigger] self.centers@[j],
                    self.width as int,
                    self.height as int,
                ) <= 0 {
                let j = choose|j: int|
                    0 <= j < self.count && sdf_spec(
                        st,
                        #[trigger] self.centers@[j],
                        self.width as int,
                        self.height as int,
                    ) <= 0;
                assert(d <= sdf_spec(st, self.centers@[j], self.width as int, self.height as int));
                assert(smoothstep_spec(d as int) == 0) by {
                    assert(0int * 0int * (3 * SCALE - 0) == 0);
                }
            }
        }
        SCALE - smoothstep_edge(d)
    }
}

} // verus!
