//! Laws of the solver that relate several operations: collision separation,
//! collision symmetry, and the gravity-only fall of a lone particle.

use vstd::prelude::*;
use vstd::arithmetic::mul::lemma_mul_inequality;
use vstd::arithmetic::mul::lemma_mul_strict_inequality;
use vstd::arithmetic::mul::lemma_mul_strict_inequality_converse;
use vstd::arithmetic::mul::lemma_mul_nonnegative;
use crate::math::abs_i;
use crate::math::sqrt_floor;
use crate::math::lemma_sqrt_floor;
use crate::math::lemma_div_bound;
use crate::math::lemma_div_lower;
use crate::math::lemma_div_mul_le;
use crate::particle::Particle;
use crate::particle::Vec2;
use crate::particle::accel_term;
use crate::particle::lemma_accel_term_bound;
use crate::particle::DT_MAX;
use crate::solver::radius_ok;
use crate::solver::pos_within;
use crate::solver::prev_within;
use crate::solver::room_dist2;
use crate::solver::disp_part;
use crate::solver::collide_pair;
use crate::solver::pair_applied;
use crate::solver::resolve_from;
use crate::solver::stepped;
use crate::solver::gravity_applied;
use crate::solver::constrained_all;
use crate::solver::integrated_all;
use crate::solver::resolved;
use crate::solver::grav_p;
use crate::solver::constrain_p;
use crate::particle::integrated;
use crate::solver::COLL_POS;
use crate::solver::GRAVITY;
use crate::solver::ROOM_RADIUS;
use crate::solver::WF_PREV;
use crate::solver::CENTER_X;
use crate::solver::CENTER_Y;

verus! {

/// Squared distance between two particles' centers.
pub open spec fn sep2(a: Particle, b: Particle) -> int {
    let vx = a.pos.x - b.pos.x;
    let vy = a.pos.y - b.pos.y;
    vx * vx + vy * vy
}

/// Facts about one truncated displacement component: it points along `v`,
/// its magnitude is the truncated quotient, and it never exceeds `pen`.
proof fn lemma_disp_props(v: int, pen: int, r_other: int, dist: int, rsum: int)
    requires
        pen >= 0,
        1 <= r_other <= rsum,
        dist >= 1,
        abs_i(v) <= dist,
    ensures
        abs_i(disp_part(v, pen, r_other, dist, rsum)) <= pen,
        v >= 0 ==> disp_part(v, pen, r_other, dist, rsum) >= 0,
        v <= 0 ==> disp_part(v, pen, r_other, dist, rsum) <= 0,
        abs_i(disp_part(v, pen, r_other, dist, rsum)) == (abs_i(v) * pen * r_other) / (dist
            * rsum),
{
    let av = abs_i(v);
    let num = av * pen * r_other;
    let den = dist * rsum;
    lemma_mul_nonnegative(av, pen);
    lemma_mul_nonnegative(av * pen, r_other);
    lemma_mul_inequality(1, dist, rsum);
    lemma_mul_inequality(av, dist, pen);
    lemma_mul_inequality(av * pen, dist * pen, r_other);
    lemma_mul_inequality(r_other, rsum, dist * pen);
    assert((dist * pen) * r_other == r_other * (dist * pen) && (dist * pen) * rsum == rsum * (dist
        * pen) && rsum * (dist * pen) == pen * (dist * rsum)) by (nonlinear_arith);
    lemma_div_bound(num, den, pen);
    if v == 0 {
        assert(num == 0) by (nonlinear_arith)
            requires
                av == 0,
                num == av * pen * r_other,
        ;
        lemma_div_bound(0, den, 0);
    }
    assert(disp_part(v, pen, r_other, dist, rsum) == (if v >= 0 {
        num / den
    } else {
        -(num / den)
    })) by (nonlinear_arith)
        requires
            av == (if v >= 0 { v } else { -v }),
            num == av * pen * r_other,
            den == dist * rsum,
            disp_part(v, pen, r_other, dist, rsum) == (if v >= 0 {
                (v * pen * r_other) / (dist * rsum)
            } else {
                -(((-v) * pen * r_other) / (dist * rsum))
            }),
    ;
}

/// Adding a same-signed correction to a component never shrinks its square.
proof fn lemma_push_apart(v: int, s: int)
    requires
        v * s >= 0,
    ensures
        (v + s) * (v + s) >= v * v + s * s,
{
    assert((v + s) * (v + s) >= v * v + s * s) by (nonlinear_arith)
        requires
            v * s >= 0,
    ;
}

/// The shared geometry of one overlapping pair with distinct centers; every
/// fact the separation and symmetry laws need, over the actual truncated
/// displacements of `collide_pair`.
proof fn lemma_pair_setup(a: Particle, b: Particle)
    requires
        radius_ok(a),
        radius_ok(b),
        pos_within(a, COLL_POS as int),
        pos_within(b, COLL_POS as int),
        0 < sep2(a, b),
        sep2(a, b) < (a.radius + b.radius) * (a.radius + b.radius),
    ensures
        ({
            let vx = a.pos.x - b.pos.x;
            let vy = a.pos.y - b.pos.y;
            let dist = sqrt_floor(sep2(a, b));
            let md = a.radius + b.radius;
            let pen = ((md - dist) * 3) / 8;
            let d1x = disp_part(vx, pen, b.radius as int, dist, md);
            let d1y = disp_part(vy, pen, b.radius as int, dist, md);
            let e1x = disp_part(vx, pen, a.radius as int, dist, md);
            let e1y = disp_part(vy, pen, a.radius as int, dist, md);
            &&& 1 <= dist < md
            &&& 0 <= pen <= md
            &&& abs_i(vx) <= dist
            &&& abs_i(vy) <= dist
            &&& collide_pair(a, b).0.pos.x == a.pos.x + d1x
            &&& collide_pair(a, b).0.pos.y == a.pos.y + d1y
            &&& collide_pair(a, b).1.pos.x == b.pos.x - e1x
            &&& collide_pair(a, b).1.pos.y == b.pos.y - e1y
            &&& abs_i(d1x) <= pen && abs_i(d1y) <= pen && abs_i(e1x) <= pen && abs_i(e1y) <= pen
            &&& (vx >= 0 ==> d1x >= 0 && e1x >= 0)
            &&& (vx <= 0 ==> d1x <= 0 && e1x <= 0)
            &&& (vy >= 0 ==> d1y >= 0 && e1y >= 0)
            &&& (vy <= 0 ==> d1y <= 0 && e1y <= 0)
            &&& abs_i(d1x) == (abs_i(vx) * pen * (b.radius as int)) / (dist * md)
            &&& abs_i(d1y) == (abs_i(vy) * pen * (b.radius as int)) / (dist * md)
            &&& abs_i(e1x) == (abs_i(vx) * pen * (a.radius as int)) / (dist * md)
            &&& abs_i(e1y) == (abs_i(vy) * pen * (a.radius as int)) / (dist * md)
        }),
{
    let vx = a.pos.x - b.pos.x;
    let vy = a.pos.y - b.pos.y;
    let d2 = sep2(a, b);
    let md = a.radius + b.radius;
    lemma_sqrt_floor(d2);
    let dist = sqrt_floor(d2);
    if dist == 0 {
        assert(d2 < (0 + 1) * (0 + 1));
    }
    assert(dist < md) by (nonlinear_arith)
        requires
            dist * dist <= d2,
            d2 < md * md,
            dist >= 0,
            md >= 0,
    ;
    let pen = ((md - dist) * 3) / 8;
    lemma_div_bound((md - dist) * 3, 8, md);
    assert(abs_i(vx) * abs_i(vx) == vx * vx && abs_i(vy) * abs_i(vy) == vy * vy)
        by (nonlinear_arith)
        requires
            abs_i(vx) == (if vx < 0 { -vx } else { vx }),
            abs_i(vy) == (if vy < 0 { -vy } else { vy }),
    ;
    assert(abs_i(vx) <= dist && abs_i(vy) <= dist) by (nonlinear_arith)
        requires
            abs_i(vx) >= 0,
            abs_i(vy) >= 0,
            dist >= 0,
            abs_i(vx) * abs_i(vx) == vx * vx,
            abs_i(vy) * abs_i(vy) == vy * vy,
            vx * vx + vy * vy < (dist + 1) * (dist + 1),
    ;
    lemma_disp_props(vx, pen, b.radius as int, dist, md);
    lemma_disp_props(vy, pen, b.radius as int, dist, md);
    lemma_disp_props(vx, pen, a.radius as int, dist, md);
    lemma_disp_props(vy, pen, a.radius as int, dist, md);
}

/// Collision separation: resolving an overlapping pair with distinct centers
/// never shrinks the squared distance between the two centers, and strictly
/// grows it whenever either particle actually moved. (An overlap so slight
/// that both truncated corrections are zero moves neither particle.)
pub proof fn lemma_collision_separation(a: Particle, b: Particle)
    requires
        radius_ok(a),
        radius_ok(b),
        pos_within(a, COLL_POS as int),
        pos_within(b, COLL_POS as int),
        0 < sep2(a, b),
        sep2(a, b) < (a.radius + b.radius) * (a.radius + b.radius),
    ensures
        sep2(collide_pair(a, b).0, collide_pair(a, b).1) >= sep2(a, b),
        collide_pair(a, b).0.pos != a.pos || collide_pair(a, b).1.pos != b.pos ==> sep2(
            collide_pair(a, b).0,
            collide_pair(a, b).1,
        ) > sep2(a, b),
{
    lemma_pair_setup(a, b);
    let vx = a.pos.x - b.pos.x;
    let vy = a.pos.y - b.pos.y;
    let dist = sqrt_floor(sep2(a, b));
    let md = a.radius + b.radius;
    let pen = ((md - dist) * 3) / 8;
    let d1x = disp_part(vx, pen, b.radius as int, dist, md);
    let d1y = disp_part(vy, pen, b.radius as int, dist, md);
    let e1x = disp_part(vx, pen, a.radius as int, dist, md);
    let e1y = disp_part(vy, pen, a.radius as int, dist, md);
    let sx = d1x + e1x;
    let sy = d1y + e1y;
    assert(vx * sx >= 0 && vy * sy >= 0) by (nonlinear_arith)
        requires
            (vx >= 0 ==> sx >= 0) && (vx <= 0 ==> sx <= 0),
            (vy >= 0 ==> sy >= 0) && (vy <= 0 ==> sy <= 0),
    ;
    lemma_push_apart(vx, sx);
    lemma_push_apart(vy, sy);
    let c = collide_pair(a, b);
    assert(c.0.pos.x - c.1.pos.x == vx + sx && c.0.pos.y - c.1.pos.y == vy + sy);
    assert(sx * sx >= 0 && sy * sy >= 0) by (nonlinear_arith);
    if c.0.pos != a.pos || c.1.pos != b.pos {
        assert(d1x != 0 || d1y != 0 || e1x != 0 || e1y != 0);
        assert(sx != 0 || sy != 0);
        assert(sx != 0 ==> sx * sx >= 1) by (nonlinear_arith);
        assert(sy != 0 ==> sy * sy >= 1) by (nonlinear_arith);
    }
}

/// For a two-particle world the collision pass is exactly one application
/// of `collide_pair`, so the separation and symmetry laws speak of the whole
/// pass there.
pub proof fn lemma_two_particle_pass(ps: Seq<Particle>)
    requires
        ps.len() == 2,
    ensures
        resolved(ps) == pair_applied(ps, 0, 1),
{
    assert(resolved(ps) == resolve_from(pair_applied(ps, 0, 1), 0, 2));
    assert(resolve_from(pair_applied(ps, 0, 1), 0, 2) == resolve_from(pair_applied(ps, 0, 1), 1, 2));
    assert(resolve_from(pair_applied(ps, 0, 1), 1, 2) == pair_applied(ps, 0, 1));
}

/// `ra * m1 <= rb * m2 + rb` for truncated quotients `m1 = n1 / d`,
/// `m2 = n2 / d` with `ra * n1 == rb * n2`: the cross products agree up to
/// one truncation unit.
proof fn lemma_ratio(n1: int, n2: int, d: int, ra: int, rb: int)
    requires
        d >= 1,
        ra >= 1,
        rb >= 1,
        n1 >= 0,
        n2 >= 0,
        ra * n1 == rb * n2,
    ensures
        ra * (n1 / d) <= rb * (n2 / d) + rb,
{
    lemma_div_mul_le(n1, d);
    lemma_div_mul_le(n2, d);
    let m1 = n1 / d;
    let m2 = n2 / d;
    lemma_mul_inequality(m1 * d, n1, ra);
    lemma_mul_strict_inequality(n2, (m2 + 1) * d, rb);
    assert((m1 * d) * ra == (ra * m1) * d && n1 * ra == ra * n1 && n2 * rb == rb * n2 && ((m2 + 1)
        * d) * rb == (rb * (m2 + 1)) * d) by (nonlinear_arith);
    lemma_mul_strict_inequality_converse(ra * m1, rb * (m2 + 1), d);
    assert(rb * (m2 + 1) == rb * m2 + rb) by (nonlinear_arith);
}

/// Collision symmetry: within each pair, the displacement applied to a
/// particle is inversely proportional to its radius — per axis, the cross
/// products `radius * displacement` of the two particles agree to within one
/// truncation unit of the other particle's radius.
pub proof fn lemma_collision_symmetry(a: Particle, b: Particle)
    requires
        radius_ok(a),
        radius_ok(b),
        pos_within(a, COLL_POS as int),
        pos_within(b, COLL_POS as int),
        0 < sep2(a, b),
        sep2(a, b) < (a.radius + b.radius) * (a.radius + b.radius),
    ensures
        ({
            let c = collide_pair(a, b);
            let dax = abs_i(c.0.pos.x - a.pos.x);
            let day = abs_i(c.0.pos.y - a.pos.y);
            let dbx = abs_i(c.1.pos.x - b.pos.x);
            let dby = abs_i(c.1.pos.y - b.pos.y);
            &&& a.radius * dax <= b.radius * dbx + b.radius
            &&& b.radius * dbx <= a.radius * dax + a.radius
            &&& a.radius * day <= b.radius * dby + b.radius
            &&& b.radius * dby <= a.radius * day + a.radius
        }),
{
    lemma_pair_setup(a, b);
    let vx = a.pos.x - b.pos.x;
    let vy = a.pos.y - b.pos.y;
    let dist = sqrt_floor(sep2(a, b));
    let md = a.radius + b.radius;
    let pen = ((md - dist) * 3) / 8;
    let ra = a.radius as int;
    let rb = b.radius as int;
    let den = dist * md;
    lemma_mul_inequality(1, dist, md);
    assert(ra * (abs_i(vx) * pen * rb) == rb * (abs_i(vx) * pen * ra) && ra * (abs_i(vy) * pen
        * rb) == rb * (abs_i(vy) * pen * ra)) by (nonlinear_arith);
    assert(abs_i(vx) * pen * rb >= 0 && abs_i(vx) * pen * ra >= 0 && abs_i(vy) * pen * rb >= 0
        && abs_i(vy) * pen * ra >= 0) by (nonlinear_arith)
        requires
            abs_i(vx) >= 0,
            abs_i(vy) >= 0,
            pen >= 0,
            ra >= 1,
            rb >= 1,
    ;
    assert((abs_i(vx) * pen * rb) / den == (abs_i(vx) * pen * rb) / (dist * md));
    lemma_ratio(abs_i(vx) * pen * rb, abs_i(vx) * pen * ra, den, ra, rb);
    lemma_ratio(abs_i(vx) * pen * ra, abs_i(vx) * pen * rb, den, rb, ra);
    lemma_ratio(abs_i(vy) * pen * rb, abs_i(vy) * pen * ra, den, ra, rb);
    lemma_ratio(abs_i(vy) * pen * ra, abs_i(vy) * pen * rb, den, rb, ra);
}

/// A lone particle falling straight down inside the room: one sub-step adds
/// exactly the gravity contribution `accel_term(GRAVITY, dt)` to its
/// per-sub-step downward displacement, and leaves its horizontal position
/// alone. While that contribution is positive, the fall accelerates: each
/// sub-step's displacement strictly exceeds the previous one's.
pub proof fn lemma_lone_fall(ps: Seq<Particle>, dt: int)
    requires
        ps.len() == 1,
        radius_ok(ps[0]),
        prev_within(ps[0], WF_PREV as int),
        ps[0].acc == (Vec2 { x: 0, y: 0 }),
        ps[0].pos.x == ps[0].prev_pos.x,
        0 <= dt <= DT_MAX,
        room_dist2(ps[0]) <= (ROOM_RADIUS - ps[0].radius) * (ROOM_RADIUS - ps[0].radius),
    ensures
        stepped(ps, dt).len() == 1,
        stepped(ps, dt)[0].pos.x == ps[0].pos.x,
        stepped(ps, dt)[0].prev_pos == ps[0].pos,
        stepped(ps, dt)[0].acc == (Vec2 { x: 0, y: 0 }),
        stepped(ps, dt)[0].pos.y - stepped(ps, dt)[0].prev_pos.y == (ps[0].pos.y
            - ps[0].prev_pos.y) + accel_term(GRAVITY as int, dt),
        accel_term(GRAVITY as int, dt) >= 0,
        dt >= 100 ==> accel_term(GRAVITY as int, dt) >= 1,
{
    if dt >= 100 {
        assert(GRAVITY as int * dt * dt >= 1 * 100_000_000int) by (nonlinear_arith)
            requires
                dt >= 100,
        ;
        lemma_div_lower(GRAVITY as int * dt * dt, 100_000_000int, 1);
    }
    let p = ps[0];
    let g = grav_p(p);
    let gs = gravity_applied(ps);
    assert(gs.len() == 1 && gs[0] == g);
    assert(resolved(gs) == gs);
    let tx = CENTER_X - p.pos.x;
    let ty = CENTER_Y - p.pos.y;
    let d2 = tx * tx + ty * ty;
    let lim = ROOM_RADIUS - p.radius;
    assert(d2 >= 0) by (nonlinear_arith)
        requires
            d2 == tx * tx + ty * ty,
    ;
    lemma_sqrt_floor(d2);
    assert(sqrt_floor(d2) <= lim) by (nonlinear_arith)
        requires
            sqrt_floor(d2) * sqrt_floor(d2) <= d2,
            d2 <= lim * lim,
            sqrt_floor(d2) >= 0,
            lim >= 0,
    ;
    assert(constrain_p(g) == g);
    assert(constrained_all(gs) =~= gs);
    assert(stepped(ps, dt) == integrated_all(gs, dt));
    assert(stepped(ps, dt)[0] == integrated(g, dt));
    lemma_accel_term_bound(GRAVITY as int, dt);
    assert(accel_term(0, dt) == 0) by {
        assert(0 * dt * dt == 0) by (nonlinear_arith);
        assert(0int / 100_000_000int == 0);
    }
    assert(abs_i(tx) <= lim && abs_i(ty) <= lim) by (nonlinear_arith)
        requires
            d2 == tx * tx + ty * ty,
            d2 <= lim * lim,
            lim >= 0,
            abs_i(tx) == (if tx < 0 { -tx } else { tx }),
            abs_i(ty) == (if ty < 0 { -ty } else { ty }),
    ;
    assert(accel_term(GRAVITY as int, dt) >= 0) by {
        assert(GRAVITY as int * dt * dt >= 0) by (nonlinear_arith)
            requires
                dt >= 0,
        ;
        assert((GRAVITY as int * dt * dt) / (100_000_000int) >= 0) by (nonlinear_arith)
            requires
                GRAVITY as int * dt * dt >= 0,
        ;
    }
}

} // verus!
