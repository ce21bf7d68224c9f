//! Invariance laws of the geometric hash: the hash does not depend on the
//! order the four points are given in, and similarity transforms of the
//! plane (integer translations, quarter-turn rotations, rational scales)
//! leave its rational value unchanged.

use vstd::arithmetic::mul::{lemma_mul_is_distributive_add, lemma_mul_is_distributive_sub};
use vstd::prelude::*;

use crate::quad::{
    first_excluding, frame_x, frame_y, ghash_eq, ghash_of, hash_from, in_disk, lemma_disk_flip,
    pair_at, second_excluding, sel_pair, sel_pair_upto, sqd,
};

verus! {

/// Squared distance is symmetric.
pub proof fn lemma_sqd_sym(a: (i64, i64), b: (i64, i64))
    ensures
        sqd(a, b) == sqd(b, a),
{
    assert((a.0 - b.0) * (a.0 - b.0) == (b.0 - a.0) * (b.0 - a.0)) by (nonlinear_arith);
    assert((a.1 - b.1) * (a.1 - b.1) == (b.1 - a.1) * (b.1 - a.1)) by (nonlinear_arith);
}

/// Swapping the roles of A and B reflects both frame coordinates through
/// 1/2: the numerators map to q minus themselves.
pub proof fn lemma_frame_swap(a: (i64, i64), b: (i64, i64), c: (i64, i64))
    ensures
        frame_x(b, a, c) == sqd(a, b) - frame_x(a, b, c),
        frame_y(b, a, c) == sqd(a, b) - frame_y(a, b, c),
{
    assert((c.0 - b.0) * ((a.0 - b.0) + (a.1 - b.1)) + (c.1 - b.1) * ((a.1 - b.1) - (a.0 - b.0))
        == (a.0 - b.0) * (a.0 - b.0) + (a.1 - b.1) * (a.1 - b.1) - ((c.0 - a.0) * ((b.0 - a.0) + (
    b.1 - a.1)) + (c.1 - a.1) * ((b.1 - a.1) - (b.0 - a.0)))) by (nonlinear_arith);
    assert((c.0 - b.0) * ((a.0 - b.0) - (a.1 - b.1)) + (c.1 - b.1) * ((a.0 - b.0) + (a.1 - b.1))
        == (a.0 - b.0) * (a.0 - b.0) + (a.1 - b.1) * (a.1 - b.1) - ((c.0 - a.0) * ((b.0 - a.0) - (
    b.1 - a.1)) + (c.1 - a.1) * ((b.0 - a.0) + (b.1 - a.1)))) by (nonlinear_arith);
}

/// The canonical hash does not depend on which of the two maximum-pair
/// points is taken as A, provided the frame x-sum of C and D does not land
/// exactly on the half-plane boundary.
pub proof fn lemma_hash_swap_ab(a: (i64, i64), b: (i64, i64), c: (i64, i64), d: (i64, i64))
    requires
        sqd(a, b) != 0 ==> frame_x(a, b, c) + frame_x(a, b, d) != sqd(a, b),
    ensures
        hash_from(b, a, c, d) == hash_from(a, b, c, d),
{
    lemma_sqd_sym(a, b);
    if sqd(a, b) != 0 {
        let q = sqd(a, b);
        lemma_frame_swap(a, b, c);
        lemma_frame_swap(a, b, d);
        lemma_disk_flip(q, frame_x(a, b, c), frame_y(a, b, c));
        lemma_disk_flip(q, frame_x(a, b, d), frame_y(a, b, d));
    }
}

/// The canonical hash does not depend on which of the two inner points is
/// taken as C, provided their frame x-coordinates differ.
pub proof fn lemma_hash_swap_cd(a: (i64, i64), b: (i64, i64), c: (i64, i64), d: (i64, i64))
    requires
        sqd(a, b) != 0 ==> frame_x(a, b, c) != frame_x(a, b, d),
    ensures
        hash_from(a, b, d, c) == hash_from(a, b, c, d),
{
}

/// Squared distance of the k-th index pair.
pub open spec fn pair_sqd(ps: Seq<(i64, i64)>, k: int) -> int {
    sqd(ps[pair_at(k).0], ps[pair_at(k).1])
}

/// Squared distance of the selected maximum pair.
pub open spec fn max_q(ps: Seq<(i64, i64)>) -> int {
    sqd(ps[sel_pair(ps).0], ps[sel_pair(ps).1])
}

/// Exactly one index pair attains the maximum squared distance.
pub open spec fn unique_max(ps: Seq<(i64, i64)>) -> bool {
    forall|k: int|
        0 <= k < 6 && pair_at(k) != sel_pair(ps) ==> #[trigger] pair_sqd(ps, k) < max_q(ps)
}

/// The two tie cases that the arrangement rules break by input order do not
/// occur: the frame x-sum of C and D is off the half-plane boundary and
/// their frame x-coordinates differ.
pub open spec fn nondegenerate(ps: Seq<(i64, i64)>) -> bool {
    let ab = sel_pair(ps);
    let ci = first_excluding(ab.0, ab.1);
    let di = second_excluding(ab.0, ab.1, ci);
    let a = ps[ab.0];
    let b = ps[ab.1];
    let c = ps[ci];
    let d = ps[di];
    &&& frame_x(a, b, c) + frame_x(a, b, d) != sqd(a, b)
    &&& frame_x(a, b, c) != frame_x(a, b, d)
}

/// The index (in combination order) of the pair (u, v) with u < v.
pub open spec fn pair_index(u: int, v: int) -> int {
    if u == 0 && v == 1 {
        0
    } else if u == 0 && v == 2 {
        1
    } else if u == 0 && v == 3 {
        2
    } else if u == 1 && v == 2 {
        3
    } else if u == 1 && v == 3 {
        4
    } else {
        5
    }
}

/// The selected pair is an index pair and attains the maximum squared
/// distance over all six pairs.
pub proof fn lemma_sel_pair_max(ps: Seq<(i64, i64)>)
    ensures
        sel_pair(ps) == pair_at(pair_index(sel_pair(ps).0, sel_pair(ps).1)),
        0 <= sel_pair(ps).0 < sel_pair(ps).1 < 4,
        forall|k: int| 0 <= k < 6 ==> #[trigger] pair_sqd(ps, k) <= max_q(ps),
{
    reveal_with_fuel(sel_pair_upto, 7);
    assert(pair_sqd(ps, 0) <= max_q(ps));
    assert(pair_sqd(ps, 1) <= max_q(ps));
    assert(pair_sqd(ps, 2) <= max_q(ps));
    assert(pair_sqd(ps, 3) <= max_q(ps));
    assert(pair_sqd(ps, 4) <= max_q(ps));
    assert(pair_sqd(ps, 5) <= max_q(ps));
}

/// The position at which a permutation of 0..4 places the value x.
pub open spec fn idx_of(perm: Seq<int>, x: int) -> int {
    if perm[0] == x {
        0
    } else if perm[1] == x {
        1
    } else if perm[2] == x {
        2
    } else {
        3
    }
}

/// perm is a permutation of the indices 0..4.
pub open spec fn is_perm4(perm: Seq<int>) -> bool {
    &&& perm.len() == 4
    &&& forall|i: int| 0 <= i < 4 ==> 0 <= #[trigger] perm[i] < 4
    &&& forall|i: int, j: int| 0 <= i < j < 4 ==> perm[i] != perm[j]
}

/// Law (permutation invariance): reordering the four input points leaves the
/// geometric hash bit-identical, including its denominator. Stated for
/// inputs whose maximum pair is unique and which avoid the two exact tie
/// cases that the arrangement rules break by input order; on such ties the
/// hash may follow the input order.
pub proof fn lemma_ghash_permutation_invariant(
    ps: Seq<(i64, i64)>,
    ps2: Seq<(i64, i64)>,
    perm: Seq<int>,
)
    requires
        ps.len() == 4,
        ps2.len() == 4,
        is_perm4(perm),
        forall|i: int| 0 <= i < 4 ==> #[trigger] ps2[i] == ps[perm[i]],
        unique_max(ps),
        nondegenerate(ps),
    ensures
        ghash_of(ps2) == ghash_of(ps),
{
    lemma_sel_pair_max(ps);
    lemma_sel_pair_max(ps2);
    assert(perm[0] != perm[1] && perm[0] != perm[2] && perm[0] != perm[3] && perm[1] != perm[2]
        && perm[1] != perm[3] && perm[2] != perm[3]);
    assert(0 <= perm[0] < 4 && 0 <= perm[1] < 4 && 0 <= perm[2] < 4 && 0 <= perm[3] < 4);
    assert(ps2[0] == ps[perm[0]] && ps2[1] == ps[perm[1]] && ps2[2] == ps[perm[2]] && ps2[3]
        == ps[perm[3]]);

    let ab1 = sel_pair(ps);
    let ab2 = sel_pair(ps2);
    let u = perm[ab2.0];
    let v = perm[ab2.1];
    assert(0 <= u < 4 && 0 <= v < 4 && u != v);
    assert(ps2[ab2.0] == ps[u] && ps2[ab2.1] == ps[v]);

    // The selected pair of ps2, read back in ps, is an index pair of ps.
    let kuv = if u < v {
        pair_index(u, v)
    } else {
        pair_index(v, u)
    };
    lemma_sqd_sym(ps[u], ps[v]);
    assert(0 <= kuv < 6 && pair_sqd(ps, kuv) == sqd(ps[u], ps[v]));

    // The selected pair of ps, read forward into ps2, is an index pair of
    // ps2, so each maximum dominates the other and they are equal.
    let i2 = idx_of(perm, ab1.0);
    let j2 = idx_of(perm, ab1.1);
    assert(perm[i2] == ab1.0 && 0 <= i2 < 4);
    assert(perm[j2] == ab1.1 && 0 <= j2 < 4);
    assert(i2 != j2);
    let kab = if i2 < j2 {
        pair_index(i2, j2)
    } else {
        pair_index(j2, i2)
    };
    lemma_sqd_sym(ps[ab1.0], ps[ab1.1]);
    assert(0 <= kab < 6 && pair_sqd(ps2, kab) == sqd(ps[ab1.0], ps[ab1.1]));
    assert(max_q(ps2) >= pair_sqd(ps2, kab));
    assert(max_q(ps2) == pair_sqd(ps, kuv) <= max_q(ps));
    assert(max_q(ps2) == max_q(ps));

    // A unique maximum pins the selected points of ps2 to the same two
    // points, in one orientation or the other.
    assert(pair_at(kuv) == ab1);
    assert((u == ab1.0 && v == ab1.1) || (u == ab1.1 && v == ab1.0));

    // The two remaining indices then carry the two remaining points.
    let c1 = first_excluding(ab1.0, ab1.1);
    let d1 = second_excluding(ab1.0, ab1.1, c1);
    let c2 = first_excluding(ab2.0, ab2.1);
    let d2 = second_excluding(ab2.0, ab2.1, c2);
    let pu = perm[c2];
    let pw = perm[d2];
    assert(pu != u && pu != v && pw != u && pw != v && pu != pw);
    assert((pu == c1 && pw == d1) || (pu == d1 && pw == c1));
    assert(ps2[c2] == ps[pu] && ps2[d2] == ps[pw]);

    let a1 = ps[ab1.0];
    let b1 = ps[ab1.1];
    let cc1 = ps[c1];
    let dd1 = ps[d1];
    assert(ghash_of(ps2) == hash_from(ps2[ab2.0], ps2[ab2.1], ps2[c2], ps2[d2]));
    assert(ghash_of(ps) == hash_from(a1, b1, cc1, dd1));

    if u == ab1.0 {
        if pu == c1 {
        } else {
            lemma_hash_swap_cd(a1, b1, cc1, dd1);
        }
    } else {
        lemma_frame_swap(a1, b1, cc1);
        lemma_frame_swap(a1, b1, dd1);
        if pu == c1 {
            lemma_hash_swap_ab(a1, b1, cc1, dd1);
        } else {
            lemma_hash_swap_cd(b1, a1, cc1, dd1);
            lemma_hash_swap_ab(a1, b1, cc1, dd1);
        }
    }
}

/// The x-coordinate of p after rot counterclockwise quarter turns.
pub open spec fn rot_x(rot: int, p: (i64, i64)) -> int {
    if rot == 0 {
        p.0 as int
    } else if rot == 1 {
        -p.1 as int
    } else if rot == 2 {
        -p.0 as int
    } else {
        p.1 as int
    }
}

/// The y-coordinate of p after rot counterclockwise quarter turns.
pub open spec fn rot_y(rot: int, p: (i64, i64)) -> int {
    if rot == 0 {
        p.1 as int
    } else if rot == 1 {
        p.0 as int
    } else if rot == 2 {
        -p.1 as int
    } else {
        -p.0 as int
    }
}

/// ps2 is ps scaled by the positive rational sn/sd, rotated by rot quarter
/// turns, and translated by (tx, ty), all exactly in integers.
pub open spec fn is_similar(
    ps: Seq<(i64, i64)>,
    ps2: Seq<(i64, i64)>,
    sn: int,
    sd: int,
    rot: int,
    tx: int,
    ty: int,
) -> bool {
    &&& sn > 0
    &&& sd > 0
    &&& 0 <= rot < 4
    &&& forall|i: int|
        0 <= i < 4 ==> sd * (#[trigger] ps2[i]).0 == sn * rot_x(rot, ps[i]) + sd * tx && sd * (
        ps2[i]).1 == sn * rot_y(rot, ps[i]) + sd * ty
}

/// Products of numbers scaled by the same rational scale by its square.
proof fn lemma_scaled_prod(sd: int, sn: int, x2: int, x1: int, y2: int, y1: int)
    by (nonlinear_arith)
    requires
        sd * x2 == sn * x1,
        sd * y2 == sn * y1,
    ensures
        (sd * sd) * (x2 * y2) == (sn * sn) * (x1 * y1),
{
}

/// Scaling both difference vectors by the same rational scales a bilinear
/// frame numerator by its square.
proof fn lemma_frame_bilinear(
    sd: int,
    sn: int,
    u20: int,
    u21: int,
    w20: int,
    w21: int,
    u10: int,
    u11: int,
    w10: int,
    w11: int,
)
    requires
        sd * u20 == sn * u10,
        sd * u21 == sn * u11,
        sd * w20 == sn * w10,
        sd * w21 == sn * w11,
    ensures
        (sd * sd) * (u20 * (w20 + w21) + u21 * (w21 - w20)) == (sn * sn) * (u10 * (w10 + w11) + u11
            * (w11 - w10)),
        (sd * sd) * (u20 * (w20 - w21) + u21 * (w20 + w21)) == (sn * sn) * (u10 * (w10 - w11) + u11
            * (w10 + w11)),
        (sd * sd) * (w20 * w20 + w21 * w21) == (sn * sn) * (w10 * w10 + w11 * w11),
{
    lemma_scaled_prod(sd, sn, u20, u10, w20, w10);
    lemma_scaled_prod(sd, sn, u20, u10, w21, w11);
    lemma_scaled_prod(sd, sn, u21, u11, w20, w10);
    lemma_scaled_prod(sd, sn, u21, u11, w21, w11);
    lemma_scaled_prod(sd, sn, w20, w10, w20, w10);
    lemma_scaled_prod(sd, sn, w21, w11, w21, w11);
    lemma_frame_expand(sd * sd, u20, u21, w20, w21);
    lemma_frame_expand(sn * sn, u10, u11, w10, w11);
}

/// Multiplying a frame numerator by a factor distributes over its four
/// products.
proof fn lemma_frame_expand(k: int, u0: int, u1: int, w0: int, w1: int)
    ensures
        k * (u0 * (w0 + w1) + u1 * (w1 - w0)) == k * (u0 * w0) + k * (u0 * w1) + k * (u1 * w1) - k
            * (u1 * w0),
        k * (u0 * (w0 - w1) + u1 * (w0 + w1)) == k * (u0 * w0) - k * (u0 * w1) + k * (u1 * w0) + k
            * (u1 * w1),
        k * (w0 * w0 + w1 * w1) == k * (w0 * w0) + k * (w1 * w1),
{
    lemma_mul_is_distributive_add(u0, w0, w1);
    lemma_mul_is_distributive_sub(u1, w1, w0);
    lemma_mul_is_distributive_sub(u0, w0, w1);
    lemma_mul_is_distributive_add(u1, w0, w1);
    lemma_mul_is_distributive_add(k, u0 * w0 + u0 * w1, u1 * w1 - u1 * w0);
    lemma_mul_is_distributive_add(k, u0 * w0, u0 * w1);
    lemma_mul_is_distributive_sub(k, u1 * w1, u1 * w0);
    lemma_mul_is_distributive_add(k, u0 * w0 - u0 * w1, u1 * w0 + u1 * w1);
    lemma_mul_is_distributive_sub(k, u0 * w0, u0 * w1);
    lemma_mul_is_distributive_add(k, u1 * w0, u1 * w1);
    lemma_mul_is_distributive_add(k, w0 * w0, w1 * w1);
}

/// Quarter-turn rotations preserve squared length and both frame numerators
/// of difference vectors.
proof fn lemma_frame_rot(rot: int, a: (i64, i64), b: (i64, i64), c: (i64, i64))
    requires
        0 <= rot < 4,
    ensures
        ({
            let wx = rot_x(rot, b) - rot_x(rot, a);
            let wy = rot_y(rot, b) - rot_y(rot, a);
            let ux = rot_x(rot, c) - rot_x(rot, a);
            let uy = rot_y(rot, c) - rot_y(rot, a);
            &&& wx * wx + wy * wy == sqd(a, b)
            &&& ux * (wx + wy) + uy * (wy - wx) == frame_x(a, b, c)
            &&& ux * (wx - wy) + uy * (wx + wy) == frame_y(a, b, c)
        }),
{
    let wx = rot_x(rot, b) - rot_x(rot, a);
    let wy = rot_y(rot, b) - rot_y(rot, a);
    let ux = rot_x(rot, c) - rot_x(rot, a);
    let uy = rot_y(rot, c) - rot_y(rot, a);
    assert(wx * wx + wy * wy == sqd(a, b) && ux * (wx + wy) + uy * (wy - wx) == frame_x(a, b, c)
        && ux * (wx - wy) + uy * (wx + wy) == frame_y(a, b, c)) by (nonlinear_arith)
        requires
            0 <= rot < 4,
            wx == rot_x(rot, b) - rot_x(rot, a),
            wy == rot_y(rot, b) - rot_y(rot, a),
            ux == rot_x(rot, c) - rot_x(rot, a),
            uy == rot_y(rot, c) - rot_y(rot, a),
    ;
}

/// Multiplying two sides of a comparison by the same positive rational
/// preserves its direction.
proof fn lemma_scale_ineq(s1: int, s2: int, x2: int, x1: int, y2: int, y1: int) by (nonlinear_arith)
    requires
        s1 > 0,
        s2 > 0,
        s1 * x2 == s2 * x1,
        s1 * y2 == s2 * y1,
    ensures
        (x2 >= y2) == (x1 >= y1),
        (x2 > y2) == (x1 > y1),
        (x2 == y2) == (x1 == y1),
{
}

/// The disk test is invariant under scaling all three numbers by the same
/// positive rational.
proof fn lemma_scaled_disk(
    s1: int,
    s2: int,
    q2: int,
    nx2: int,
    ny2: int,
    q1: int,
    nx1: int,
    ny1: int,
)
    requires
        s1 > 0,
        s2 > 0,
        s1 * q2 == s2 * q1,
        s1 * nx2 == s2 * nx1,
        s1 * ny2 == s2 * ny1,
    ensures
        in_disk(q2, nx2, ny2) == in_disk(q1, nx1, ny1),
{
    let e2x = 2 * nx2 - q2;
    let e2y = 2 * ny2 - q2;
    let e1x = 2 * nx1 - q1;
    let e1y = 2 * ny1 - q1;
    assert(s1 * e2x == s2 * e1x) by (nonlinear_arith)
        requires
            s1 * q2 == s2 * q1,
            s1 * nx2 == s2 * nx1,
            e2x == 2 * nx2 - q2,
            e1x == 2 * nx1 - q1,
    ;
    assert(s1 * e2y == s2 * e1y) by (nonlinear_arith)
        requires
            s1 * q2 == s2 * q1,
            s1 * ny2 == s2 * ny1,
            e2y == 2 * ny2 - q2,
            e1y == 2 * ny1 - q1,
    ;
    lemma_scaled_prod(s1, s2, e2x, e1x, e2x, e1x);
    lemma_scaled_prod(s1, s2, e2y, e1y, e2y, e1y);
    lemma_scaled_prod(s1, s2, q2, q1, q2, q1);
    assert(s1 * s1 > 0 && s2 * s2 > 0) by (nonlinear_arith)
        requires
            s1 > 0,
            s2 > 0,
    ;
    assert((s1 * s1) * (e2x * e2x + e2y * e2y) == (s2 * s2) * (e1x * e1x + e1y * e1y))
        by (nonlinear_arith)
        requires
            (s1 * s1) * (e2x * e2x) == (s2 * s2) * (e1x * e1x),
            (s1 * s1) * (e2y * e2y) == (s2 * s2) * (e1y * e1y),
    ;
    assert((s1 * s1) * (2 * q2 * q2) == (s2 * s2) * (2 * q1 * q1)) by (nonlinear_arith)
        requires
            (s1 * s1) * (q2 * q2) == (s2 * s2) * (q1 * q1),
    ;
    lemma_scale_ineq(
        s1 * s1,
        s2 * s2,
        2 * q2 * q2,
        2 * q1 * q1,
        e2x * e2x + e2y * e2y,
        e1x * e1x + e1y * e1y,
    );
}

/// Numbers scaled by the same positive rational are cross-multiplication
/// equal.
proof fn lemma_cross_eq(s1: int, s2: int, a2: int, a1: int, q2: int, q1: int) by (nonlinear_arith)
    requires
        s1 > 0,
        s2 > 0,
        s1 * a2 == s2 * a1,
        s1 * q2 == s2 * q1,
    ensures
        a2 * q1 == a1 * q2,
{
}

/// Pairwise squared distances transfer under a similarity with the squared
/// scale.
proof fn lemma_pair_sqd_transfer(
    ps: Seq<(i64, i64)>,
    ps2: Seq<(i64, i64)>,
    sn: int,
    sd: int,
    rot: int,
    tx: int,
    ty: int,
    k: int,
)
    requires
        ps.len() == 4,
        ps2.len() == 4,
        is_similar(ps, ps2, sn, sd, rot, tx, ty),
        0 <= k < 6,
    ensures
        (sd * sd) * pair_sqd(ps2, k) == (sn * sn) * pair_sqd(ps, k),
{
    let i = pair_at(k).0;
    let j = pair_at(k).1;
    assert(sd * (ps2[i]).0 == sn * rot_x(rot, ps[i]) + sd * tx);
    assert(sd * (ps2[j]).0 == sn * rot_x(rot, ps[j]) + sd * tx);
    let w20 = ps2[j].0 - ps2[i].0;
    let w21 = ps2[j].1 - ps2[i].1;
    let w10 = rot_x(rot, ps[j]) - rot_x(rot, ps[i]);
    let w11 = rot_y(rot, ps[j]) - rot_y(rot, ps[i]);
    assert(sd * w20 == sn * w10 && sd * w21 == sn * w11) by (nonlinear_arith)
        requires
            sd * (ps2[i]).0 == sn * rot_x(rot, ps[i]) + sd * tx,
            sd * (ps2[j]).0 == sn * rot_x(rot, ps[j]) + sd * tx,
            sd * (ps2[i]).1 == sn * rot_y(rot, ps[i]) + sd * ty,
            sd * (ps2[j]).1 == sn * rot_y(rot, ps[j]) + sd * ty,
            w20 == ps2[j].0 - ps2[i].0,
            w21 == ps2[j].1 - ps2[i].1,
            w10 == rot_x(rot, ps[j]) - rot_x(rot, ps[i]),
            w11 == rot_y(rot, ps[j]) - rot_y(rot, ps[i]),
    ;
    lemma_frame_bilinear(sd, sn, w20, w21, w20, w21, w10, w11, w10, w11);
    lemma_frame_rot(rot, ps[i], ps[j], ps[i]);
    lemma_sqd_sym(ps2[i], ps2[j]);
    assert(sqd(ps2[j], ps2[i]) == w20 * w20 + w21 * w21);
}

/// Frame numerators transfer under a similarity with the squared scale.
proof fn lemma_frame_transfer(
    ps: Seq<(i64, i64)>,
    ps2: Seq<(i64, i64)>,
    sn: int,
    sd: int,
    rot: int,
    tx: int,
    ty: int,
    ai: int,
    bi: int,
    ci: int,
)
    requires
        ps.len() == 4,
        ps2.len() == 4,
        is_similar(ps, ps2, sn, sd, rot, tx, ty),
        0 <= ai < 4,
        0 <= bi < 4,
        0 <= ci < 4,
    ensures
        (sd * sd) * frame_x(ps2[ai], ps2[bi], ps2[ci]) == (sn * sn) * frame_x(
            ps[ai],
            ps[bi],
            ps[ci],
        ),
        (sd * sd) * frame_y(ps2[ai], ps2[bi], ps2[ci]) == (sn * sn) * frame_y(
            ps[ai],
            ps[bi],
            ps[ci],
        ),
{
    assert(sd * (ps2[ai]).0 == sn * rot_x(rot, ps[ai]) + sd * tx);
    assert(sd * (ps2[bi]).0 == sn * rot_x(rot, ps[bi]) + sd * tx);
    assert(sd * (ps2[ci]).0 == sn * rot_x(rot, ps[ci]) + sd * tx);
    let w20 = ps2[bi].0 - ps2[ai].0;
    let w21 = ps2[bi].1 - ps2[ai].1;
    let u20 = ps2[ci].0 - ps2[ai].0;
    let u21 = ps2[ci].1 - ps2[ai].1;
    let w10 = rot_x(rot, ps[bi]) - rot_x(rot, ps[ai]);
    let w11 = rot_y(rot, ps[bi]) - rot_y(rot, ps[ai]);
    let u10 = rot_x(rot, ps[ci]) - rot_x(rot, ps[ai]);
    let u11 = rot_y(rot, ps[ci]) - rot_y(rot, ps[ai]);
    assert(sd * w20 == sn * w10 && sd * w21 == sn * w11 && sd * u20 == sn * u10 && sd * u21 == sn
        * u11) by (nonlinear_arith)
        requires
            sd * (ps2[ai]).0 == sn * rot_x(rot, ps[ai]) + sd * tx,
            sd * (ps2[bi]).0 == sn * rot_x(rot, ps[bi]) + sd * tx,
            sd * (ps2[ci]).0 == sn * rot_x(rot, ps[ci]) + sd * tx,
            sd * (ps2[ai]).1 == sn * rot_y(rot, ps[ai]) + sd * ty,
            sd * (ps2[bi]).1 == sn * rot_y(rot, ps[bi]) + sd * ty,
            sd * (ps2[ci]).1 == sn * rot_y(rot, ps[ci]) + sd * ty,
            w20 == ps2[bi].0 - ps2[ai].0,
            w21 == ps2[bi].1 - ps2[ai].1,
            u20 == ps2[ci].0 - ps2[ai].0,
            u21 == ps2[ci].1 - ps2[ai].1,
            w10 == rot_x(rot, ps[bi]) - rot_x(rot, ps[ai]),
            w11 == rot_y(rot, ps[bi]) - rot_y(rot, ps[ai]),
            u10 == rot_x(rot, ps[ci]) - rot_x(rot, ps[ai]),
            u11 == rot_y(rot, ps[ci]) - rot_y(rot, ps[ai]),
    ;
    lemma_frame_bilinear(sd, sn, u20, u21, w20, w21, u10, u11, w10, w11);
    lemma_frame_rot(rot, ps[ai], ps[bi], ps[ci]);
}

/// The pair selection scans identically on two point slates whose pairwise
/// squared distances agree up to a positive rational factor.
proof fn lemma_sel_transfer(ps: Seq<(i64, i64)>, ps2: Seq<(i64, i64)>, s1: int, s2: int, k: int)
    requires
        0 <= k < 6,
        s1 > 0,
        s2 > 0,
        forall|k2: int| 0 <= k2 < 6 ==> s1 * #[trigger] pair_sqd(ps2, k2) == s2 * pair_sqd(ps, k2),
    ensures
        sel_pair_upto(ps2, k) == sel_pair_upto(ps, k),
        ({
            let s = sel_pair_upto(ps, k);
            &&& 0 <= s.0 < s.1 < 4
            &&& pair_at(pair_index(s.0, s.1)) == s
            &&& 0 <= pair_index(s.0, s.1) <= k
        }),
    decreases k,
{
    if k > 0 {
        lemma_sel_transfer(ps, ps2, s1, s2, k - 1);
        let prev = sel_pair_upto(ps, k - 1);
        let kp = pair_index(prev.0, prev.1);
        lemma_scale_ineq(
            s1,
            s2,
            pair_sqd(ps2, k),
            pair_sqd(ps, k),
            pair_sqd(ps2, kp),
            pair_sqd(ps, kp),
        );
    }
}

/// Law (similarity invariance): translating the four points, rotating them
/// by quarter turns, and scaling them by any positive rational (all exactly
/// representable in the integer plane) leaves the geometric hash equal as a
/// rational value, and leaves quad existence unchanged.
pub proof fn lemma_ghash_similarity_invariant(
    ps: Seq<(i64, i64)>,
    ps2: Seq<(i64, i64)>,
    sn: int,
    sd: int,
    rot: int,
    tx: int,
    ty: int,
)
    requires
        ps.len() == 4,
        ps2.len() == 4,
        is_similar(ps, ps2, sn, sd, rot, tx, ty),
    ensures
        (ghash_of(ps2) is Some) == (ghash_of(ps) is Some),
        ghash_of(ps) matches Some(g1) ==> ghash_eq(ghash_of(ps2).unwrap(), g1),
{
    let s1 = sd * sd;
    let s2 = sn * sn;
    assert(s1 > 0 && s2 > 0) by (nonlinear_arith)
        requires
            sd > 0,
            sn > 0,
            s1 == sd * sd,
            s2 == sn * sn,
    ;
    assert forall|k: int| 0 <= k < 6 implies s1 * #[trigger] pair_sqd(ps2, k) == s2 * pair_sqd(
        ps,
        k,
    ) by {
        lemma_pair_sqd_transfer(ps, ps2, sn, sd, rot, tx, ty, k);
    }
    lemma_sel_transfer(ps, ps2, s1, s2, 5);
    let ab = sel_pair(ps);
    assert(sel_pair(ps2) == ab);
    let ci = first_excluding(ab.0, ab.1);
    let di = second_excluding(ab.0, ab.1, ci);
    assert(0 <= ci < 4 && 0 <= di < 4);

    let kab = pair_index(ab.0, ab.1);
    let q1 = sqd(ps[ab.0], ps[ab.1]);
    let q2 = sqd(ps2[ab.0], ps2[ab.1]);
    assert(s1 * q2 == s2 * q1) by {
        assert(s1 * pair_sqd(ps2, kab) == s2 * pair_sqd(ps, kab));
    }
    lemma_scale_ineq(s1, s2, q2, q1, 0, 0);

    if q1 != 0 {
        lemma_frame_transfer(ps, ps2, sn, sd, rot, tx, ty, ab.0, ab.1, ci);
        lemma_frame_transfer(ps, ps2, sn, sd, rot, tx, ty, ab.0, ab.1, di);
        let cx1 = frame_x(ps[ab.0], ps[ab.1], ps[ci]);
        let cy1 = frame_y(ps[ab.0], ps[ab.1], ps[ci]);
        let dx1 = frame_x(ps[ab.0], ps[ab.1], ps[di]);
        let dy1 = frame_y(ps[ab.0], ps[ab.1], ps[di]);
        let cx2 = frame_x(ps2[ab.0], ps2[ab.1], ps2[ci]);
        let cy2 = frame_y(ps2[ab.0], ps2[ab.1], ps2[ci]);
        let dx2 = frame_x(ps2[ab.0], ps2[ab.1], ps2[di]);
        let dy2 = frame_y(ps2[ab.0], ps2[ab.1], ps2[di]);
        lemma_scaled_disk(s1, s2, q2, cx2, cy2, q1, cx1, cy1);
        lemma_scaled_disk(s1, s2, q2, dx2, dy2, q1, dx1, dy1);
        if in_disk(q1, cx1, cy1) && in_disk(q1, dx1, dy1) {
            lemma_mul_is_distributive_add(s1, cx2, dx2);
            lemma_mul_is_distributive_add(s2, cx1, dx1);
            lemma_scale_ineq(s1, s2, cx2 + dx2, cx1 + dx1, q2, q1);
            let flip = cx1 + dx1 > q1;
            let fcx1 = if flip { q1 - cx1 } else { cx1 };
            let fcy1 = if flip { q1 - cy1 } else { cy1 };
            let fdx1 = if flip { q1 - dx1 } else { dx1 };
            let fdy1 = if flip { q1 - dy1 } else { dy1 };
            let fcx2 = if flip { q2 - cx2 } else { cx2 };
            let fcy2 = if flip { q2 - cy2 } else { cy2 };
            let fdx2 = if flip { q2 - dx2 } else { dx2 };
            let fdy2 = if flip { q2 - dy2 } else { dy2 };
            if flip {
                lemma_mul_is_distributive_sub(s1, q2, cx2);
                lemma_mul_is_distributive_sub(s2, q1, cx1);
                lemma_mul_is_distributive_sub(s1, q2, cy2);
                lemma_mul_is_distributive_sub(s2, q1, cy1);
                lemma_mul_is_distributive_sub(s1, q2, dx2);
                lemma_mul_is_distributive_sub(s2, q1, dx1);
                lemma_mul_is_distributive_sub(s1, q2, dy2);
                lemma_mul_is_distributive_sub(s2, q1, dy1);
            }
            assert(s1 * fcx2 == s2 * fcx1 && s1 * fcy2 == s2 * fcy1 && s1 * fdx2 == s2 * fdx1
                && s1 * fdy2 == s2 * fdy1);
            lemma_scale_ineq(s1, s2, fcx2, fcx1, fdx2, fdx1);
            lemma_cross_eq(s1, s2, fcx2, fcx1, q2, q1);
            lemma_cross_eq(s1, s2, fcy2, fcy1, q2, q1);
            lemma_cross_eq(s1, s2, fdx2, fdx1, q2, q1);
            lemma_cross_eq(s1, s2, fdy2, fdy1, q2, q1);
        }
    }
}

} // verus!
