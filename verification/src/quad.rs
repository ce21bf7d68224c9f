//! Similarity-invariant geometric hash of four points.
//!
//! Four points are fingerprinted by expressing the two inner points C and D
//! in the frame that maps the most distant pair A, B to (0,0) and (1,1). In
//! that frame every coordinate is an exact rational whose common denominator
//! is the squared distance q between A and B, so the hash is carried as five
//! integers (four numerators and q) and no rounding ever occurs.
//!
//! The arrangement is canonicalized so that the hash does not depend on the
//! order the points are given in: A and B are the pair with the largest
//! squared distance, C and D lie inside the disk with diameter AB, the roles
//! of A and B are swapped when C.x + D.x would exceed 1, and C comes before D
//! by frame x-coordinate.

use vstd::prelude::*;

verus! {

/// Coordinates may spread at most this far apart (2^28), so that every
/// intermediate product of the exact construction fits in the machine words
/// used to compute it.
pub const MAX_SPREAD: i64 = 268435456;

/// The two points differ by at most the allowed spread on each axis.
pub open spec fn near(p: (i64, i64), r: (i64, i64)) -> bool {
    -268435456 <= p.0 - r.0 <= 268435456 && -268435456 <= p.1 - r.1 <= 268435456
}

/// Every pair of the four points is within the allowed spread.
pub open spec fn bounded_spread(ps: Seq<(i64, i64)>) -> bool {
    forall|i: int, j: int| 0 <= i < 4 && 0 <= j < 4 ==> #[trigger] near(ps[i], ps[j])
}

/// Squared Euclidean distance.
pub open spec fn sqd(p: (i64, i64), r: (i64, i64)) -> int {
    (p.0 - r.0) * (p.0 - r.0) + (p.1 - r.1) * (p.1 - r.1)
}

/// Numerator of the frame x-coordinate of c in the frame that sends a to
/// (0,0) and b to (1,1); the denominator is sqd(a, b).
pub open spec fn frame_x(a: (i64, i64), b: (i64, i64), c: (i64, i64)) -> int {
    (c.0 - a.0) * ((b.0 - a.0) + (b.1 - a.1)) + (c.1 - a.1) * ((b.1 - a.1) - (b.0 - a.0))
}

/// Numerator of the frame y-coordinate of c; the denominator is sqd(a, b).
pub open spec fn frame_y(a: (i64, i64), b: (i64, i64), c: (i64, i64)) -> int {
    (c.0 - a.0) * ((b.0 - a.0) - (b.1 - a.1)) + (c.1 - a.1) * ((b.0 - a.0) + (b.1 - a.1))
}

/// The frame point (nx/q, ny/q) lies in the closed disk of radius sqrt(2)/2
/// around (1/2, 1/2): the disk whose diameter is the segment from (0,0) to
/// (1,1).
pub open spec fn in_disk(q: int, nx: int, ny: int) -> bool {
    (2 * nx - q) * (2 * nx - q) + (2 * ny - q) * (2 * ny - q) <= 2 * q * q
}

/// The k-th index pair in combination order.
pub open spec fn pair_at(k: int) -> (int, int) {
    if k == 0 {
        (0, 1)
    } else if k == 1 {
        (0, 2)
    } else if k == 2 {
        (0, 3)
    } else if k == 3 {
        (1, 2)
    } else if k == 4 {
        (1, 3)
    } else {
        (2, 3)
    }
}

/// The selected pair after scanning the first k+1 pairs: the last pair in
/// combination order whose squared distance equals the maximum so far.
pub open spec fn sel_pair_upto(ps: Seq<(i64, i64)>, k: int) -> (int, int)
    decreases k,
{
    if k <= 0 {
        (0, 1)
    } else {
        let prev = sel_pair_upto(ps, k - 1);
        let cur = pair_at(k);
        if sqd(ps[cur.0], ps[cur.1]) >= sqd(ps[prev.0], ps[prev.1]) {
            cur
        } else {
            prev
        }
    }
}

/// The pair with the largest squared distance (the last such pair in
/// combination order when several tie).
pub open spec fn sel_pair(ps: Seq<(i64, i64)>) -> (int, int) {
    sel_pair_upto(ps, 5)
}

/// The smallest index that is neither a nor b.
pub open spec fn first_excluding(a: int, b: int) -> int {
    if 0 != a && 0 != b {
        0
    } else if 1 != a && 1 != b {
        1
    } else {
        2
    }
}

/// The smallest index that is none of a, b, c.
pub open spec fn second_excluding(a: int, b: int, c: int) -> int {
    if 0 != a && 0 != b && 0 != c {
        0
    } else if 1 != a && 1 != b && 1 != c {
        1
    } else if 2 != a && 2 != b && 2 != c {
        2
    } else {
        3
    }
}

/// Ghost value of a geometric hash: the frame coordinates of C and D as the
/// rationals cx/q, cy/q, dx/q, dy/q.
pub struct GhashModel {
    pub cx: int,
    pub cy: int,
    pub dx: int,
    pub dy: int,
    pub q: int,
}

/// Two hashes denote the same four rationals.
pub open spec fn ghash_eq(g1: GhashModel, g2: GhashModel) -> bool {
    &&& g1.cx * g2.q == g2.cx * g1.q
    &&& g1.cy * g2.q == g2.cy * g1.q
    &&& g1.dx * g2.q == g2.dx * g1.q
    &&& g1.dy * g2.q == g2.dy * g1.q
}

/// The construction's invariants, stated of the hash itself: a positive
/// denominator, both frame points inside the AB disk, the half-plane rule
/// C.x + D.x <= 1, and the ordering C.x <= D.x.
pub open spec fn ghash_canonical(g: GhashModel) -> bool {
    &&& g.q > 0
    &&& in_disk(g.q, g.cx, g.cy)
    &&& in_disk(g.q, g.dx, g.dy)
    &&& g.cx + g.dx <= g.q
    &&& g.cx <= g.dx
}

/// Magnitude bounds that the spread bound forces on a computed hash.
pub open spec fn ghash_bounded(g: GhashModel) -> bool {
    &&& g.q <= 0x200000000000000
    &&& -0x800000000000000 <= g.cx <= 0x800000000000000
    &&& -0x800000000000000 <= g.cy <= 0x800000000000000
    &&& -0x800000000000000 <= g.dx <= 0x800000000000000
    &&& -0x800000000000000 <= g.dy <= 0x800000000000000
}

/// The canonical hash built from the oriented maximum pair (a, b) and the
/// remaining points (c, d): the disk test, then the half-plane flip, then
/// the x-ordering of C and D. None when the four points coincide or when C
/// or D falls outside the AB disk.
pub open spec fn hash_from(a: (i64, i64), b: (i64, i64), c: (i64, i64), d: (i64, i64)) -> Option<
    GhashModel,
> {
    let q = sqd(a, b);
    if q == 0 {
        None
    } else {
        let cx = frame_x(a, b, c);
        let cy = frame_y(a, b, c);
        let dx = frame_x(a, b, d);
        let dy = frame_y(a, b, d);
        if !in_disk(q, cx, cy) || !in_disk(q, dx, dy) {
            None
        } else {
            let cx2 = if cx + dx > q {
                q - cx
            } else {
                cx
            };
            let cy2 = if cx + dx > q {
                q - cy
            } else {
                cy
            };
            let dx2 = if cx + dx > q {
                q - dx
            } else {
                dx
            };
            let dy2 = if cx + dx > q {
                q - dy
            } else {
                dy
            };
            if cx2 > dx2 {
                Some(GhashModel { cx: dx2, cy: dy2, dx: cx2, dy: cy2, q })
            } else {
                Some(GhashModel { cx: cx2, cy: cy2, dx: dx2, dy: dy2, q })
            }
        }
    }
}

/// The hash of four points: the canonical hash over the selected maximum
/// pair and the two remaining points.
pub open spec fn ghash_of(ps: Seq<(i64, i64)>) -> Option<GhashModel> {
    let ab = sel_pair(ps);
    let c = first_excluding(ab.0, ab.1);
    let d = second_excluding(ab.0, ab.1, c);
    hash_from(ps[ab.0], ps[ab.1], ps[c], ps[d])
}

/// The arrangement (a, b, c, d) that `ghash_of` reads the points in, after
/// the half-plane flip of a and b and the x-ordering of c and d.
pub open spec fn arrangement_of(ps: Seq<(i64, i64)>) -> (int, int, int, int) {
    let ab = sel_pair(ps);
    let c0 = first_excluding(ab.0, ab.1);
    let d0 = second_excluding(ab.0, ab.1, c0);
    let a = ps[ab.0];
    let b = ps[ab.1];
    let q = sqd(a, b);
    let cx = frame_x(a, b, ps[c0]);
    let dx = frame_x(a, b, ps[d0]);
    let flip = cx + dx > q;
    let ab2 = if flip {
        (ab.1, ab.0)
    } else {
        (ab.0, ab.1)
    };
    let cx2 = if flip {
        q - cx
    } else {
        cx
    };
    let dx2 = if flip {
        q - dx
    } else {
        dx
    };
    if cx2 > dx2 {
        (ab2.0, ab2.1, d0, c0)
    } else {
        (ab2.0, ab2.1, c0, d0)
    }
}

/// A geometric hash held as exact integers: the frame coordinates of C are
/// (cx/q, cy/q) and of D are (dx/q, dy/q), with q the squared distance of
/// the most distant pair.
#[derive(Debug, Clone, Copy, PartialEq, Eq, Structural)]
pub struct GHash {
    pub cx: i64,
    pub cy: i64,
    pub dx: i64,
    pub dy: i64,
    pub q: i64,
}

impl View for GHash {
    type V = GhashModel;

    open spec fn view(&self) -> GhashModel {
        GhashModel {
            cx: self.cx as int,
            cy: self.cy as int,
            dx: self.dx as int,
            dy: self.dy as int,
            q: self.q as int,
        }
    }
}

/// Squared distance of two points within the allowed spread.
fn sqdist64(p: (i64, i64), r: (i64, i64)) -> (d: i64)
    requires
        near(p, r),
    ensures
        d == sqd(p, r),
        0 <= d <= 0x200000000000000,
{
    let ddx = p.0 - r.0;
    let ddy = p.1 - r.1;
    proof {
        assert(0 <= ddx * ddx <= 0x100000000000000 && 0 <= ddy * ddy <= 0x100000000000000)
            by (nonlinear_arith)
            requires
                -268435456 <= ddx <= 268435456,
                -268435456 <= ddy <= 268435456,
        ;
    }
    ddx * ddx + ddy * ddy
}

/// Both frame numerators of c relative to the oriented pair (a, b).
fn frame_nums(a: (i64, i64), b: (i64, i64), c: (i64, i64)) -> (r: (i64, i64))
    requires
        near(a, b),
        near(a, c),
    ensures
        r.0 == frame_x(a, b, c),
        r.1 == frame_y(a, b, c),
        -0x400000000000000 <= r.0 <= 0x400000000000000,
        -0x400000000000000 <= r.1 <= 0x400000000000000,
{
    let bx = b.0 - a.0;
    let by = b.1 - a.1;
    let cx = c.0 - a.0;
    let cy = c.1 - a.1;
    proof {
        assert({
            &&& -0x200000000000000 <= cx * (bx + by) <= 0x200000000000000
            &&& -0x200000000000000 <= cy * (by - bx) <= 0x200000000000000
            &&& -0x200000000000000 <= cx * (bx - by) <= 0x200000000000000
            &&& -0x200000000000000 <= cy * (bx + by) <= 0x200000000000000
        })
            by (nonlinear_arith)
            requires
                -268435456 <= bx <= 268435456,
                -268435456 <= by <= 268435456,
                -268435456 <= cx <= 268435456,
                -268435456 <= cy <= 268435456,
        ;
    }
    (cx * (bx + by) + cy * (by - bx), cx * (bx - by) + cy * (bx + by))
}

/// Whether the frame point (nx/q, ny/q) lies in the AB disk, decided exactly
/// in 128-bit arithmetic.
fn disk_check(q: i64, nx: i64, ny: i64) -> (ok: bool)
    requires
        0 <= q <= 0x200000000000000,
        -0x800000000000000 <= nx <= 0x800000000000000,
        -0x800000000000000 <= ny <= 0x800000000000000,
    ensures
        ok == in_disk(q as int, nx as int, ny as int),
{
    let tx = 2 * nx - q;
    let ty = 2 * ny - q;
    let txw = tx as i128;
    let tyw = ty as i128;
    let qw = q as i128;
    proof {
        assert({
            &&& txw * txw + tyw * tyw == (tx as int) * (tx as int) + (ty as int) * (ty as int)
            &&& 2 * (qw * qw) == 2 * (q as int) * (q as int)
            &&& 0 <= txw * txw <= 0x10000000000000000000000000000000
            &&& 0 <= tyw * tyw <= 0x10000000000000000000000000000000
            &&& 0 <= qw * qw <= 0x40000000000000000000000000000
        })
            by (nonlinear_arith)
            requires
                txw == tx as int,
                tyw == ty as int,
                qw == q as int,
                -0x4000000000000000 <= txw <= 0x4000000000000000,
                -0x4000000000000000 <= tyw <= 0x4000000000000000,
                0 <= qw <= 0x200000000000000,
        ;
    }
    let lhs = txw * txw + tyw * tyw;
    let rhs = 2 * (qw * qw);
    lhs <= rhs
}

/// Reflecting a frame point through (1/2, 1/2) keeps it in the AB disk.
pub proof fn lemma_disk_flip(q: int, nx: int, ny: int)
    ensures
        in_disk(q, q - nx, q - ny) == in_disk(q, nx, ny),
{
    assert((2 * (q - nx) - q) * (2 * (q - nx) - q) == (2 * nx - q) * (2 * nx - q))
        by (nonlinear_arith);
    assert((2 * (q - ny) - q) * (2 * (q - ny) - q) == (2 * ny - q) * (2 * ny - q))
        by (nonlinear_arith);
}

/// Computes the geometric hash of four points together with the canonical
/// arrangement (the indices of A, B, C, D among the inputs). Returns None
/// when no canonical quad exists: when all four points coincide or when C or
/// D falls outside the disk with diameter AB.
#[verifier::rlimit(60)]
pub fn compute_ghash(points: &[(i64, i64); 4]) -> (r: Option<(GHash, [usize; 4])>)
    requires
        bounded_spread(points@),
    ensures
        r is Some <==> ghash_of(points@) is Some,
        r matches Some(p) ==> p.0@ == ghash_of(points@).unwrap(),
        r matches Some(p) ==> {
            let arr = arrangement_of(points@);
            &&& p.1@[0] == arr.0
            &&& p.1@[1] == arr.1
            &&& p.1@[2] == arr.2
            &&& p.1@[3] == arr.3
        },
        r matches Some(p) ==> forall|k: int| 0 <= k < 4 ==> #[trigger] p.1@[k] < 4,
        r matches Some(p) ==> ghash_canonical(p.0@) && ghash_bounded(p.0@),
{
    let ghost ps = points@;
    let p0 = points[0];
    let p1 = points[1];
    let p2 = points[2];
    let p3 = points[3];
    assert(near(ps[0], ps[1]) && near(ps[0], ps[2]) && near(ps[0], ps[3]) && near(ps[1], ps[2])
        && near(ps[1], ps[3]) && near(ps[2], ps[3]));

    let d01 = sqdist64(p0, p1);
    let d02 = sqdist64(p0, p2);
    let d03 = sqdist64(p0, p3);
    let d12 = sqdist64(p1, p2);
    let d13 = sqdist64(p1, p3);
    let d23 = sqdist64(p2, p3);

    let mut ai: usize = 0;
    let mut bi: usize = 1;
    let mut best: i64 = d01;
    assert((ai as int, bi as int) == sel_pair_upto(ps, 0));
    if d02 >= best {
        ai = 0;
        bi = 2;
        best = d02;
    }
    assert((ai as int, bi as int) == sel_pair_upto(ps, 1));
    if d03 >= best {
        ai = 0;
        bi = 3;
        best = d03;
    }
    assert((ai as int, bi as int) == sel_pair_upto(ps, 2));
    if d12 >= best {
        ai = 1;
        bi = 2;
        best = d12;
    }
    assert((ai as int, bi as int) == sel_pair_upto(ps, 3));
    if d13 >= best {
        ai = 1;
        bi = 3;
        best = d13;
    }
    assert((ai as int, bi as int) == sel_pair_upto(ps, 4));
    if d23 >= best {
        ai = 2;
        bi = 3;
        best = d23;
    }
    assert((ai as int, bi as int) == sel_pair(ps));
    assert(best == sqd(ps[ai as int], ps[bi as int]));

    let ci: usize = if ai != 0 && bi != 0 {
        0
    } else if ai != 1 && bi != 1 {
        1
    } else {
        2
    };
    let di: usize = if ai != 0 && bi != 0 && ci != 0 {
        0
    } else if ai != 1 && bi != 1 && ci != 1 {
        1
    } else if ai != 2 && bi != 2 && ci != 2 {
        2
    } else {
        3
    };
    assert(ci as int == first_excluding(ai as int, bi as int));
    assert(di as int == second_excluding(ai as int, bi as int, ci as int));

    let q = best;
    if q == 0 {
        return None;
    }

    let pa = points[ai];
    let pb = points[bi];
    let pc = points[ci];
    let pd = points[di];
    assert(near(pa, pb) && near(pa, pc) && near(pa, pd));

    let cn = frame_nums(pa, pb, pc);
    let dn = frame_nums(pa, pb, pd);

    if !disk_check(q, cn.0, cn.1) || !disk_check(q, dn.0, dn.1) {
        return None;
    }

    let flip = cn.0 + dn.0 > q;
    let mut a2: usize = ai;
    let mut b2: usize = bi;
    let mut cx2: i64 = cn.0;
    let mut cy2: i64 = cn.1;
    let mut dx2: i64 = dn.0;
    let mut dy2: i64 = dn.1;
    if flip {
        a2 = bi;
        b2 = ai;
        cx2 = q - cn.0;
        cy2 = q - cn.1;
        dx2 = q - dn.0;
        dy2 = q - dn.1;
        proof {
            lemma_disk_flip(q as int, cn.0 as int, cn.1 as int);
            lemma_disk_flip(q as int, dn.0 as int, dn.1 as int);
        }
    }
    assert(in_disk(q as int, cx2 as int, cy2 as int));
    assert(in_disk(q as int, dx2 as int, dy2 as int));
    assert(cx2 + dx2 <= q);
    let ghost hf = hash_from(ps[ai as int], ps[bi as int], ps[ci as int], ps[di as int]);
    assert(hf is Some && hf == ghash_of(ps));
    let g = if cx2 > dx2 {
        (GHash { cx: dx2, cy: dy2, dx: cx2, dy: cy2, q }, [a2, b2, di, ci])
    } else {
        (GHash { cx: cx2, cy: cy2, dx: dx2, dy: dy2, q }, [a2, b2, ci, di])
    };
    assert(g.0@ == hf.unwrap());
    assert(ghash_canonical(g.0@));
    Some(g)
}

/// Ghost model of a quad: the star payloads in canonical arrangement, the
/// hash, and the metadata payload.
pub struct QuadModel {
    pub stars: Seq<u64>,
    pub ghash: GhashModel,
    pub meta: u64,
}

/// The positions of an input slate of (position, star id) pairs.
pub open spec fn star_positions(stars: Seq<((i64, i64), u64)>) -> Seq<(i64, i64)> {
    stars.map_values(|s: ((i64, i64), u64)| s.0)
}

/// A four-star fingerprint: the callers' star identifiers arranged as
/// (A, B, C, D), the exact geometric hash, and a caller-chosen payload.
pub struct Quad {
    stars: [u64; 4],
    ghash: GHash,
    meta: u64,
}

impl View for Quad {
    type V = QuadModel;

    closed spec fn view(&self) -> QuadModel {
        QuadModel { stars: self.stars@, ghash: self.ghash@, meta: self.meta }
    }
}

impl Quad {
    /// Every quad ever constructed satisfies the four construction
    /// invariants of its hash.
    #[verifier::type_invariant]
    pub closed spec fn wf(self) -> bool {
        &&& ghash_canonical(self.ghash@)
        &&& ghash_bounded(self.ghash@)
        &&& self.stars@.len() == 4
    }

    /// Builds a quad from four (position, star id) pairs, arranging the ids
    /// canonically. None exactly when the four positions admit no quad.
    pub fn new(stars: &[((i64, i64), u64); 4], meta: u64) -> (r: Option<Quad>)
        requires
            bounded_spread(star_positions(stars@)),
        ensures
            r is Some <==> ghash_of(star_positions(stars@)) is Some,
            r matches Some(qd) ==> {
                let arr = arrangement_of(star_positions(stars@));
                &&& qd@.ghash == ghash_of(star_positions(stars@)).unwrap()
                &&& qd@.meta == meta
                &&& qd@.stars =~= seq![
                    stars@[arr.0].1,
                    stars@[arr.1].1,
                    stars@[arr.2].1,
                    stars@[arr.3].1,
                ]
            },
    {
        let positions: [(i64, i64); 4] = [stars[0].0, stars[1].0, stars[2].0, stars[3].0];
        proof {
            assert(positions@ =~= star_positions(stars@));
        }
        match compute_ghash(&positions) {
            Some((ghash, arrangement)) => {
                let arranged: [u64; 4] = [
                    stars[arrangement[0]].1,
                    stars[arrangement[1]].1,
                    stars[arrangement[2]].1,
                    stars[arrangement[3]].1,
                ];
                Some(Quad { stars: arranged, ghash, meta })
            },
            None => None,
        }
    }

    /// The star identifiers in canonical (A, B, C, D) order.
    pub fn get_stars(&self) -> (r: &[u64; 4])
        ensures
            r@ == self@.stars,
    {
        &self.stars
    }

    /// The geometric hash.
    pub fn ghash(&self) -> (g: GHash)
        ensures
            g@ == self@.ghash,
            ghash_canonical(g@),
            ghash_bounded(g@),
    {
        proof {
            use_type_invariant(self);
        }
        self.ghash
    }

    /// The metadata payload.
    pub fn meta(&self) -> (m: u64)
        ensures
            m == self@.meta,
    {
        self.meta
    }

    /// Re-evaluates the four construction invariants on the stored hash;
    /// they hold of every quad, so this always returns true.
    pub fn assert_invariants(&self) -> (ok: bool)
        ensures
            ok,
    {
        proof {
            use_type_invariant(self);
        }
        let g = self.ghash;
        let c_ok = disk_check(g.q, g.cx, g.cy);
        let d_ok = disk_check(g.q, g.dx, g.dy);
        c_ok && d_ok && g.q > 0 && g.cx + g.dx <= g.q && g.cx <= g.dx
    }
}

} // verus!
