//! Spatial index: a pair of kd-trees built once over a star catalog region,
//! one over sky positions and one over quantized quad hashes.
//!
//! Tree entries carry the position (or hash key) together with the entry's
//! position in the owning list, so an exact-match query hands back which
//! stars or quads sit at a point. The index itself is write-once; callers
//! that persist it store `nside` with the star and quad lists and rebuild.

use vstd::multiset::Multiset;
use vstd::prelude::*;

use crate::quad::{ghash_bounded, ghash_canonical, GHash, GhashModel, Quad};

verus! {

/// A catalog star as the index stores it: a designation and a sky position
/// in exactly scaled integer coordinates (the decoder's centi-arcseconds fit
/// directly). Positions must stay within +/- 2^29 of the origin so that the
/// tree's own distance arithmetic cannot overflow.
pub struct IndexStar {
    pub designation: String,
    pub position: [i64; 2],
}

/// The position bound the index demands of stars.
pub const MAX_POSITION: i64 = 536870912;

/// An owned 2-d kd-tree over (position, list index) entries.
#[verifier::external_body]
pub struct PositionTree {
    tree: kd_tree::KdTree2<([i64; 2], u64)>,
}

/// The entries a position tree holds, as (x, y, payload) triples.
pub uninterp spec fn position_entries(t: PositionTree) -> Multiset<(i64, i64, u64)>;

/// An owned 4-d kd-tree over (quantized hash, list index) entries.
#[verifier::external_body]
pub struct QuadTree {
    tree: kd_tree::KdTree4<([i64; 4], u64)>,
}

/// The entries a quad tree holds, as (key, payload) pairs with the key split
/// into its four coordinates.
pub uninterp spec fn quad_entries(t: QuadTree) -> Multiset<(i64, i64, i64, i64, u64)>;

/// Relies on kd_tree::KdTree2::build, a median-split bulk load over Ord
/// scalars: the built tree holds exactly the given entries.
#[verifier::external_body]
fn build_position_tree(items: Vec<(i64, i64, u64)>) -> (t: PositionTree)
    ensures
        position_entries(t) == items@.to_multiset(),
{
    let pts: Vec<([i64; 2], u64)> = items.into_iter().map(|(x, y, p)| ([x, y], p)).collect();
    PositionTree { tree: kd_tree::KdTree2::build(pts) }
}

/// Relies on kd_tree::KdTree4::build: the built tree holds exactly the given
/// entries.
#[verifier::external_body]
fn build_quad_tree(items: Vec<(i64, i64, i64, i64, u64)>) -> (t: QuadTree)
    ensures
        quad_entries(t) == items@.to_multiset(),
{
    let pts: Vec<([i64; 4], u64)> = items.into_iter().map(
        |(a, b, c, d, p)| ([a, b, c, d], p),
    ).collect();
    QuadTree { tree: kd_tree::KdTree4::build(pts) }
}

/// Relies on kd_tree::KdSliceN::within with the degenerate box [p, p]: it
/// returns exactly the entries whose coordinates equal the query point.
#[verifier::external_body]
fn position_tree_exact(t: &PositionTree, x: i64, y: i64) -> (r: Vec<(i64, i64, u64)>)
    ensures
        forall|j: int|
            0 <= j < r@.len() ==> (#[trigger] r@[j]).0 == x && r@[j].1 == y && position_entries(
                *t,
            ).count(r@[j]) > 0,
        forall|e: (i64, i64, u64)|
            e.0 == x && e.1 == y ==> r@.to_multiset().count(e) == position_entries(*t).count(e),
{
    t.tree.within(&[[x, y], [x, y]]).into_iter().map(|it| (it.0[0], it.0[1], it.1)).collect()
}

/// Relies on kd_tree::KdSliceN::within with the degenerate box [p, p] on the
/// quad tree.
#[verifier::external_body]
fn quad_tree_exact(t: &QuadTree, key: [i64; 4]) -> (r: Vec<(i64, i64, i64, i64, u64)>)
    ensures
        forall|j: int|
            0 <= j < r@.len() ==> (#[trigger] r@[j]).0 == key@[0] && r@[j].1 == key@[1] && r@[j].2
                == key@[2] && r@[j].3 == key@[3] && quad_entries(*t).count(r@[j]) > 0,
        forall|e: (i64, i64, i64, i64, u64)|
            e.0 == key@[0] && e.1 == key@[1] && e.2 == key@[2] && e.3 == key@[3]
                ==> r@.to_multiset().count(e) == quad_entries(*t).count(e),
{
    t.tree.within(&[key, key]).into_iter().map(
        |it| (it.0[0], it.0[1], it.0[2], it.0[3], it.1),
    ).collect()
}

/// Squared distance of an entry from a query point.
pub open spec fn entry_sqd(e: (i64, i64, u64), x: int, y: int) -> int {
    (e.0 - x) * (e.0 - x) + (e.1 - y) * (e.1 - y)
}

/// Relies on kd_tree::KdSliceN::within_radius: exactly the entries strictly
/// closer to the query than the radius (squared Euclidean distance). The
/// coordinate bounds keep the crate's own distance arithmetic in range.
#[verifier::external_body]
fn position_tree_within_radius(t: &PositionTree, x: i64, y: i64, radius: i64) -> (r: Vec<
    (i64, i64, u64),
>)
    requires
        -536870912 <= x <= 536870912,
        -536870912 <= y <= 536870912,
        0 <= radius <= 536870912,
        forall|e: (i64, i64, u64)|
            position_entries(*t).count(e) > 0 ==> -536870912 <= (#[trigger] e.0) <= 536870912
                && -536870912 <= e.1 <= 536870912,
    ensures
        forall|j: int|
            0 <= j < r@.len() ==> position_entries(*t).count(#[trigger] r@[j]) > 0 && entry_sqd(
                r@[j],
                x as int,
                y as int,
            ) < radius * radius,
        forall|e: (i64, i64, u64)|
            position_entries(*t).count(e) > 0 && entry_sqd(e, x as int, y as int) < radius * radius
                ==> r@.to_multiset().count(e) == position_entries(*t).count(e),
{
    t.tree.within_radius(&[x, y], radius).into_iter().map(
        |it| (it.0[0], it.0[1], it.1),
    ).collect()
}

/// Relies on kd_tree::KdSliceN::nearests: at most k entries, drawn from the
/// tree, in nondecreasing distance from the query, at least one when the
/// tree is nonempty and k is positive, and no omitted entry strictly closer
/// than the first returned one. The branch pruning compares exact distance
/// ties against a not-yet-full candidate buffer, so fewer than k entries can
/// come back even when the tree holds k; no stronger length claim holds of
/// the source.
#[verifier::external_body]
fn position_tree_nearests(t: &PositionTree, x: i64, y: i64, k: usize) -> (r: Vec<(i64, i64, u64)>)
    requires
        -536870912 <= x <= 536870912,
        -536870912 <= y <= 536870912,
        forall|e: (i64, i64, u64)|
            position_entries(*t).count(e) > 0 ==> -536870912 <= (#[trigger] e.0) <= 536870912
                && -536870912 <= e.1 <= 536870912,
    ensures
        r@.len() <= k,
        k > 0 && position_entries(*t).len() > 0 ==> r@.len() > 0,
        forall|j: int| 0 <= j < r@.len() ==> position_entries(*t).count(#[trigger] r@[j]) > 0,
        forall|j1: int, j2: int|
            0 <= j1 < j2 < r@.len() ==> entry_sqd(#[trigger] r@[j1], x as int, y as int)
                <= entry_sqd(#[trigger] r@[j2], x as int, y as int),
        forall|e: (i64, i64, u64)|
            position_entries(*t).count(e) > r@.to_multiset().count(e) && r@.len() > 0 ==> entry_sqd(
                e,
                x as int,
                y as int,
            ) >= entry_sqd(r@[0], x as int, y as int),
{
    let mut out: Vec<(i64, i64, u64)> = Vec::new();
    for it in t.tree.nearests(&[x, y], k) {
        out.push((it.item.0[0], it.item.0[1], it.item.1));
    }
    out
}

/// One component of the quantized hash key: the rational (n + q) / q scaled
/// by 2^20 and truncated. Equal hash rationals give equal keys.
pub open spec fn key_component(n: int, q: int) -> int {
    ((n + q) * 1048576) / q
}

/// The 4-d lookup key of a hash: its four frame coordinates quantized to
/// 2^-20 steps.
pub open spec fn spec_ghash_key(g: GhashModel) -> (int, int, int, int) {
    (
        key_component(g.cx, g.q),
        key_component(g.cy, g.q),
        key_component(g.dx, g.q),
        key_component(g.dy, g.q),
    )
}

proof fn lemma_disk_component_bounds(q: int, n: int)
    requires
        q > 0,
        (2 * n - q) * (2 * n - q) <= 2 * q * q,
    ensures
        0 <= n + q <= 3 * q,
{
    assert((2 * n - q) * (2 * n - q) <= (2 * q) * (2 * q) ==> -(2 * q) <= 2 * n - q <= 2 * q)
        by (nonlinear_arith)
        requires
            q > 0,
    ;
    assert(2 * q * q <= (2 * q) * (2 * q)) by (nonlinear_arith)
        requires
            q > 0,
    ;
}

/// Computes the quantized lookup key of a hash.
pub fn ghash_key(g: &GHash) -> (r: [i64; 4])
    requires
        ghash_canonical(g@),
        ghash_bounded(g@),
    ensures
        (r@[0] as int, r@[1] as int, r@[2] as int, r@[3] as int) == spec_ghash_key(g@),
        forall|j: int| 0 <= j < 4 ==> 0 <= #[trigger] r@[j] <= 3145728,
{
    proof {
        let q = g@.q;
        assert((2 * g@.cx - q) * (2 * g@.cx - q) <= 2 * q * q && (2 * g@.cy - q) * (2 * g@.cy - q)
            <= 2 * q * q && (2 * g@.dx - q) * (2 * g@.dx - q) <= 2 * q * q && (2 * g@.dy - q) * (2
            * g@.dy - q) <= 2 * q * q) by (nonlinear_arith)
            requires
                (2 * g@.cx - q) * (2 * g@.cx - q) + (2 * g@.cy - q) * (2 * g@.cy - q) <= 2 * q * q,
                (2 * g@.dx - q) * (2 * g@.dx - q) + (2 * g@.dy - q) * (2 * g@.dy - q) <= 2 * q * q,
        ;
    }
    let k0 = key_component_exec(g.cx, g.q);
    let k1 = key_component_exec(g.cy, g.q);
    let k2 = key_component_exec(g.dx, g.q);
    let k3 = key_component_exec(g.dy, g.q);
    [k0, k1, k2, k3]
}

/// One quantized key component, computed exactly in 128-bit arithmetic.
fn key_component_exec(n: i64, q: i64) -> (r: i64)
    requires
        0 < q <= 0x200000000000000,
        -0x800000000000000 <= n <= 0x800000000000000,
        (2 * n - q) * (2 * n - q) <= 2 * q * q,
    ensures
        r == key_component(n as int, q as int),
        0 <= r <= 3145728,
{
    proof {
        lemma_disk_component_bounds(q as int, n as int);
    }
    let num = (n as i128 + q as i128) as u128;
    let scaled = num * 1048576;
    let r128 = scaled / (q as u128);
    proof {
        assert(num * 1048576 == (n + q) * 1048576) by (nonlinear_arith)
            requires
                num == n + q,
                0 <= num,
        ;
        assert((n + q) * 1048576 <= 3 * q * 1048576) by (nonlinear_arith)
            requires
                n + q <= 3 * q,
                q > 0,
        ;
        assert((3 * (q as int) * 1048576) / (q as int) == 3145728 && ((n + q) * 1048576) / (
        q as int) <= (3 * (q as int) * 1048576) / (q as int)) by (nonlinear_arith)
            requires
                q > 0,
                0 <= (n + q) * 1048576 <= 3 * (q as int) * 1048576,
        ;
    }
    r128 as i64
}

/// The tree entries a star list induces, in list order: each star's
/// position with its list position as payload.
pub open spec fn star_entry_seq(stars: Seq<IndexStar>) -> Seq<(i64, i64, u64)> {
    Seq::new(stars.len(), |i: int| (stars[i].position@[0], stars[i].position@[1], i as u64))
}

/// The tree entries a star list induces.
pub open spec fn star_entries(stars: Seq<IndexStar>) -> Multiset<(i64, i64, u64)> {
    star_entry_seq(stars).to_multiset()
}

/// The tree entries a quad list induces, in list order: each quad's
/// quantized hash key with its list position as payload.
pub open spec fn quad_key_seq(quads: Seq<Quad>) -> Seq<(i64, i64, i64, i64, u64)> {
    Seq::new(
        quads.len(),
        |i: int|
            {
                let k = spec_ghash_key(quads[i]@.ghash);
                (k.0 as i64, k.1 as i64, k.2 as i64, k.3 as i64, i as u64)
            },
    )
}

/// The tree entries a quad list induces.
pub open spec fn quad_key_entries(quads: Seq<Quad>) -> Multiset<(i64, i64, i64, i64, u64)> {
    quad_key_seq(quads).to_multiset()
}

/// A star's position is within the index bound.
pub open spec fn star_in_range(s: IndexStar) -> bool {
    -536870912 <= s.position@[0] <= 536870912 && -536870912 <= s.position@[1] <= 536870912
}

/// The write-once spatial index: a HEALPix granularity tag, the stars and
/// quads of a region, and the two kd-trees over them.
pub struct Index {
    nside: u32,
    stars: Vec<IndexStar>,
    quads: Vec<Quad>,
    position_tree: PositionTree,
    quad_tree: QuadTree,
}

impl Index {
    /// The trees hold exactly the entries the lists induce, and every star
    /// position is within the tree arithmetic's range.
    pub closed spec fn wf(self) -> bool {
        &&& position_entries(self.position_tree) == star_entries(self.stars@)
        &&& quad_entries(self.quad_tree) == quad_key_entries(self.quads@)
        &&& forall|i: int| 0 <= i < self.stars@.len() ==> star_in_range(#[trigger] self.stars@[i])
    }

    pub closed spec fn spec_nside(self) -> u32 {
        self.nside
    }

    pub closed spec fn spec_stars(self) -> Seq<IndexStar> {
        self.stars@
    }

    pub closed spec fn spec_quads(self) -> Seq<Quad> {
        self.quads@
    }

    /// Builds the index over the given quads and stars: both kd-trees are
    /// bulk-loaded once and the index is immutable afterwards.
    pub fn new(nside: u32, quads: Vec<Quad>, stars: Vec<IndexStar>) -> (r: Index)
        requires
            forall|i: int| 0 <= i < stars@.len() ==> star_in_range(#[trigger] stars@[i]),
        ensures
            r.wf(),
            r.spec_nside() == nside,
            r.spec_stars() == stars@,
            r.spec_quads() == quads@,
    {
        let star_count = stars.len();
        let quad_count = quads.len();
        let mut sitems: Vec<(i64, i64, u64)> = Vec::new();
        let mut i: usize = 0;
        while i < stars.len()
            invariant
                i <= stars@.len(),
                stars@.len() <= usize::MAX,
                sitems@.len() == i,
                forall|j: int|
                    0 <= j < i ==> #[trigger] sitems@[j] == (
                        stars@[j].position@[0],
                        stars@[j].position@[1],
                        j as u64,
                    ),
            decreases stars@.len() - i,
        {
            let s = &stars[i];
            sitems.push((s.position[0], s.position[1], i as u64));
            i = i + 1;
        }
        proof {
            assert(sitems@ =~= star_entry_seq(stars@));
        }
        let mut qitems: Vec<(i64, i64, i64, i64, u64)> = Vec::new();
        let mut j: usize = 0;
        while j < quads.len()
            invariant
                j <= quads@.len(),
                quads@.len() <= usize::MAX,
                qitems@.len() == j,
                forall|k: int|
                    0 <= k < j ==> #[trigger] qitems@[k] == {
                        let key = spec_ghash_key(quads@[k]@.ghash);
                        (key.0 as i64, key.1 as i64, key.2 as i64, key.3 as i64, k as u64)
                    },
            decreases quads@.len() - j,
        {
            let g = quads[j].ghash();
            let key = ghash_key(&g);
            qitems.push((key[0], key[1], key[2], key[3], j as u64));
            j = j + 1;
        }
        proof {
            assert(qitems@ =~= quad_key_seq(quads@));
        }
        let position_tree = build_position_tree(sitems);
        let quad_tree = build_quad_tree(qitems);
        Index { nside, stars, quads, position_tree, quad_tree }
    }

    /// The HEALPix granularity the index was built for.
    pub fn nside(&self) -> (r: u32)
        ensures
            r == self.spec_nside(),
    {
        self.nside
    }

    /// The stars, in insertion order; tree payloads point into this list.
    pub fn stars(&self) -> (r: &Vec<IndexStar>)
        ensures
            r@ == self.spec_stars(),
    {
        &self.stars
    }

    /// The quads, in insertion order; tree payloads point into this list.
    pub fn quads(&self) -> (r: &Vec<Quad>)
        ensures
            r@ == self.spec_quads(),
    {
        &self.quads
    }

    /// Every entry at exactly the queried position. Law: every star the
    /// index was built over is returned, under its list position, when
    /// queried at its own position.
    pub fn query_position_exact(&self, x: i64, y: i64) -> (r: Vec<(i64, i64, u64)>)
        requires
            self.wf(),
        ensures
            forall|j: int|
                0 <= j < r@.len() ==> (#[trigger] r@[j]).0 == x && r@[j].1 == y && star_entries(
                    self.spec_stars(),
                ).count(r@[j]) > 0,
            forall|i: int|
                0 <= i < self.spec_stars().len() && self.spec_stars()[i].position@[0] == x
                    && self.spec_stars()[i].position@[1] == y ==> r@.to_multiset().count(
                    (x, y, i as u64),
                ) > 0,
    {
        let r = position_tree_exact(&self.position_tree, x, y);
        proof {
            let stars = self.spec_stars();
            let entries = star_entry_seq(stars);
            entries.to_multiset_ensures();
            assert forall|i: int|
                0 <= i < stars.len() && stars[i].position@[0] == x && stars[i].position@[1]
                    == y implies r@.to_multiset().count((x, y, i as u64)) > 0 by {
                let e = (x, y, i as u64);
                assert(entries[i] == e);
                assert(entries.contains(e));
                assert(entries.to_multiset().count(e) > 0);
                assert(star_entries(stars).count(e) > 0);
                assert(position_entries(self.position_tree).count(e) > 0);
            }
        }
        r
    }

    /// Every entry whose quantized hash key equals the given quad's key.
    /// Law: every quad the index was built over is returned, under its list
    /// position, when queried with its own hash.
    pub fn query_ghash_exact(&self, g: &GHash) -> (r: Vec<(i64, i64, i64, i64, u64)>)
        requires
            self.wf(),
            ghash_canonical(g@),
            ghash_bounded(g@),
        ensures
            forall|j: int|
                0 <= j < r@.len() ==> quad_entries_of(self.spec_quads(), #[trigger] r@[j]),
            forall|i: int|
                0 <= i < self.spec_quads().len() && spec_ghash_key(self.spec_quads()[i]@.ghash)
                    == spec_ghash_key(g@) ==> ({
                    let k = spec_ghash_key(g@);
                    r@.to_multiset().count(
                        (k.0 as i64, k.1 as i64, k.2 as i64, k.3 as i64, i as u64),
                    ) > 0
                }),
    {
        let key = ghash_key(g);
        let r = quad_tree_exact(&self.quad_tree, key);
        proof {
            let quads = self.spec_quads();
            let entries = quad_key_seq(quads);
            entries.to_multiset_ensures();
            assert forall|i: int|
                0 <= i < quads.len() && spec_ghash_key(quads[i]@.ghash) == spec_ghash_key(
                    g@,
                ) implies ({
                let k = spec_ghash_key(g@);
                r@.to_multiset().count((k.0 as i64, k.1 as i64, k.2 as i64, k.3 as i64, i as u64))
                    > 0
            }) by {
                let k = spec_ghash_key(g@);
                let e = (k.0 as i64, k.1 as i64, k.2 as i64, k.3 as i64, i as u64);
                assert(entries[i] == e);
                assert(entries.contains(e));
                assert(entries.to_multiset().count(e) > 0);
                assert(quad_key_entries(quads).count(e) > 0);
                assert(quad_entries(self.quad_tree).count(e) > 0);
                assert(e.0 == key@[0] && e.1 == key@[1] && e.2 == key@[2] && e.3 == key@[3]);
            }
        }
        r
    }

    /// Exactly the star entries strictly within the radius of the query
    /// point: every returned entry is an entry of the index inside the open
    /// disk, and every such entry is returned with its multiplicity.
    pub fn within(&self, x: i64, y: i64, radius: i64) -> (r: Vec<(i64, i64, u64)>)
        requires
            self.wf(),
            -536870912 <= x <= 536870912,
            -536870912 <= y <= 536870912,
            0 <= radius <= 536870912,
        ensures
            forall|j: int|
                0 <= j < r@.len() ==> star_entries(self.spec_stars()).count(#[trigger] r@[j]) > 0
                    && entry_sqd(r@[j], x as int, y as int) < radius * radius,
            forall|e: (i64, i64, u64)|
                star_entries(self.spec_stars()).count(e) > 0 && entry_sqd(e, x as int, y as int)
                    < radius * radius ==> r@.to_multiset().count(e) == star_entries(
                    self.spec_stars(),
                ).count(e),
    {
        proof {
            self.lemma_star_entries_in_range();
        }
        position_tree_within_radius(&self.position_tree, x, y, radius)
    }

    /// Up to k star entries nearest the query point, nearest first: at most
    /// k of them, at least one when the index is nonempty and k is positive,
    /// all drawn from the index, in nondecreasing distance, and no entry of
    /// the index is strictly closer than the first one returned.
    pub fn nearest_k(&self, x: i64, y: i64, k: usize) -> (r: Vec<(i64, i64, u64)>)
        requires
            self.wf(),
            -536870912 <= x <= 536870912,
            -536870912 <= y <= 536870912,
        ensures
            r@.len() <= k,
            k > 0 && star_entries(self.spec_stars()).len() > 0 ==> r@.len() > 0,
            forall|j: int|
                0 <= j < r@.len() ==> star_entries(self.spec_stars()).count(#[trigger] r@[j]) > 0,
            forall|j1: int, j2: int|
                0 <= j1 < j2 < r@.len() ==> entry_sqd(#[trigger] r@[j1], x as int, y as int)
                    <= entry_sqd(#[trigger] r@[j2], x as int, y as int),
            forall|e: (i64, i64, u64)|
                star_entries(self.spec_stars()).count(e) > r@.to_multiset().count(e) && r@.len()
                    > 0 ==> entry_sqd(e, x as int, y as int) >= entry_sqd(r@[0], x as int, y as int),
    {
        proof {
            self.lemma_star_entries_in_range();
        }
        position_tree_nearests(&self.position_tree, x, y, k)
    }

    proof fn lemma_star_entries_in_range(self)
        requires
            self.wf(),
        ensures
            forall|e: (i64, i64, u64)|
                position_entries(self.position_tree).count(e) > 0 ==> -536870912 <= (
                #[trigger] e.0) <= 536870912 && -536870912 <= e.1 <= 536870912,
    {
        let stars = self.spec_stars();
        let entries = star_entry_seq(stars);
        entries.to_multiset_ensures();
        assert forall|e: (i64, i64, u64)|
            position_entries(self.position_tree).count(e) > 0 implies -536870912 <= (
        #[trigger] e.0) <= 536870912 && -536870912 <= e.1 <= 536870912 by {
            assert(entries.to_multiset().count(e) > 0);
            assert(entries.contains(e));
            let i = choose|i: int| 0 <= i < entries.len() && entries[i] == e;
            assert(star_in_range(stars[i]));
        }
    }
}

/// Whether an entry names a quad of the list under its own key and position.
pub open spec fn quad_entries_of(quads: Seq<Quad>, e: (i64, i64, i64, i64, u64)) -> bool {
    quad_key_entries(quads).count(e) > 0
}

} // verus!
