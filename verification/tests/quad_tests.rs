use astrometry::quad::{compute_ghash, GHash, Quad};

/// Exact equality of two hashes as rationals, by cross-multiplication.
fn ghash_eq(a: &GHash, b: &GHash) -> bool {
    (a.cx as i128) * (b.q as i128) == (b.cx as i128) * (a.q as i128)
        && (a.cy as i128) * (b.q as i128) == (b.cy as i128) * (a.q as i128)
        && (a.dx as i128) * (b.q as i128) == (b.dx as i128) * (a.q as i128)
        && (a.dy as i128) * (b.q as i128) == (b.dy as i128) * (a.q as i128)
}

fn all_permutations() -> Vec<[usize; 4]> {
    let mut perms = Vec::new();
    for a in 0..4 {
        for b in 0..4 {
            for c in 0..4 {
                for d in 0..4 {
                    if a != b && a != c && a != d && b != c && b != d && c != d {
                        perms.push([a, b, c, d]);
                    }
                }
            }
        }
    }
    perms
}

fn rotate(rot: usize, p: (i64, i64)) -> (i64, i64) {
    match rot {
        0 => p,
        1 => (-p.1, p.0),
        2 => (-p.0, -p.1),
        _ => (p.1, -p.0),
    }
}

#[test]
fn test_permutations() {
    // the original point sets, scaled by 1000 so that every scale factor
    // below lands on integers
    let quads: [[(i64, i64); 4]; 7] = [
        [(-2440, 3980), (3260, -1340), (1900, 3700), (-1140, -460)],
        [(500, 1200), (-2300, 400), (2800, -1500), (-900, 1800)],
        [(4500, -3200), (1100, 1500), (-3300, -1100), (0, 0)],
        [(-1700, 2400), (-2900, -3800), (3500, 1600), (1200, -2200)],
        [(2700, 3400), (-500, -800), (1000, 1200), (1800, -3600)],
        [(300, 2700), (0, 0), (2500, 900), (-2600, 1100)],
        [(2200, -1700), (-3500, 2800), (1600, 3300), (-1200, -2900)],
    ];
    let arrangements = all_permutations();
    // scale factors as (numerator, denominator)
    let scales: [(i64, i64); 5] = [(1, 1), (2, 1), (1, 2), (10, 1), (1, 10)];
    let rotations: [usize; 4] = [0, 1, 2, 3];
    let translations: [(i64, i64); 5] =
        [(0, 0), (1000, 1000), (-1000, 1000), (1000000, -2000000), (-10000000000, 1000000000)];

    for stars in quads.iter() {
        let (original_ghash, _) = compute_ghash(stars).unwrap();

        for arrangement in arrangements.iter() {
            for &(sn, sd) in scales.iter() {
                for &rot in rotations.iter() {
                    for &tr in translations.iter() {
                        let mut transformed: [((i64, i64), u64); 4] = [((0, 0), 0); 4];
                        for (slot, &idx) in arrangement.iter().enumerate() {
                            let p = stars[idx];
                            let scaled = (p.0 * sn / sd, p.1 * sn / sd);
                            let r = rotate(rot, scaled);
                            transformed[slot] = ((r.0 + tr.0, r.1 + tr.1), idx as u64);
                        }
                        let quad = Quad::new(&transformed, 0).unwrap();
                        assert!(quad.assert_invariants());
                        assert!(ghash_eq(&quad.ghash(), &original_ghash));
                    }
                }
            }
        }
    }
}

#[test]
fn ghash_reference_transform() {
    // the four points, scaled by 100 to exact integers
    let pts: [(i64, i64); 4] = [(-244, 398), (326, -134), (190, 370), (-114, -46)];
    let (original, _) = compute_ghash(&pts).unwrap();

    // permutation (3, 0, 2, 1), rotation by 90 degrees, scale 10, and a
    // translation of (1000, -2000) in original units (scaled by 100 here)
    let perm = [3usize, 0, 2, 1];
    let mut moved: [(i64, i64); 4] = [(0, 0); 4];
    for (slot, &idx) in perm.iter().enumerate() {
        let p = pts[idx];
        let scaled = (10 * p.0, 10 * p.1);
        let rotated = (-scaled.1, scaled.0);
        moved[slot] = (rotated.0 + 100000, rotated.1 - 200000);
    }
    let (transformed, _) = compute_ghash(&moved).unwrap();
    assert!(ghash_eq(&original, &transformed));
}

#[test]
fn collinear_points_stay_in_disk() {
    // Distinct collinear points land on the diagonal of the AB frame, inside
    // the closed disk, so they do form a quad: the hash is the exact
    // rational (1/3, 1/3, 2/3, 2/3).
    let pts: [(i64, i64); 4] = [(0, 0), (3, 3), (1, 1), (2, 2)];
    let (g, arr) = compute_ghash(&pts).unwrap();
    assert_eq!((g.cx, g.cy, g.dx, g.dy, g.q), (6, 6, 12, 12, 18));
    assert_eq!(arr, [0, 1, 2, 3]);
}

#[test]
fn coincident_points_admit_no_quad() {
    // four coincident points have a zero maximum distance: no quad
    let pts: [(i64, i64); 4] = [(7, -3), (7, -3), (7, -3), (7, -3)];
    assert!(compute_ghash(&pts).is_none());
}

#[test]
fn quad_stars_arranged_canonically() {
    let stars: [((i64, i64), u64); 4] = [((0, 0), 10), ((4, 0), 11), ((1, 1), 12), ((3, 1), 13)];
    let quad = Quad::new(&stars, 99).unwrap();
    assert_eq!(quad.meta(), 99);
    // A and B are the most distant pair (ids 10 and 11); C comes before D by
    // frame x-coordinate.
    let ids = quad.get_stars();
    assert!(ids.contains(&10) && ids.contains(&11) && ids.contains(&12) && ids.contains(&13));
    assert!(quad.assert_invariants());
    let g = quad.ghash();
    assert!(g.q > 0);
    assert!(g.cx <= g.dx);
    assert!(g.cx + g.dx <= g.q);
}
