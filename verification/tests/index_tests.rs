use astrometry::index::{ghash_key, Index, IndexStar};
use astrometry::quad::Quad;

fn synth_star(i: u64) -> IndexStar {
    // a deterministic spread of sky positions with some exact collisions
    let x = ((i * 7919) % 100000) as i64;
    let y = ((i * 104729) % 50000) as i64 - 25000;
    IndexStar { designation: format!("USNOB-{:07}", i), position: [x, y] }
}

fn synth_quad(i: u64) -> Option<Quad> {
    let base = (i as i64) * 13;
    let stars: [((i64, i64), u64); 4] = [
        ((base, 0), 4 * i),
        ((base + 500 + (i as i64 % 37), 40), 4 * i + 1),
        ((base + 180, 90 + (i as i64 % 23)), 4 * i + 2),
        ((base + 320, -60), 4 * i + 3),
    ];
    Quad::new(&stars, i)
}

#[test]
fn index_recovers_all_entries() {
    let stars: Vec<IndexStar> = (0..1000).map(synth_star).collect();
    let mut quads: Vec<Quad> = Vec::new();
    let mut i: u64 = 0;
    while quads.len() < 250 {
        if let Some(q) = synth_quad(i) {
            quads.push(q);
        }
        i += 1;
    }
    let ghashes: Vec<_> = quads.iter().map(|q| q.ghash()).collect();

    let index = Index::new(8, quads, stars);
    assert_eq!(index.nside(), 8);
    assert_eq!(index.stars().len(), 1000);
    assert_eq!(index.quads().len(), 250);

    // every star is recoverable by an exact-match position query
    for (i, s) in index.stars().iter().enumerate() {
        let found = index.query_position_exact(s.position[0], s.position[1]);
        assert!(found.iter().any(|e| e.2 == i as u64));
        // every returned entry really sits at the queried point
        assert!(found.iter().all(|e| e.0 == s.position[0] && e.1 == s.position[1]));
    }

    // every quad is recoverable by an exact-match hash query
    for (i, g) in ghashes.iter().enumerate() {
        let found = index.query_ghash_exact(g);
        assert!(found.iter().any(|e| e.4 == i as u64));
        let key = ghash_key(g);
        assert!(found.iter().all(|e| [e.0, e.1, e.2, e.3] == key));
    }
}

#[test]
fn index_nearest_and_within() {
    let stars = vec![
        IndexStar { designation: String::from("a"), position: [0, 0] },
        IndexStar { designation: String::from("b"), position: [10, 0] },
        IndexStar { designation: String::from("c"), position: [0, 7] },
        IndexStar { designation: String::from("d"), position: [100, 100] },
    ];
    let index = Index::new(1, Vec::new(), stars);

    let near = index.nearest_k(1, 1, 2);
    assert_eq!(near.len(), 2);
    assert_eq!(near[0].2, 0); // (0,0) is closest to (1,1)
    assert_eq!(near[1].2, 2); // then (0,7)

    // within is strict: radius 10 excludes the star at distance exactly 10
    let inside = index.within(0, 0, 10);
    let mut ids: Vec<u64> = inside.iter().map(|e| e.2).collect();
    ids.sort();
    assert_eq!(ids, vec![0, 2]);
    let wider = index.within(0, 0, 11);
    assert_eq!(wider.len(), 3);
}

#[test]
fn equal_hash_rationals_share_a_key() {
    // the same quad scaled by 3 has a different denominator but the same
    // rational hash, so the quantized keys agree
    let a: [((i64, i64), u64); 4] = [((0, 0), 0), ((500, 40), 1), ((180, 90), 2), ((320, -60), 3)];
    let b: [((i64, i64), u64); 4] =
        [((0, 0), 0), ((1500, 120), 1), ((540, 270), 2), ((960, -180), 3)];
    let qa = Quad::new(&a, 0).unwrap();
    let qb = Quad::new(&b, 0).unwrap();
    assert_ne!(qa.ghash().q, qb.ghash().q);
    assert_eq!(ghash_key(&qa.ghash()), ghash_key(&qb.ghash()));
}

/// The index content serialized as JSON by explicit construction: nside, the
/// stars, and the quad input slates (a quad is rebuilt from its four
/// positions and ids, which is deterministic).
fn index_to_json(nside: u32, stars: &[IndexStar], slates: &[[((i64, i64), u64); 4]]) -> String {
    let star_vals: Vec<serde_json::Value> = stars
        .iter()
        .map(|s| {
            serde_json::Value::Array(vec![
                serde_json::Value::String(s.designation.clone()),
                serde_json::Value::from(s.position[0]),
                serde_json::Value::from(s.position[1]),
            ])
        })
        .collect();
    let slate_vals: Vec<serde_json::Value> = slates
        .iter()
        .map(|sl| {
            serde_json::Value::Array(
                sl.iter()
                    .flat_map(|((px, py), id)| {
                        vec![
                            serde_json::Value::from(*px),
                            serde_json::Value::from(*py),
                            serde_json::Value::from(*id),
                        ]
                    })
                    .collect(),
            )
        })
        .collect();
    serde_json::Value::Array(vec![
        serde_json::Value::from(nside),
        serde_json::Value::Array(star_vals),
        serde_json::Value::Array(slate_vals),
    ])
    .to_string()
}

fn index_from_json(text: &str) -> (u32, Vec<IndexStar>, Vec<[((i64, i64), u64); 4]>) {
    let v: serde_json::Value = serde_json::from_str(text).unwrap();
    let top = v.as_array().unwrap();
    let nside = top[0].as_u64().unwrap() as u32;
    let stars = top[1]
        .as_array()
        .unwrap()
        .iter()
        .map(|s| {
            let f = s.as_array().unwrap();
            IndexStar {
                designation: f[0].as_str().unwrap().to_string(),
                position: [f[1].as_i64().unwrap(), f[2].as_i64().unwrap()],
            }
        })
        .collect();
    let slates = top[2]
        .as_array()
        .unwrap()
        .iter()
        .map(|sl| {
            let f = sl.as_array().unwrap();
            let mut out: [((i64, i64), u64); 4] = [((0, 0), 0); 4];
            for k in 0..4 {
                out[k] = (
                    (f[3 * k].as_i64().unwrap(), f[3 * k + 1].as_i64().unwrap()),
                    f[3 * k + 2].as_u64().unwrap(),
                );
            }
            out
        })
        .collect();
    (nside, stars, slates)
}

#[test]
fn index_serialization_round_trip() {
    let stars: Vec<IndexStar> = (0..1000).map(synth_star).collect();
    let mut slates: Vec<[((i64, i64), u64); 4]> = Vec::new();
    let mut i: u64 = 0;
    while slates.len() < 250 {
        let base = (i as i64) * 13;
        let slate: [((i64, i64), u64); 4] = [
            ((base, 0), 4 * i),
            ((base + 500 + (i as i64 % 37), 40), 4 * i + 1),
            ((base + 180, 90 + (i as i64 % 23)), 4 * i + 2),
            ((base + 320, -60), 4 * i + 3),
        ];
        if Quad::new(&slate, i).is_some() {
            slates.push(slate);
        }
        i += 1;
    }
    let quads: Vec<Quad> =
        slates.iter().enumerate().map(|(m, sl)| Quad::new(sl, m as u64).unwrap()).collect();
    let original_hashes: Vec<_> = quads.iter().map(|q| q.ghash()).collect();
    let blob = index_to_json(8, &stars, &slates);

    // decode the blob and rebuild the whole index from it
    let (nside2, stars2, slates2) = index_from_json(&blob);
    let quads2: Vec<Quad> =
        slates2.iter().enumerate().map(|(m, sl)| Quad::new(sl, m as u64).unwrap()).collect();
    let index = Index::new(nside2, quads2, stars2);
    assert_eq!(index.nside(), 8);
    assert_eq!(index.stars().len(), 1000);
    assert_eq!(index.quads().len(), 250);

    // every original star is recoverable by exact-match position query
    for (m, s) in stars.iter().enumerate() {
        let found = index.query_position_exact(s.position[0], s.position[1]);
        assert!(found.iter().any(|e| e.2 == m as u64));
        assert_eq!(index.stars()[m].designation, s.designation);
    }
    // every original quad is recoverable by exact-match hash query, with its
    // hash reproduced bit-identically
    for (m, g) in original_hashes.iter().enumerate() {
        assert_eq!(index.quads()[m].ghash(), *g);
        let found = index.query_ghash_exact(g);
        assert!(found.iter().any(|e| e.4 == m as u64));
    }
}
