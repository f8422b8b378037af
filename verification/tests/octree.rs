use ferricyanide::geom::Vec3;
use ferricyanide::octree::{Boundary, Interaction, Octree};
use ferricyanide::sorting::sort_ascending;

/// One distance unit maps to this many integer coordinate units.
const SCALE: f64 = 1_000_000.0;

fn fx(v: f64) -> i64 {
    (v * SCALE).round() as i64
}

fn v3(x: f64, y: f64, z: f64) -> Vec3 {
    Vec3 { x: fx(x), y: fx(y), z: fx(z) }
}

fn benzene() -> Vec<Vec3> {
    vec![
        v3(0.809634648101, -1.147538780983, 0.014972631566),
        v3(1.398699588466, 0.127328782791, -0.002144982085),
        v3(0.589064935327, 1.274867581386, -0.017117194372),
        v3(-0.809634662319, 1.147538798992, -0.014971364596),
        v3(-1.398699586500, -0.127328768061, 0.002144873987),
        v3(-0.589064915101, -1.274867578697, 0.017119057137),
        v3(1.440394137801, -2.041547849809, 0.026629383195),
        v3(2.488379670712, 0.226526007921, -0.003823876212),
        v3(1.047985553449, 2.268074248434, -0.030457985645),
        v3(-1.440393936910, 2.041547849715, -0.026640881090),
        v3(-2.488379658318, -0.226526421675, 0.003809439886),
        v3(-1.047985861679, -2.268074256425, 0.030447941745),
    ]
}

fn dist_sq(p: Vec3, q: Vec3) -> i128 {
    let dx = p.x as i128 - q.x as i128;
    let dy = p.y as i128 - q.y as i128;
    let dz = p.z as i128 - q.z as i128;
    dx * dx + dy * dy + dz * dz
}

#[test]
fn test_boundry() {
    let benzene = benzene();

    let boundary = Boundary::from_points(&benzene);
    assert!(boundary.center.x.abs() < 1000);
    assert!(boundary.center.y.abs() < 1000);
    assert!(boundary.center.z.abs() < 1000);

    let expected_size = fx((2.488379670712 + 2.488379658318) / 2.);
    assert!((boundary.h_side - expected_size).abs() < 1000);

    let disjoint = Boundary { center: v3(0.0, 0.0, 10.0), h_side: fx(1.0) };
    assert!(boundary.intersection(&disjoint) == Interaction::Disjoint);
    assert!(disjoint.intersection(&boundary) == Interaction::Disjoint);

    let overlap = Boundary { center: v3(0.0, 0.0, 10.0), h_side: fx(10.0) };
    assert!(boundary.intersection(&overlap) == Interaction::Overlap);
    assert!(overlap.intersection(&boundary) == Interaction::Overlap);

    let within = Boundary { center: v3(0.0, 0.0, 0.0), h_side: fx(0.5) };
    assert!(boundary.intersection(&within) == Interaction::Contains);
    assert!(within.intersection(&boundary) == Interaction::Within);

    let contains = Boundary { center: v3(0.0, 0.0, 10.0), h_side: fx(1000.0) };
    assert!(boundary.intersection(&contains) == Interaction::Within);
    assert!(contains.intersection(&boundary) == Interaction::Contains);
}

#[test]
fn test_octree() {
    let benzene = benzene();

    let octree = Octree::new(benzene, 1, 6);

    assert_eq!(octree.neighbors_filtered(v3(0., 0., 0.), fx(1000.)).len(), 12);
    assert_eq!(octree.neighbors_filtered(v3(0., 0., 0.), fx(1.)).len(), 0);
    assert_eq!(octree.neighbors_filtered(v3(1.1, -1.6, 0.0), fx(1.)).len(), 2);

    let bonds = octree.interactions(fx(2.));
    assert_eq!(bonds.len(), 12);
    assert_eq!(bonds[0], [1, 5, 6]);
    assert_eq!(bonds[1], [0, 2, 7]);
    assert_eq!(bonds[2], [1, 3, 8]);
    assert_eq!(bonds[3], [2, 4, 9]);
    assert_eq!(bonds[4], [3, 5, 10]);
    assert_eq!(bonds[5], [0, 4, 11]);
    assert_eq!(bonds[6], [0]);
    assert_eq!(bonds[7], [1]);
    assert_eq!(bonds[8], [2]);
    assert_eq!(bonds[9], [3]);
    assert_eq!(bonds[10], [4]);
    assert_eq!(bonds[11], [5]);

    let bonds2 = octree.interaction_pairs(fx(2.));
    assert_eq!(bonds2.len(), 12);
    assert_eq!(bonds2[0], (0, 1));
    assert_eq!(bonds2[1], (0, 5));
    assert_eq!(bonds2[2], (0, 6));
    assert_eq!(bonds2[3], (1, 7));
    assert_eq!(bonds2[4], (1, 2));
    assert_eq!(bonds2[5], (2, 3));
    assert_eq!(bonds2[6], (2, 8));
    assert_eq!(bonds2[7], (3, 9));
    assert_eq!(bonds2[8], (3, 4));
    assert_eq!(bonds2[9], (4, 5));
    assert_eq!(bonds2[10], (4, 10));
    assert_eq!(bonds2[11], (5, 11));

    let closest1 = octree.closest_neighbor(v3(0.81, -1.15, 0.015), fx(2.));
    assert_eq!(closest1.unwrap(), 0);
}

/// The twelve-point ring scenario: a benzene-like hexagon with alternating
/// bond lengths, built shallow, queried at several radii.
#[test]
fn ring_scenario() {
    let points = benzene();
    let octree = Octree::new(points.clone(), 1, 6);

    // A huge radius sees every point; a unit radius around the origin none.
    assert_eq!(octree.neighbors_filtered(v3(0., 0., 0.), fx(1000.)).len(), 12);
    assert_eq!(octree.neighbors_filtered(v3(0., 0., 0.), fx(1.)).len(), 0);

    // Exactly twelve bonded pairs at the 2.0-unit cutoff, each two points
    // truly within the cutoff, smaller index first.
    let pairs = octree.interaction_pairs(fx(2.));
    assert_eq!(pairs.len(), 12);
    let cutoff = fx(2.) as i128;
    for &(i, j) in &pairs {
        assert!(i < j);
        assert!(dist_sq(points[i], points[j]) < cutoff * cutoff);
    }

    // The closest neighbor of a point coincident with point 0 is point 0.
    let coincident = points[0];
    assert_eq!(octree.closest_neighbor(coincident, fx(2.)), Some(0));
}

/// Every point index appears exactly once in a full-coverage range query.
#[test]
fn partition_covers_all_points_once() {
    let points = benzene();
    let octree = Octree::new(points, 3, 4);
    let all = octree.neighbors(v3(0., 0., 0.), fx(1000.));
    let sorted = sort_ascending(all);
    assert_eq!(sorted, (0..12).collect::<Vec<usize>>());
}

/// The unfiltered candidate set is a superset of the filtered neighbors.
#[test]
fn candidates_cover_filtered() {
    let points = benzene();
    let octree = Octree::new(points.clone(), 1, 6);
    for i in 0..points.len() {
        for radius in [fx(0.5), fx(1.2), fx(2.0), fx(3.5)] {
            let cands = octree.neighbors(points[i], radius);
            let filt = octree.neighbors_filtered(points[i], radius);
            for j in &filt {
                assert!(cands.contains(j));
            }
        }
    }
}

/// `interaction_pairs` agrees with the brute-force pair enumeration.
#[test]
fn pairs_match_brute_force() {
    let points = benzene();
    let octree = Octree::new(points.clone(), 2, 5);
    for radius in [fx(1.2), fx(1.5), fx(2.0), fx(2.6), fx(5.0)] {
        let mut pairs = octree.interaction_pairs(radius);
        pairs.sort();
        let mut expected = Vec::new();
        for i in 0..points.len() {
            for j in (i + 1)..points.len() {
                if dist_sq(points[i], points[j]) < (radius as i128) * (radius as i128) {
                    expected.push((i, j));
                }
            }
        }
        assert_eq!(pairs, expected);
    }
}

/// `closest_neighbor` matches the brute-force arg-min whenever some point
/// lies strictly within the radius.
#[test]
fn closest_matches_brute_force() {
    let points = benzene();
    let octree = Octree::new(points.clone(), 1, 6);
    let probes = [v3(0.8, -1.1, 0.0), v3(-2.4, -0.2, 0.0), v3(0.0, 2.2, 0.0)];
    for probe in probes {
        let radius = fx(1.5);
        let rr = (radius as i128) * (radius as i128);
        let best = (0..points.len())
            .filter(|&j| dist_sq(points[j], probe) < rr)
            .min_by_key(|&j| dist_sq(points[j], probe));
        if let Some(b) = best {
            let got = octree.closest_neighbor(probe, radius).unwrap();
            assert_eq!(dist_sq(points[got], probe), dist_sq(points[b], probe));
            assert!(dist_sq(points[got], probe) < rr);
        }
    }
}

/// Swapping operands of `intersection` on two equal cubes gives
/// `Contains` from both sides: the one case the swap law leaves open.
#[test]
fn equal_cubes_contain_each_other() {
    let a = Boundary { center: v3(1.0, 2.0, 3.0), h_side: fx(1.0) };
    let b = Boundary { center: v3(1.0, 2.0, 3.0), h_side: fx(1.0) };
    assert!(a.intersection(&b) == Interaction::Contains);
    assert!(b.intersection(&a) == Interaction::Contains);
}

/// A single point builds a degenerate index that still answers queries.
#[test]
fn single_point_index() {
    let points = vec![v3(0.25, -0.5, 0.75)];
    let octree = Octree::new(points.clone(), 1, 6);
    assert_eq!(octree.neighbors_filtered(points[0], fx(1.0)), vec![0]);
    assert_eq!(octree.closest_neighbor(points[0], fx(1.0)), Some(0));
    assert_eq!(octree.interaction_pairs(fx(10.0)).len(), 0);
}

/// A zero threshold forces recursion to the depth cap without changing
/// any query result.
#[test]
fn zero_threshold_deep_tree() {
    let points = benzene();
    let octree = Octree::new(points.clone(), 0, 7);
    let mut pairs = octree.interaction_pairs(fx(2.));
    pairs.sort();
    let shallow = Octree::new(points, 12, 1);
    let mut expected = shallow.interaction_pairs(fx(2.));
    expected.sort();
    assert_eq!(pairs, expected);
}

/// Coincident points interact with each other at any positive radius.
#[test]
fn coincident_points_interact() {
    let points = vec![v3(0.0, 0.0, 0.0), v3(0.0, 0.0, 0.0), v3(3.0, 0.0, 0.0)];
    let octree = Octree::new(points, 2, 6);
    let pairs = octree.interaction_pairs(fx(1.0));
    assert_eq!(pairs, vec![(0, 1)]);
    // A zero radius lets nothing through, not even a coincident point.
    assert_eq!(octree.neighbors_filtered(v3(0.0, 0.0, 0.0), 0).len(), 0);
}

/// Sorting keeps the values and orders them ascending.
#[test]
fn sort_orders_indices() {
    let sorted = sort_ascending(vec![5usize, 3, 9, 3, 0]);
    assert_eq!(sorted, vec![0, 3, 3, 5, 9]);
    let empty = sort_ascending(Vec::<usize>::new());
    assert!(empty.is_empty());
}
