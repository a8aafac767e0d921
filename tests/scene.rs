use multipath::best::{best_paths_for, BestPaths, TraceError};
use multipath::geometry::{build_planes, GeometryError, Plane};
use multipath::isect::{ray_plane_isect, WidePoint};
use multipath::rays::{generate_rays, RayError};
use multipath::reflect::reflect;
use multipath::signal::Signal;
use multipath::trace::{nearest_hit, trace_ray, Candidate, Ray, Trace, TraceLimits};
use multipath::vec2::Vec2;
use multipath::vec3::Vec3;

fn v(x: i64, y: i64, z: i64) -> Vec3 {
    Vec3::new(x, y, z)
}

fn w(x: i128, y: i128, z: i128) -> WidePoint {
    WidePoint { x, y, z }
}

fn converged(t: Trace) -> Candidate {
    match t {
        Trace::Converged(c) => c,
        other => panic!("expected a converged path, got {:?}", other),
    }
}

fn p2(x: i64, y: i64) -> Vec2 {
    Vec2::new(x, y)
}

/// A square plane of side 1000 lying in z = 0.
fn unit_square() -> Plane {
    Plane { s1: v(0, 0, 0), s2: v(1000, 0, 0), s3: v(0, 1000, 0), s4: v(1000, 1000, 0) }
}

/// cos and sin of `n` angles that sweep a full turn, times `scale`.
fn trig_table(n: usize, scale: f64) -> Vec<(i64, i64)> {
    (0..n)
        .map(|i| {
            let a = (i as f64) * 360.0 / (n as f64);
            let r = a.to_radians();
            ((r.cos() * scale).round() as i64, (r.sin() * scale).round() as i64)
        })
        .collect()
}

/// A rectangular room in millimetres: four walls, a floor and a ceiling.
fn rect_room(w: i64, h: i64, ceiling: i64) -> Vec<Plane> {
    let walls = vec![
        (p2(0, 0), p2(w, 0)),
        (p2(w, 0), p2(w, h)),
        (p2(w, h), p2(0, h)),
        (p2(0, h), p2(0, 0)),
    ];
    let rooms = vec![(p2(0, h), p2(w, h), p2(w, 0), p2(0, 0))];
    build_planes(&walls, &rooms, ceiling).unwrap()
}

#[test]
fn walls_and_rooms_become_planes() {
    let walls = vec![(p2(0, 0), p2(10, 0))];
    let rooms = vec![(p2(0, 5), p2(10, 5), p2(10, 0), p2(0, 0))];
    let planes = build_planes(&walls, &rooms, 3).unwrap();
    assert_eq!(planes.len(), 3);
    assert_eq!(
        planes[0],
        Plane { s1: v(0, 0, 3), s2: v(10, 0, 3), s3: v(0, 0, 0), s4: v(10, 0, 0) }
    );
    assert_eq!(
        planes[1],
        Plane { s1: v(0, 5, 0), s2: v(10, 5, 0), s3: v(0, 0, 0), s4: v(10, 0, 0) }
    );
    assert_eq!(
        planes[2],
        Plane { s1: v(0, 5, 3), s2: v(10, 5, 3), s3: v(0, 0, 3), s4: v(10, 0, 3) }
    );
}

#[test]
fn bad_geometry_is_reported_with_its_index() {
    let good = (p2(0, 0), p2(10, 0));
    let room = (p2(0, 5), p2(10, 5), p2(10, 0), p2(0, 0));
    assert_eq!(build_planes(&vec![good], &vec![room], 0), Err(GeometryError::BadCeiling));
    assert_eq!(
        build_planes(&vec![good, (p2(3, 3), p2(3, 3))], &vec![room], 3),
        Err(GeometryError::BadWall(1))
    );
    assert_eq!(
        build_planes(&vec![good], &vec![(p2(0, 0), p2(0, 0), p2(1, 1), p2(2, 2))], 3),
        Err(GeometryError::BadRoom(0))
    );
    assert_eq!(
        build_planes(&vec![(p2(0, 0), p2(1_000_000, 0))], &vec![], 3),
        Err(GeometryError::BadWall(0))
    );
}

#[test]
fn ray_count_is_n_squared() {
    let tx = v(39000, 19000, 450);
    let rays = generate_rays(&tx, &trig_table(4, 256.0), 256).unwrap();
    assert_eq!(rays.len(), 16);
    for r in &rays {
        assert_eq!(r.origin, tx);
    }
}

#[test]
fn a_single_sample_gives_one_ray_straight_up() {
    let tx = v(10, 20, 30);
    let rays = generate_rays(&tx, &trig_table(1, 256.0), 256).unwrap();
    assert_eq!(rays, vec![Ray { origin: tx, target: v(10, 20, 30 + 256 * 256) }]);
}

#[test]
fn rays_run_latitude_major() {
    let tx = v(0, 0, 0);
    // angles 0 and 180 degrees
    let table = vec![(10, 0), (-10, 0)];
    let rays = generate_rays(&tx, &table, 10).unwrap();
    let aims: Vec<Vec3> = rays.iter().map(|r| r.target).collect();
    assert_eq!(aims, vec![v(0, 0, 100), v(0, 0, 100), v(0, 0, -100), v(0, 0, -100)]);
    let table = vec![(0, 10), (10, 0)];
    let rays = generate_rays(&tx, &table, 10).unwrap();
    let aims: Vec<Vec3> = rays.iter().map(|r| r.target).collect();
    assert_eq!(aims, vec![v(0, 100, 0), v(100, 0, 0), v(0, 0, 100), v(0, 0, 100)]);
}

#[test]
fn ray_generation_errors() {
    let tx = v(0, 0, 0);
    assert_eq!(generate_rays(&tx, &vec![], 256), Err(RayError::EmptyGrid));
    assert_eq!(generate_rays(&tx, &vec![(300, 0)], 256), Err(RayError::BadTable));
    assert_eq!(generate_rays(&tx, &vec![(1, 0)], 0), Err(RayError::BadTable));
    assert_eq!(
        generate_rays(&v(262_000, 0, 262_000), &vec![(256, 0)], 256),
        Err(RayError::OutOfDomain)
    );
}

#[test]
fn a_ray_at_the_centre_of_a_square_meets_it() {
    let hit = ray_plane_isect(&v(500, 500, 100), &v(500, 500, 50), &unit_square()).unwrap();
    assert_eq!(hit.point, w(500, 500, 0));
    // the plane lies two steps of the segment ahead
    assert_eq!((hit.num as i128) * 1, 2 * (hit.den as i128));
}

#[test]
fn a_ray_beside_the_square_misses_it() {
    assert_eq!(ray_plane_isect(&v(1500, 500, 100), &v(1500, 500, 50), &unit_square()), None);
    assert_eq!(ray_plane_isect(&v(-1, 500, 100), &v(-1, 500, 50), &unit_square()), None);
}

#[test]
fn a_ray_parallel_to_the_square_misses_it() {
    assert_eq!(ray_plane_isect(&v(500, 500, 100), &v(600, 500, 100), &unit_square()), None);
}

#[test]
fn an_oblique_hit_is_rounded_toward_the_origin() {
    let hit = ray_plane_isect(&v(0, 0, 3), &v(1, 1, 2), &unit_square()).unwrap();
    assert_eq!(hit.point, w(3, 3, 0));
    let hit = ray_plane_isect(&v(0, 0, 2), &v(1, 2, -1), &unit_square()).unwrap();
    // exact point (2/3, 4/3, 0)
    assert_eq!(hit.point, w(0, 1, 0));
}

/// A plane whose edges are nearly parallel: a parallelogram, not a rectangle.
fn sliver() -> Plane {
    Plane { s1: v(0, 0, 0), s2: v(1000, 0, 0), s3: v(1000, 1, 0), s4: v(2000, 1, 0) }
}

#[test]
fn a_hit_far_outside_the_domain_is_still_returned() {
    let hit = ray_plane_isect(&v(0, 0, 300), &v(0, 1000, 299), &sliver()).unwrap();
    assert_eq!(hit.point, w(0, 300_000, 0));
    assert_eq!(hit.point.narrow(), None);
    let near = ray_plane_isect(&v(0, 0, 300), &v(300, 0, 0), &sliver()).unwrap();
    assert_eq!(near.point.narrow(), Some(v(300, 0, 0)));
}

#[test]
fn a_trace_that_leaves_the_domain_is_reported() {
    let planes = vec![sliver()];
    let ray = Ray { origin: v(0, 0, 300), target: v(0, 1000, 299) };
    let limits = TraceLimits { threshold: 1, cutoff: 200_000 };
    assert_eq!(trace_ray(&ray, &planes, &v(5000, 5000, 5000), &limits), Trace::OutOfDomain);
    let good = Ray { origin: v(500, 0, 300), target: v(500, 0, 200) };
    let r = best_paths_for(&vec![good, ray], &planes, &v(5000, 5000, 5000), &limits);
    assert_eq!(r.err(), Some(TraceError::OutOfDomain(1)));
}

#[test]
fn mirroring_off_the_floor_flips_z() {
    let n = v(0, 0, 1_000_000);
    let d = v(3, -4, -5);
    let r = reflect(&d, &n);
    assert_eq!(r, v(3, -4, 5));
    assert_eq!(reflect(&r, &n), d);
}

#[test]
fn mirroring_off_a_diagonal_wall() {
    // normal along (1, 1, 0): (1, 0, 0) becomes (0, -1, 0)
    let n = v(7, 7, 0);
    let r = reflect(&v(10, 0, 0), &n);
    assert_eq!(r, v(0, -10, 0));
    assert_eq!(reflect(&r, &n), v(10, 0, 0));
}

#[test]
fn mirroring_twice_with_rounding_stays_close() {
    let n = v(1, 1, 1);
    let r = reflect(&v(1, 0, 0), &n);
    assert_eq!(r, v(0, 0, 0));
    for (d, n) in [(v(1000, 7, -3), v(1, 2, 3)), (v(-250, 400, 9), v(5, -3, 11)), (v(1, 0, 0), n)] {
        let back = reflect(&reflect(&d, &n), &n);
        assert!((back.x - d.x).abs() <= 2 && (back.y - d.y).abs() <= 2 && (back.z - d.z).abs() <= 2);
    }
}

#[test]
fn nearest_hit_prefers_the_nearer_plane_and_honours_skip() {
    let near = unit_square();
    let far = Plane { s1: v(0, 0, -100), s2: v(1000, 0, -100), s3: v(0, 1000, -100), s4: v(1000, 1000, -100) };
    let planes = vec![far, near];
    let (i, h) = nearest_hit(&v(500, 500, 100), &v(500, 500, 90), &planes, None).unwrap();
    assert_eq!(i, 1);
    assert_eq!(h.point, w(500, 500, 0));
    let (i, h) = nearest_hit(&v(500, 500, 100), &v(500, 500, 90), &planes, Some(1)).unwrap();
    assert_eq!(i, 0);
    assert_eq!(h.point, w(500, 500, -100));
    // nothing lies behind the origin
    assert!(nearest_hit(&v(500, 500, 100), &v(500, 500, 110), &planes, None).is_none());
}

#[test]
fn nearest_hit_breaks_ties_by_index() {
    let planes = vec![unit_square(), unit_square()];
    let (i, _) = nearest_hit(&v(500, 500, 100), &v(500, 500, 90), &planes, None).unwrap();
    assert_eq!(i, 0);
}

#[test]
fn a_direct_path_converges_at_once() {
    let planes = rect_room(10_000, 10_000, 3000);
    let ray = Ray { origin: v(1000, 5000, 1000), target: v(1100, 5000, 1000) };
    let limits = TraceLimits { threshold: 100, cutoff: 200_000 };
    let c = converged(trace_ray(&ray, &planes, &v(6000, 5050, 1000), &limits));
    assert_eq!(c.origin, v(1000, 5000, 1000));
    assert_eq!(c.end, v(10_000, 5000, 1000));
    assert_eq!(c.approach, 50);
    assert_eq!(c.bounces, 0);
    // floor(sqrt(5000^2 + 50^2))
    assert_eq!(c.length, 5000);
}

#[test]
fn a_path_converges_after_one_reflection() {
    let planes = rect_room(10_000, 10_000, 3000);
    let ray = Ray { origin: v(5000, 5000, 1000), target: v(5100, 5000, 1000) };
    let limits = TraceLimits { threshold: 100, cutoff: 200_000 };
    // the receiver lies behind the origin, on the way back from the wall at x = 10000
    let c = converged(trace_ray(&ray, &planes, &v(2000, 5000, 1000), &limits));
    assert_eq!(c.bounces, 0);
    let c = trace_ray(&ray, &planes, &v(2000, 5000, 1500), &limits);
    assert_eq!(c, Trace::Abandoned);
    // off the wall x = 10000 at y = 7000, then on towards (7000, 10000)
    let ray = Ray { origin: v(5000, 2000, 1000), target: v(5100, 2100, 1000) };
    let c = converged(trace_ray(&ray, &planes, &v(8000, 9000, 1000), &limits));
    assert_eq!(c.bounces, 1);
    assert_eq!(c.origin, v(10_000, 7000, 1000));
    assert_eq!(c.end, v(7000, 10_000, 1000));
    assert_eq!(c.approach, 0);
    // floor(sqrt(2) * 5000) + floor(sqrt(2000^2 + 2000^2))
    assert_eq!(c.length, 7071 + 2828);
}

#[test]
fn a_ray_that_escapes_gives_nothing() {
    let floor_only = vec![unit_square()];
    let ray = Ray { origin: v(500, 500, 100), target: v(500, 500, 200) };
    let limits = TraceLimits { threshold: 100, cutoff: 200_000 };
    assert_eq!(trace_ray(&ray, &floor_only, &v(500, 500, 5000), &limits), Trace::Escaped);
}

#[test]
fn the_cutoff_abandons_a_long_path() {
    let planes = rect_room(10_000, 10_000, 3000);
    let ray = Ray { origin: v(5000, 5000, 1000), target: v(5100, 5000, 1000) };
    let limits = TraceLimits { threshold: 1, cutoff: 5000 };
    assert_eq!(trace_ray(&ray, &planes, &v(2000, 1000, 1000), &limits), Trace::Abandoned);
}

#[test]
fn the_bounce_cap_abandons_an_endless_path() {
    let planes = rect_room(10_000, 10_000, 3000);
    // back and forth between two walls, never near the receiver
    let ray = Ray { origin: v(5000, 5000, 1000), target: v(5100, 5000, 1000) };
    let limits = TraceLimits { threshold: 1, cutoff: u64::MAX };
    assert_eq!(trace_ray(&ray, &planes, &v(5000, 1000, 1000), &limits), Trace::Abandoned);
}

fn cand(approach: u64) -> Candidate {
    Candidate { origin: v(0, 0, 0), end: v(1, 0, 0), approach, length: approach, bounces: 0 }
}

#[test]
fn best_paths_keep_the_three_nearest_in_order() {
    let mut b = BestPaths::new();
    for a in [50u64, 10, 40, 30, 60, 20, 20] {
        b.insert(cand(a));
        assert!(b.len() <= 3);
        let keys: Vec<u64> = b.entries().iter().map(|c| c.approach).collect();
        let mut sorted = keys.clone();
        sorted.sort();
        assert_eq!(keys, sorted);
    }
    let keys: Vec<u64> = b.entries().iter().map(|c| c.approach).collect();
    assert_eq!(keys, vec![10, 20, 20]);
}

#[test]
fn a_full_set_ignores_a_tie_with_its_worst() {
    let mut b = BestPaths::new();
    for a in [1u64, 2, 3] {
        b.insert(cand(a));
    }
    let mut tie = cand(3);
    tie.length = 99;
    b.insert(tie);
    assert_eq!(b.entries()[2].length, 3);
}

#[test]
fn wavelength_of_wifi() {
    // 299792458e6 / 2.45e9
    assert_eq!(Signal::wavelength_um(2_450_000_000), Some(122_364));
    assert_eq!(Signal::wavelength_um(0), None);
}

fn friis(pt: f64, gt: f64, gr: f64, lambda: f64, d: f64) -> f64 {
    pt * gt * gr * (lambda / (4.0 * std::f64::consts::PI * d)).powi(2)
}

#[test]
fn end_to_end_single_room() {
    let planes = rect_room(96_000, 31_000, 2900);
    let tx = v(39_000, 19_000, 450);
    let rx = v(5_000, 25_000, 450);
    let rays = generate_rays(&tx, &trig_table(50, 256.0), 256).unwrap();
    assert_eq!(rays.len(), 2500);
    let limits = TraceLimits { threshold: 1000, cutoff: 200_000 };
    let best = best_paths_for(&rays, &planes, &rx, &limits).unwrap();
    let paths = best.entries();
    assert!(!paths.is_empty());
    assert!(paths.len() <= 3);
    let first = &paths[0];
    assert!(first.approach < 1000);
    let lambda = Signal::wavelength_um(2_450_000_000).unwrap() as f64 / 1e6;
    let d = first.length as f64 / 1000.0;
    assert!(d > 0.0);
    let p = friis(13.0, 2.0, 7.0, lambda, d);
    assert!(p.is_finite() && p > 0.0);
    println!("{:?}", paths);
}
