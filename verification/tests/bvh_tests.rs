use nit::aabb::{Aabb, KeyVec};
use nit::bvh::{Bvh, Object};
use nit::search::{closest_hit, Search, Step};

// Order-preserving embedding of f32 into u64, and its inverse.
fn key_of(x: f32) -> u64 {
    let b = x.to_bits();
    let k = if b & 0x8000_0000 != 0 { !b } else { b | 0x8000_0000 };
    k as u64
}

fn float_of(k: u64) -> f32 {
    let k = k as u32;
    let b = if k & 0x8000_0000 != 0 { k & 0x7fff_ffff } else { !k };
    f32::from_bits(b)
}

struct Sphere {
    center: [f32; 3],
    radius: f32,
}

impl Sphere {
    fn key_box(&self) -> Aabb {
        Aabb::new(
            KeyVec::new(
                key_of(self.center[0] - self.radius),
                key_of(self.center[1] - self.radius),
                key_of(self.center[2] - self.radius),
            ),
            KeyVec::new(
                key_of(self.center[0] + self.radius),
                key_of(self.center[1] + self.radius),
                key_of(self.center[2] + self.radius),
            ),
        )
    }

    // Smaller-root-first quadratic solve, as a path tracer's sphere kernel
    // does it.
    fn intersect(&self, origin: [f32; 3], dir: [f32; 3], t_min: f32, t_max: f32) -> Option<f32> {
        let oc = [
            origin[0] - self.center[0],
            origin[1] - self.center[1],
            origin[2] - self.center[2],
        ];
        let a = dir[0] * dir[0] + dir[1] * dir[1] + dir[2] * dir[2];
        let b = oc[0] * dir[0] + oc[1] * dir[1] + oc[2] * dir[2];
        let c = oc[0] * oc[0] + oc[1] * oc[1] + oc[2] * oc[2] - self.radius * self.radius;
        let disc = b * b - a * c;
        if disc > 0.0 {
            let mut t = (-b - disc.sqrt()) / a;
            if t >= t_max || t <= t_min {
                t = (-b + disc.sqrt()) / a;
            }
            if t < t_max && t > t_min {
                return Some(t);
            }
        }
        None
    }
}

// The slab test on a key-space box, decoded back to floats.
fn slab_hit(b: &Aabb, origin: [f32; 3], dir: [f32; 3], t_min: f32, t_max: f32) -> bool {
    let mins = [float_of(b.min.x), float_of(b.min.y), float_of(b.min.z)];
    let maxs = [float_of(b.max.x), float_of(b.max.y), float_of(b.max.z)];
    let mut lo = t_min;
    let mut hi = t_max;
    for a in 0..3 {
        let inv0 = (mins[a] - origin[a]) / dir[a];
        let inv1 = (maxs[a] - origin[a]) / dir[a];
        let t0 = inv0.min(inv1);
        let t1 = inv0.max(inv1);
        lo = t0.max(lo);
        hi = t1.min(hi);
        if hi <= lo {
            return false;
        }
    }
    true
}

fn build(spheres: &[Sphere]) -> Bvh {
    let mut objects = Vec::new();
    for (i, s) in spheres.iter().enumerate() {
        objects.push(Object { id: i, bbox: s.key_box() });
    }
    Bvh::new(objects)
}

// Drive one ray through the tree, answering the machine's queries with the
// geometry above.
fn run_search(
    bvh: &Bvh,
    spheres: &[Sphere],
    origin: [f32; 3],
    dir: [f32; 3],
    t_min: f32,
    t_max: f32,
) -> Option<(usize, u64)> {
    let mut s = Search::new(bvh);
    loop {
        match s.next(bvh) {
            Step::TestBox(b) => {
                let hit = slab_hit(&b, origin, dir, t_min, t_max);
                s.answer_box(bvh, hit);
            }
            Step::TestObject(oid) => {
                let t = spheres[oid].intersect(origin, dir, t_min, t_max);
                s.answer_object(bvh, t.map(|v| key_of(v)));
            }
            Step::Done => return s.result(),
        }
    }
}

fn brute_force(
    spheres: &[Sphere],
    origin: [f32; 3],
    dir: [f32; 3],
    t_min: f32,
    t_max: f32,
) -> Option<(usize, u64)> {
    let ts: Vec<Option<u64>> = spheres
        .iter()
        .map(|s| s.intersect(origin, dir, t_min, t_max).map(|v| key_of(v)))
        .collect();
    closest_hit(&ts)
}

// A tiny deterministic generator so the large differential test is
// reproducible.
struct Lcg(u64);

impl Lcg {
    fn next_f32(&mut self) -> f32 {
        self.0 = self.0.wrapping_mul(6364136223846793005).wrapping_add(1442695040888963407);
        ((self.0 >> 33) as f32) / ((1u64 << 31) as f32)
    }
}

#[test]
fn single_object_tree() {
    let spheres = [Sphere { center: [0.0, 0.0, 0.0], radius: 1.0 }];
    let bvh = build(&spheres);
    assert_eq!(bvh.node_count(), 1);
    let hit = run_search(&bvh, &spheres, [0.0, 0.0, 5.0], [0.0, 0.0, -1.0], 1e-4, f32::MAX);
    let (oid, tk) = hit.expect("ray straight at the sphere must hit");
    assert_eq!(oid, 0);
    let t = float_of(tk);
    assert!((t - 4.0).abs() < 1e-4, "expected t near 4, got {t}");
}

#[test]
fn unit_sphere_scenario() {
    // Unit sphere at the origin, ray from (0,0,5) toward (0,0,-1): the hit
    // is at t near 4, at the point (0,0,1).
    let spheres = [Sphere { center: [0.0, 0.0, 0.0], radius: 1.0 }];
    let bvh = build(&spheres);
    let origin = [0.0, 0.0, 5.0];
    let dir = [0.0, 0.0, -1.0];
    let (oid, tk) = run_search(&bvh, &spheres, origin, dir, 1e-4, f32::MAX).unwrap();
    assert_eq!(oid, 0);
    let t = float_of(tk);
    let p = [origin[0] + t * dir[0], origin[1] + t * dir[1], origin[2] + t * dir[2]];
    assert!((p[0] - 0.0).abs() < 1e-4);
    assert!((p[1] - 0.0).abs() < 1e-4);
    assert!((p[2] - 1.0).abs() < 1e-4);
    let normal = [p[0] / 1.0, p[1] / 1.0, p[2] / 1.0];
    let len = (normal[0] * normal[0] + normal[1] * normal[1] + normal[2] * normal[2]).sqrt();
    assert!((len - 1.0).abs() < 1e-4);
    assert!((normal[2] - 1.0).abs() < 1e-4);
}

#[test]
fn five_spheres_each_hit_by_its_own_ray() {
    // Five spheres at distinct, non-overlapping locations; a ray aimed at
    // each must return that sphere, never another.
    let centers = [
        [10.0, 0.0, 0.0],
        [-10.0, 0.0, 0.0],
        [0.0, 10.0, 0.0],
        [0.0, -10.0, 0.0],
        [0.0, 0.0, 10.0],
    ];
    let spheres: Vec<Sphere> =
        centers.iter().map(|&c| Sphere { center: c, radius: 1.0 }).collect();
    let bvh = build(&spheres);
    for (i, c) in centers.iter().enumerate() {
        let origin = [c[0] * 3.0, c[1] * 3.0, c[2] * 3.0];
        let dir = [-c[0] / 10.0, -c[1] / 10.0, -c[2] / 10.0];
        let (oid, tk) = run_search(&bvh, &spheres, origin, dir, 1e-4, f32::MAX)
            .expect("aimed ray must hit");
        assert_eq!(oid, i, "the ray aimed at sphere {i} must return sphere {i}");
        // It hits the near surface of its own sphere.
        let t = float_of(tk);
        assert!((t - 19.0).abs() < 1e-3, "expected t near 19, got {t}");
    }
}

#[test]
fn bvh_equals_brute_force_small_counts() {
    for n in [1usize, 2, 3, 4, 7] {
        let mut g = Lcg(0x9e3779b97f4a7c15 ^ (n as u64));
        let spheres: Vec<Sphere> = (0..n)
            .map(|_| Sphere {
                center: [
                    g.next_f32() * 20.0 - 10.0,
                    g.next_f32() * 20.0 - 10.0,
                    g.next_f32() * 20.0 - 10.0,
                ],
                radius: 0.3 + g.next_f32(),
            })
            .collect();
        let bvh = build(&spheres);
        for _ in 0..40 {
            let origin = [
                g.next_f32() * 30.0 - 15.0,
                g.next_f32() * 30.0 - 15.0,
                g.next_f32() * 30.0 - 15.0,
            ];
            let dir = [
                g.next_f32() * 2.0 - 1.0,
                g.next_f32() * 2.0 - 1.0,
                g.next_f32() * 2.0 - 1.0,
            ];
            if dir[0] == 0.0 || dir[1] == 0.0 || dir[2] == 0.0 {
                continue;
            }
            let fast = run_search(&bvh, &spheres, origin, dir, 1e-4, f32::MAX);
            let slow = brute_force(&spheres, origin, dir, 1e-4, f32::MAX);
            match (fast, slow) {
                (None, None) => {}
                (Some((fo, ft)), Some((so, st))) => {
                    assert_eq!(ft, st, "closest distance must agree with brute force");
                    let _ = (fo, so);
                }
                other => panic!("tree and brute force disagree: {other:?}"),
            }
        }
    }
}

#[test]
fn bvh_equals_brute_force_large_set() {
    let mut g = Lcg(42);
    let spheres: Vec<Sphere> = (0..120)
        .map(|_| Sphere {
            center: [
                g.next_f32() * 40.0 - 20.0,
                g.next_f32() * 40.0 - 20.0,
                g.next_f32() * 40.0 - 20.0,
            ],
            radius: 0.2 + g.next_f32() * 1.5,
        })
        .collect();
    let bvh = build(&spheres);
    for _ in 0..60 {
        let origin = [
            g.next_f32() * 50.0 - 25.0,
            g.next_f32() * 50.0 - 25.0,
            g.next_f32() * 50.0 - 25.0,
        ];
        let dir = [
            g.next_f32() * 2.0 - 1.0,
            g.next_f32() * 2.0 - 1.0,
            g.next_f32() * 2.0 - 1.0,
        ];
        if dir[0] == 0.0 || dir[1] == 0.0 || dir[2] == 0.0 {
            continue;
        }
        let fast = run_search(&bvh, &spheres, origin, dir, 1e-4, f32::MAX);
        let slow = brute_force(&spheres, origin, dir, 1e-4, f32::MAX);
        match (fast, slow) {
            (None, None) => {}
            (Some((_, ft)), Some((_, st))) => assert_eq!(ft, st),
            other => panic!("tree and brute force disagree: {other:?}"),
        }
    }
}

#[test]
fn tree_has_one_leaf_per_object() {
    // One leaf per object and one internal node per split: 2n - 1 nodes.
    for n in [1usize, 2, 3, 5, 100] {
        let mut g = Lcg(7 + n as u64);
        let spheres: Vec<Sphere> = (0..n)
            .map(|_| Sphere {
                center: [g.next_f32() * 10.0, g.next_f32() * 10.0, g.next_f32() * 10.0],
                radius: 0.5,
            })
            .collect();
        let bvh = build(&spheres);
        assert_eq!(bvh.node_count(), 2 * n - 1);
    }
}

#[test]
fn miss_everything_returns_none() {
    let spheres = [
        Sphere { center: [5.0, 0.0, 0.0], radius: 1.0 },
        Sphere { center: [-5.0, 0.0, 0.0], radius: 1.0 },
    ];
    let bvh = build(&spheres);
    // Aimed straight up, far from both spheres.
    let r = run_search(&bvh, &spheres, [0.0, 20.0, 0.0], [0.1, 1.0, 0.1], 1e-4, f32::MAX);
    assert_eq!(r, None);
}

#[test]
fn equal_boxes_still_agree_with_brute_force() {
    // Three spheres at the same place: every sort key ties.
    let spheres = [
        Sphere { center: [0.0, 0.0, 0.0], radius: 1.0 },
        Sphere { center: [0.0, 0.0, 0.0], radius: 1.0 },
        Sphere { center: [0.0, 0.0, 0.0], radius: 1.0 },
    ];
    let bvh = build(&spheres);
    let fast = run_search(&bvh, &spheres, [0.0, 0.0, 5.0], [0.0, 0.0, -1.0], 1e-4, f32::MAX);
    let slow = brute_force(&spheres, [0.0, 0.0, 5.0], [0.0, 0.0, -1.0], 1e-4, f32::MAX);
    let (_, ft) = fast.expect("must hit");
    let (_, st) = slow.expect("must hit");
    assert_eq!(ft, st);
}

#[test]
fn closest_hit_picks_first_minimum() {
    let ts = vec![None, Some(7u64), Some(3), None, Some(3), Some(9)];
    let r = closest_hit(&ts);
    assert_eq!(r, Some((2usize, 3u64)));
    let empty: Vec<Option<u64>> = Vec::new();
    assert_eq!(closest_hit(&empty), None);
    let misses: Vec<Option<u64>> = vec![None, None];
    assert_eq!(closest_hit(&misses), None);
}
