use nit::aabb::{Aabb, KeyVec};

// Order-preserving embedding of f32 into u64 (sign-flip trick on the bits).
fn key_of(x: f32) -> u64 {
    let b = x.to_bits();
    let k = if b & 0x8000_0000 != 0 { !b } else { b | 0x8000_0000 };
    k as u64
}

#[test]
fn key_embedding_is_monotone() {
    let samples: [f32; 8] = [-1.0e9, -3.5, -1.0, 0.0, 1.0e-6, 1.0, 3.5, 1.0e9];
    for i in 0..samples.len() {
        for j in 0..samples.len() {
            if samples[i] < samples[j] {
                assert!(key_of(samples[i]) < key_of(samples[j]));
            }
            if samples[i] <= samples[j] {
                assert!(key_of(samples[i]) <= key_of(samples[j]));
            }
        }
    }
}

#[test]
fn surrounding_box_concrete() {
    let a = Aabb::new(KeyVec::new(1, 5, 3), KeyVec::new(4, 9, 7));
    let b = Aabb::new(KeyVec::new(2, 2, 6), KeyVec::new(3, 11, 10));
    let u = Aabb::surrounding_box(a, b);
    assert_eq!(u.min.x, 1);
    assert_eq!(u.min.y, 2);
    assert_eq!(u.min.z, 3);
    assert_eq!(u.max.x, 4);
    assert_eq!(u.max.y, 11);
    assert_eq!(u.max.z, 10);
}

#[test]
fn surrounding_box_symmetric_and_contains() {
    let cases = [
        ((1u64, 2u64, 3u64), (9u64, 8u64, 7u64), (0u64, 5u64, 2u64), (4u64, 20u64, 9u64)),
        ((0, 0, 0), (0, 0, 0), (1, 1, 1), (2, 2, 2)),
        ((5, 5, 5), (6, 6, 6), (5, 5, 5), (6, 6, 6)),
    ];
    for (amin, amax, bmin, bmax) in cases {
        let a = Aabb::new(KeyVec::new(amin.0, amin.1, amin.2), KeyVec::new(amax.0, amax.1, amax.2));
        let b = Aabb::new(KeyVec::new(bmin.0, bmin.1, bmin.2), KeyVec::new(bmax.0, bmax.1, bmax.2));
        let u1 = Aabb::surrounding_box(a, b);
        let u2 = Aabb::surrounding_box(b, a);
        assert_eq!(u1, u2);
        // The union bounds both arguments.
        for c in [a, b] {
            assert!(u1.min.x <= c.min.x && c.max.x <= u1.max.x);
            assert!(u1.min.y <= c.min.y && c.max.y <= u1.max.y);
            assert!(u1.min.z <= c.min.z && c.max.z <= u1.max.z);
        }
    }
}

#[test]
fn surrounding_box_associative() {
    let a = Aabb::new(KeyVec::new(1, 9, 4), KeyVec::new(5, 12, 8));
    let b = Aabb::new(KeyVec::new(0, 10, 6), KeyVec::new(2, 15, 7));
    let c = Aabb::new(KeyVec::new(3, 8, 5), KeyVec::new(9, 11, 12));
    let left = Aabb::surrounding_box(Aabb::surrounding_box(a, b), c);
    let right = Aabb::surrounding_box(a, Aabb::surrounding_box(b, c));
    assert_eq!(left, right);
}

#[test]
fn surrounding_box_of_float_boxes() {
    // Key-space minima/maxima agree with float minima/maxima.
    let u = Aabb::surrounding_box(
        Aabb::new(
            KeyVec::new(key_of(-1.5), key_of(0.0), key_of(2.0)),
            KeyVec::new(key_of(1.0), key_of(3.0), key_of(4.0)),
        ),
        Aabb::new(
            KeyVec::new(key_of(-0.5), key_of(-2.0), key_of(3.0)),
            KeyVec::new(key_of(2.5), key_of(1.0), key_of(3.5)),
        ),
    );
    assert_eq!(u.min.x, key_of(-1.5));
    assert_eq!(u.min.y, key_of(-2.0));
    assert_eq!(u.min.z, key_of(2.0));
    assert_eq!(u.max.x, key_of(2.5));
    assert_eq!(u.max.y, key_of(3.0));
    assert_eq!(u.max.z, key_of(4.0));
}
