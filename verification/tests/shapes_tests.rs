use nit::shapes::{select_sphere_root, RectPlane};

#[test]
fn rect_plane_axis_permutations() {
    assert_eq!(RectPlane::XY.axes(), (2, 0, 1));
    assert_eq!(RectPlane::YZ.axes(), (0, 1, 2));
    assert_eq!(RectPlane::XZ.axes(), (1, 0, 2));
}

#[test]
fn sphere_root_prefers_the_smaller_root() {
    // Both roots in range: the near surface wins.
    assert_eq!(select_sphere_root(40, 60, 1, 100), Some(40));
}

#[test]
fn sphere_root_falls_back_to_the_larger_root() {
    // The smaller root is behind t_min (the ray starts inside the sphere).
    assert_eq!(select_sphere_root(0, 60, 1, 100), Some(60));
    // The interval bounds are strict.
    assert_eq!(select_sphere_root(1, 60, 1, 100), Some(60));
}

#[test]
fn sphere_root_misses_when_neither_qualifies() {
    assert_eq!(select_sphere_root(0, 1, 1, 100), None);
    assert_eq!(select_sphere_root(200, 300, 1, 100), None);
    assert_eq!(select_sphere_root(100, 100, 1, 100), None);
}
