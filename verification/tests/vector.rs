use raytracer::{Axis, Binary32, Vec3};

fn b(x: f32) -> Binary32 {
    Binary32::from_bits(x.to_bits())
}

fn h(x: Binary32) -> f32 {
    f32::from_bits(x.to_bits())
}

fn v(x: f32, y: f32, z: f32) -> Vec3 {
    Vec3::new(b(x), b(y), b(z))
}

fn f(a: Vec3) -> [f32; 3] {
    [h(a.x()), h(a.y()), h(a.z())]
}

fn same_bits(a: Vec3, c: Vec3) -> bool {
    a.x().to_bits() == c.x().to_bits()
        && a.y().to_bits() == c.y().to_bits()
        && a.z().to_bits() == c.z().to_bits()
}

const SAMPLES: [[f32; 3]; 8] = [
    [1.0, 2.0, 3.0],
    [3.0, 2.0, 1.0],
    [0.1, -0.7, 12.25],
    [-1e-3, 4e5, 0.333],
    [1e-20, 1e-21, -3e-20],
    [7.5e15, -2.0, 1e16],
    [0.0, 0.0, 1e-30],
    [-5.0, 0.25, 1e-8],
];

#[test]
fn construct_add() {
    let a = Vec3::new(b(1.), b(2.), b(3.));
    let c = Vec3::new(b(3.), b(2.), b(1.));

    let d = a + c;

    assert_eq!(h(*d.index(Axis::X)), 4.0)
}

#[test]
fn add_is_commutative() {
    for p in SAMPLES.iter() {
        for q in SAMPLES.iter() {
            let (a, c) = (v(p[0], p[1], p[2]), v(q[0], q[1], q[2]));
            assert!(same_bits(a + c, c + a));
            assert_eq!(f(a + c), [p[0] + q[0], p[1] + q[1], p[2] + q[2]]);
        }
    }
}

#[test]
fn dot_is_commutative() {
    for p in SAMPLES.iter() {
        for q in SAMPLES.iter() {
            let (a, c) = (v(p[0], p[1], p[2]), v(q[0], q[1], q[2]));
            assert_eq!(a.dot(c).to_bits(), c.dot(a).to_bits());
            assert_eq!(h(a.dot(c)), p[0] * q[0] + p[1] * q[1] + p[2] * q[2]);
        }
    }
}

#[test]
fn normalized_vector_has_length_one() {
    let moderate = [
        [1.0f32, 2.0, 3.0],
        [3.0, 2.0, 1.0],
        [0.1, -0.7, 12.25],
        [-1e-3, 4e5, 0.333],
        [1e-12, 1e-13, -3e-12],
        [7.5e15, -2.0, 1e16],
        [0.0, 0.0, 1e-15],
        [-5.0, 0.25, 1e-8],
        [0.0, -100.5, -1.0],
    ];
    for p in moderate.iter() {
        let a = v(p[0], p[1], p[2]);
        let len = h(a.normalize().len());
        assert!((len - 1.0).abs() < 1e-5, "{:?}: {}", p, len);
    }
}

#[test]
fn normalized_vector_has_length_one_up_to_the_ends_of_the_range() {
    // squared lengths from 2^-122 up to the largest finite value
    let tiny = f32::from_bits(0x2100_0000); // 2^-61
    let ends = [
        [tiny, 0.0, 0.0],
        [0.0, -tiny, 0.0],
        [tiny * 0.75, tiny * 0.75, 1e-30],
        [tiny, -tiny, tiny],
        [1e19, 1e19, 1e19],
        [-1.8e19, 1e-30, 0.0],
        [1.0000001, 1e-38, -1e-45],
    ];
    for p in ends.iter() {
        let a = v(p[0], p[1], p[2]);
        assert!(h(a.len_sqrd()).is_finite() && h(a.len_sqrd()) >= tiny * tiny);
        let len = h(a.normalize().len());
        assert!((len - 1.0).abs() <= 1e-5, "{:?}: {}", p, len);
    }
}

#[test]
fn normalizing_a_vector_too_short_to_square_has_no_length() {
    let n = v(0.0, 0.0, 1e-30).normalize();
    assert!(h(n.x()).is_nan());
    assert_eq!(h(n.z()), f32::INFINITY);
    assert!(h(n.len()).is_nan());
}

#[test]
fn normalizing_the_zero_vector_is_not_a_number() {
    let n = v(0.0, 0.0, 0.0).normalize();
    assert!(h(n.x()).is_nan() && h(n.y()).is_nan() && h(n.z()).is_nan());
}

#[test]
fn normalizing_a_vector_too_long_to_square_gives_zero() {
    let n = v(1e30, 0.0, 0.0).normalize();
    assert_eq!(f(n), [0.0, 0.0, 0.0]);
    assert_eq!(h(n.len()), 0.0);
}

#[test]
fn length_of_three_four_zero_is_five() {
    let a = v(3.0, 4.0, 0.0);
    assert_eq!(h(a.len_sqrd()), 25.0);
    assert_eq!(h(a.len()), 5.0);
    assert_eq!(f(a.normalize()), [3.0 * (1.0f32 / 5.0), 4.0 * (1.0f32 / 5.0), 0.0]);
}

#[test]
fn cross_of_axes() {
    assert_eq!(f(v(1.0, 0.0, 0.0).cross(v(0.0, 1.0, 0.0))), [0.0, 0.0, 1.0]);
    assert_eq!(f(v(0.0, 1.0, 0.0).cross(v(1.0, 0.0, 0.0))), [0.0, 0.0, -1.0]);
    let (p, q) = ([0.1f32, -0.7, 12.25], [-5.0f32, 0.25, 1e-8]);
    assert_eq!(
        f(v(p[0], p[1], p[2]).cross(v(q[0], q[1], q[2]))),
        [p[1] * q[2] - p[2] * q[1], p[2] * q[0] - p[0] * q[2], p[0] * q[1] - p[1] * q[0]]
    );
}

#[test]
fn operators_work_by_component() {
    let (a, c) = (v(1.0, 2.0, 3.0), v(4.0, 0.5, -2.0));
    assert_eq!(f(a - c), [-3.0, 1.5, 5.0]);
    assert_eq!(f(a * c), [4.0, 1.0, -6.0]);
    assert_eq!(f(a / c), [0.25, 4.0, -1.5]);
    assert_eq!(f(a * b(2.0)), [2.0, 4.0, 6.0]);
    assert_eq!(f(b(2.0) * a), [2.0, 4.0, 6.0]);
    assert_eq!(f(a / b(2.0)), [0.5, 1.0, 1.5]);
    assert_eq!(f(-a), [-1.0, -2.0, -3.0]);
}

#[test]
fn assignment_forms_change_the_vector() {
    let mut a = v(1.0, 2.0, 3.0);
    a.add_assign(v(1.0, 1.0, 1.0));
    assert_eq!(f(a), [2.0, 3.0, 4.0]);
    a.sub_assign(v(0.5, 0.5, 0.5));
    assert_eq!(f(a), [1.5, 2.5, 3.5]);
    a.mul_assign(v(2.0, 0.0, -1.0));
    assert_eq!(f(a), [3.0, 0.0, -3.5]);
    a.scale_assign(b(4.0));
    assert_eq!(f(a), [12.0, 0.0, -14.0]);
    a.div_assign(b(8.0));
    assert_eq!(f(a), [1.5, 0.0, -1.75]);
}

#[test]
fn components_by_name_and_by_axis() {
    let mut a = v(1.0, 2.0, 3.0);
    assert_eq!([h(a.x()), h(a.y()), h(a.z())], [1.0, 2.0, 3.0]);
    assert_eq!([h(a.r()), h(a.g()), h(a.b())], [1.0, 2.0, 3.0]);
    assert_eq!(h(*a.index(Axis::Y)), 2.0);
    *a.index_mut(Axis::Z) = b(9.0);
    *a.index_mut(Axis::X) = b(7.0);
    assert_eq!(f(a), [7.0, 2.0, 9.0]);
    assert_eq!(f(Vec3::default()), [0.0, 0.0, 0.0]);
}
