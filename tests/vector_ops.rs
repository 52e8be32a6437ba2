use raytracer::vector::{floor_div, floor_sqrt, Vector, LIMIT, UNIT};

fn true_length(v: &Vector) -> u64 {
    let sq = (v.x as i128) * (v.x as i128) + (v.y as i128) * (v.y as i128) + (v.z as i128) * (v.z as i128);
    let mut r: i128 = 0;
    while (r + 1) * (r + 1) <= sq {
        r += 1;
    }
    r as u64
}

#[test]
fn new_keeps_length() {
    let v = Vector::new(3, 4, 0);
    assert_eq!(v.magnitude(), 5);
}

#[test]
fn length_follows_every_mutation() {
    let mut v = Vector::new(1, 2, 2);
    assert_eq!(v.magnitude(), 3);
    v.add(&Vector::new(2, 2, 1));
    assert_eq!((v.x, v.y, v.z), (3, 4, 3));
    assert_eq!(v.magnitude(), true_length(&v));
    v.minus(&Vector::new(3, 0, 3));
    assert_eq!((v.x, v.y, v.z), (0, 4, 0));
    assert_eq!(v.magnitude(), 4);
    v.mult(-3000);
    assert_eq!((v.x, v.y, v.z), (0, -12, 0));
    assert_eq!(v.magnitude(), 12);
    v.cross(&Vector::new(1, 0, 0));
    assert_eq!((v.x, v.y, v.z), (0, 0, 12));
    assert_eq!(v.magnitude(), true_length(&v));
    v.set(7, 7, 7);
    assert_eq!(v.magnitude(), 12);
    assert_eq!(v.magnitude(), true_length(&v));
    let w = Vector::new(6, 8, 0);
    v.set_as(&w);
    assert_eq!((v.x, v.y, v.z, v.magnitude()), (6, 8, 0, 10));
}

#[test]
fn normalise_gives_unit_length() {
    let mut v = Vector::new(3000, 4000, 0);
    v.normalise();
    assert_eq!((v.x, v.y, v.z), (600, 800, 0));
    assert_eq!(v.magnitude(), UNIT as u64);
    let mut w = Vector::new(0, 0, 2);
    w.normalise();
    assert_eq!((w.x, w.y, w.z), (0, 0, 1000));
    let mut u = Vector::new(1, 1, 1);
    u.normalise();
    assert_eq!((u.x, u.y, u.z), (577, 577, 577));
    assert_eq!(u.magnitude(), 999);
    let mut t = Vector::new(1, 1, 0);
    t.normalise();
    assert_eq!((t.x, t.y, t.z), (707, 707, 0));
    assert_eq!(t.magnitude(), 999);
    let mut l = Vector::new(1, 2, 3);
    l.normalise();
    assert!(l.magnitude() >= 996 && l.magnitude() <= 1002);
    let mut n = Vector::new(-3, 0, 4);
    n.normalise();
    assert_eq!((n.x, n.y, n.z), (-600, 0, 800));
    assert_eq!(n.magnitude(), 1000);
}

#[test]
fn mult_takes_a_fixed_point_factor() {
    let mut v = Vector::new(2, 4, -1);
    v.mult(2500);
    assert_eq!((v.x, v.y, v.z), (5, 10, -3));
    assert_eq!(v.magnitude(), 11);
}

#[test]
fn new_with_length_keeps_the_given_length() {
    let v = Vector::new_with_length(3, 4, 0, 5);
    assert_eq!((v.x, v.y, v.z, v.magnitude()), (3, 4, 0, 5));
}

#[test]
fn cross_is_orthogonal() {
    let a = Vector::new(1, 2, 3);
    let b = Vector::new(4, 5, 6);
    let mut c = a;
    c.cross(&b);
    assert_eq!((c.x, c.y, c.z), (-3, 6, -3));
    assert_eq!(c.dot(&a), 0);
    assert_eq!(c.dot(&b), 0);
}

#[test]
fn right_handed_cross() {
    let mut z = Vector::new(0, 0, 1);
    z.cross(&Vector::new(1, 0, 0));
    assert_eq!((z.x, z.y, z.z), (0, 1, 0));
}

#[test]
fn dot_product() {
    assert_eq!(Vector::new(1, -2, 3).dot(&Vector::new(4, 5, -6)), -24);
}

#[test]
fn coordinates_saturate() {
    let v = Vector::new(i64::MAX, i64::MIN, 5);
    assert_eq!((v.x, v.y, v.z), (LIMIT, -LIMIT, 5));
    assert_eq!(v.magnitude(), true_length(&v));
    let mut w = Vector::new(LIMIT, 1, 0);
    w.add(&Vector::new(LIMIT, 1, 0));
    assert_eq!((w.x, w.y), (LIMIT, 2));
}

#[test]
fn integer_helpers() {
    assert_eq!(floor_sqrt(0), 0);
    assert_eq!(floor_sqrt(15), 3);
    assert_eq!(floor_sqrt(16), 4);
    assert_eq!(floor_div(-7, 2), -4);
    assert_eq!(floor_div(7, 2), 3);
    assert_eq!(floor_div(-8, 2), -4);
}
