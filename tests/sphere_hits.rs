use raytracer::geometry::{Ray, Sphere};
use raytracer::vector::Vector;

fn coords(v: &Vector) -> (i64, i64, i64) {
    (v.x, v.y, v.z)
}

#[test]
fn two_hits_along_the_axis() {
    let s = Sphere::new(Vector::new(0, 0, 5), 1);
    let ray = Ray::new(Vector::new(0, 0, 0), Vector::new(0, 0, 1));
    let hits = s.collides_with(&ray);
    assert_eq!(hits.len(), 2);
    assert_eq!(coords(&hits[0]), (0, 0, 4));
    assert_eq!(coords(&hits[1]), (0, 0, 6));
    let mut d0 = hits[0];
    d0.minus(&ray.origin);
    let mut d1 = hits[1];
    d1.minus(&ray.origin);
    assert_eq!((d0.magnitude(), d1.magnitude()), (4, 6));
}

#[test]
fn two_hits_with_a_long_direction() {
    let s = Sphere::new(Vector::new(0, 0, 5000), 1000);
    let ray = Ray::new(Vector::new(0, 0, 0), Vector::new(0, 0, 1000));
    let hits = s.collides_with(&ray);
    assert_eq!(hits.len(), 2);
    assert_eq!(coords(&hits[0]), (0, 0, 4000));
    assert_eq!(coords(&hits[1]), (0, 0, 6000));
}

#[test]
fn sideways_ray_misses() {
    let s = Sphere::new(Vector::new(0, 0, 5), 1);
    let ray = Ray::new(Vector::new(0, 0, 0), Vector::new(1, 0, 0));
    assert_eq!(s.collides_with(&ray).len(), 0);
}

#[test]
fn ray_aimed_away_misses() {
    let s = Sphere::new(Vector::new(0, 0, 5), 1);
    let ray = Ray::new(Vector::new(0, 0, 0), Vector::new(0, 0, -1));
    assert_eq!(s.collides_with(&ray).len(), 0);
}

#[test]
fn aimed_at_centre_is_symmetric() {
    let s = Sphere::new(Vector::new(30, 40, 0), 10);
    let ray = Ray::new(Vector::new(0, 0, 0), Vector::new(30, 40, 0));
    let hits = s.collides_with(&ray);
    assert_eq!(hits.len(), 2);
    assert_eq!(coords(&hits[0]), (24, 32, 0));
    assert_eq!(coords(&hits[1]), (36, 48, 0));
    assert_eq!(hits[0].x + hits[1].x, 60);
    assert_eq!(hits[0].y + hits[1].y, 80);
}

#[test]
fn tangent_ray_touches_once() {
    let s = Sphere::new(Vector::new(0, 0, 5), 1);
    let ray = Ray::new(Vector::new(1, 0, 0), Vector::new(0, 0, 1));
    let hits = s.collides_with(&ray);
    assert_eq!(hits.len(), 1);
    assert_eq!(coords(&hits[0]), (1, 0, 5));
}

#[test]
fn origin_inside_keeps_the_forward_hit() {
    let s = Sphere::new(Vector::new(0, 0, 0), 2);
    let ray = Ray::new(Vector::new(0, 0, 0), Vector::new(1, 0, 0));
    let hits = s.collides_with(&ray);
    assert_eq!(hits.len(), 1);
    assert_eq!(coords(&hits[0]), (2, 0, 0));
}

#[test]
fn zero_direction_meets_nothing() {
    let s = Sphere::new(Vector::new(0, 0, 0), 2);
    let ray = Ray::new(Vector::new(0, 0, 0), Vector::new(0, 0, 0));
    assert_eq!(s.collides_with(&ray).len(), 0);
}

#[test]
fn radius_is_stored_as_given() {
    assert_eq!(Sphere::new(Vector::new(0, 0, 0), -3).radius, -3);
    assert_eq!(Sphere::new(Vector::new(0, 0, 0), 3).radius, 3);
}

#[test]
fn origin_just_inside_gets_one_hit() {
    let s = Sphere::new(Vector::new(512, 32, 0), 513);
    let ray = Ray::new(Vector::new(0, 0, 0), Vector::new(1000, 0, 0));
    let hits = s.collides_with(&ray);
    assert_eq!(hits.len(), 1);
    assert_eq!(coords(&hits[0]), (1024, 0, 0));
}

#[test]
fn oblique_ray_aimed_away_misses() {
    let s = Sphere::new(Vector::new(0, 0, 5), 1);
    let ray = Ray::new(Vector::new(0, 0, 0), Vector::new(3, 1, -2));
    assert_eq!(s.collides_with(&ray).len(), 0);
}

#[test]
fn shine_to_walks_along_the_ray() {
    let ray = Ray::new(Vector::new(1, 2, 3), Vector::new(1, 0, -2));
    assert_eq!(coords(&ray.shine_to(4)), (5, 2, -5));
    assert_eq!(coords(&ray.point_at_ratio(3, 2)), (2, 2, 0));
}
