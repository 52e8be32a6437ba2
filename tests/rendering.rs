use raytracer::geometry::Sphere;
use raytracer::render::{Camera, Light, Scene};
use raytracer::vector::Vector;

fn shadow_scene(with_blocker: bool) -> Scene {
    let camera = Camera::new(10000, 10000, 10, 10);
    let mut scene = Scene::new(camera);
    scene.add_object(Sphere::new(Vector::new(5000, 5000, 5000), 2000));
    if with_blocker {
        scene.add_object(Sphere::new(Vector::new(5000, 5000, 2000), 500));
    }
    scene.add_light(Light::new(Vector::new(5000, 5000, 1000), 1));
    scene
}

#[test]
fn lit_point_gets_falloff() {
    let canvas = shadow_scene(false).raytrace();
    assert_eq!(canvas.get(5, 5).unwrap().colour, 205);
}

#[test]
fn blocked_point_is_dark() {
    let canvas = shadow_scene(true).raytrace();
    assert_eq!(canvas.get(5, 5).unwrap().colour, 0);
}

#[test]
fn background_stays_white() {
    let canvas = shadow_scene(false).raytrace();
    assert_eq!((canvas.width, canvas.height), (10, 10));
    assert_eq!(canvas.get(0, 0).unwrap().colour, 255);
    assert_eq!(canvas.get(9, 9).unwrap().colour, 255);
}

#[test]
fn no_light_means_black_hits() {
    let mut scene = Scene::new(Camera::new(10000, 10000, 10, 10));
    scene.add_object(Sphere::new(Vector::new(5000, 5000, 5000), 2000));
    let canvas = scene.raytrace();
    assert_eq!(canvas.get(5, 5).unwrap().colour, 0);
    assert_eq!(canvas.get(0, 0).unwrap().colour, 255);
}

#[test]
fn last_light_decides() {
    let mut scene = Scene::new(Camera::new(10000, 10000, 10, 10));
    scene.add_object(Sphere::new(Vector::new(5000, 5000, 5000), 2000));
    scene.add_light(Light::new(Vector::new(5000, 5000, 1000), 1));
    scene.add_light(Light::new(Vector::new(5000, 5000, -3000), 1));
    let canvas = scene.raytrace();
    assert_eq!(canvas.get(5, 5).unwrap().colour, 105);
}

#[test]
fn far_light_gives_zero() {
    let mut scene = Scene::new(Camera::new(10000, 10000, 10, 10));
    scene.add_object(Sphere::new(Vector::new(5000, 5000, 5000), 2000));
    scene.add_light(Light::new(Vector::new(5000, 5000, -20000), 1));
    let canvas = scene.raytrace();
    assert_eq!(canvas.get(5, 5).unwrap().colour, 0);
}

#[test]
fn first_sphere_in_list_order_wins() {
    let mut scene = Scene::new(Camera::new(10000, 10000, 10, 10));
    scene.add_object(Sphere::new(Vector::new(5000, 5000, 8000), 1000));
    scene.add_object(Sphere::new(Vector::new(5000, 5000, 3000), 1000));
    scene.add_light(Light::new(Vector::new(5000, 5000, 0), 1));
    let canvas = scene.raytrace();
    // The farther sphere was added first, so its surface at z = 7 is shaded,
    // and the nearer sphere lies between it and the light.
    assert_eq!(canvas.get(5, 5).unwrap().colour, 0);
}

#[test]
fn silhouette_matches_disk_area() {
    let mut scene = Scene::new(Camera::new(20000, 20000, 40, 40));
    scene.add_object(Sphere::new(Vector::new(10000, 10000, 10000), 5000));
    let canvas = scene.raytrace();
    let mut count = 0;
    for x in 0..40 {
        for y in 0..40 {
            if canvas.get(x, y).unwrap().colour != 255 {
                count += 1;
            }
        }
    }
    let disk = std::f64::consts::PI * 10.0 * 10.0;
    assert!((count as f64 - disk).abs() <= 0.05 * disk, "count {}", count);
}

#[test]
fn rendering_twice_is_identical() {
    let scene = shadow_scene(true);
    let a = scene.raytrace();
    let b = scene.raytrace();
    for x in 0..10 {
        for y in 0..10 {
            assert_eq!(a.get(x, y).unwrap().colour, b.get(x, y).unwrap().colour);
        }
    }
}

#[test]
fn camera_builders() {
    let mut camera = Camera::new(1, 2, 3, 4);
    camera.with_pos(5, 6);
    assert_eq!(camera.plane_z.z, 1000);
    assert_eq!(camera.plane_x.x, 1000);
    camera.with_plane_z(Vector::new(0, 0, -1000));
    camera.with_plane_x(Vector::new(0, 1000, 0));
    assert_eq!(camera.pos, (5, 6));
    assert_eq!(camera.plane_z.z, -1000);
    assert_eq!(camera.plane_x.y, 1000);
    assert_eq!((camera.width, camera.height, camera.pixels_width, camera.pixels_height), (1, 2, 3, 4));
}

#[test]
fn rotated_basis_keeps_the_image_plane() {
    // Looking along -x with columns along z: the image plane is x = 0 and
    // rows run along (-x) cross z = +y.
    let mut camera = Camera::new(10000, 10000, 10, 10);
    camera.with_plane_z(Vector::new(-1000, 0, 0));
    camera.with_plane_x(Vector::new(0, 0, 1000));
    let mut scene = Scene::new(camera);
    scene.add_object(Sphere::new(Vector::new(-5000, 5000, 5000), 2000));
    let canvas = scene.raytrace();
    assert_eq!(canvas.get(5, 5).unwrap().colour, 0);
    assert_eq!(canvas.get(0, 0).unwrap().colour, 255);
}
