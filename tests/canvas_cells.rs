use raytracer::canvas::{Canvas, Pixel};

#[test]
fn pixels() {
    assert_eq!(Pixel::white().colour, 255);
    assert_eq!(Pixel::black().colour, 0);
}

#[test]
fn new_canvas_is_white() {
    let c = Canvas::new(3, 2);
    assert_eq!((c.width, c.height), (3, 2));
    for x in 0..2 {
        for y in 0..3 {
            assert_eq!(c.get(x, y).unwrap().colour, 255);
        }
    }
    assert!(c.get(2, 0).is_none());
    assert!(c.get(0, 3).is_none());
}

#[test]
fn empty_canvas() {
    let c = Canvas::new(0, 0);
    assert!(c.get(0, 0).is_none());
}

#[test]
fn ink_sets_one_pixel() {
    let mut c = Canvas::new(3, 2);
    assert!(c.ink(1, 2, 7));
    assert_eq!(c.get(1, 2).unwrap().colour, 7);
    assert_eq!(c.get(0, 2).unwrap().colour, 255);
    assert!(!c.ink(2, 0, 9));
    assert!(!c.ink(0, 3, 9));
}

#[test]
fn get_mut_writes_through() {
    let mut c = Canvas::new(2, 2);
    c.get_mut(1, 1).unwrap().colour = 3;
    assert_eq!(c.get(1, 1).unwrap().colour, 3);
    assert!(c.get_mut(2, 0).is_none());
}
