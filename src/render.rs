use vstd::prelude::*;
use crate::canvas::Canvas;
use crate::geometry::{Ray, Sphere, diff, hits, isqrt};
use crate::vector::{Vector, lemma_floor_sqrt_unique, UNIT, clamp, clamp3, clamp_coord, cross_of, floor_div, norm_sq_of};

verus! {

/// Shadow-ray hits nearer than this to their origin are the lit surface itself.
pub const EPSILON: u64 = 4;

/// A point light.
#[derive(Clone, Copy, Debug)]
pub struct Light {
    pub position: Vector,
    pub intensity: i64,
}

impl Light {
    pub fn new(position: Vector, intensity: i64) -> (r: Light)
        ensures
            r.position == position,
            r.intensity == intensity,
    {
        Light { position, intensity }
    }
}

/// Euclidean length of `v`, rounded down.
pub open spec fn norm_of(v: (int, int, int)) -> int {
    isqrt(norm_sq_of(v.0, v.1, v.2))
}

/// Brightness lent by a light at `distance`: 255 less 25 for each whole
/// scene unit, never below 0.
pub open spec fn falloff(distance: int) -> int {
    let v = 255 - 25 * (distance / (UNIT as int));
    if v < 0 {
        0
    } else {
        v
    }
}

/// Whether a hit `h` on a shadow ray from `o` lies between the surface and
/// a light `light_distance` away.
pub open spec fn in_gap(h: (int, int, int), o: (int, int, int), light_distance: int) -> bool {
    let d = norm_of(diff(h, o));
    EPSILON < d && d < light_distance
}

/// Whether some sphere meets the ray from `o` along `d` between `o` and
/// `light_distance`.
pub open spec fn blocked_by(objects: Seq<Sphere>, o: (int, int, int), d: (int, int, int), light_distance: int) -> bool {
    exists|i: int, j: int|
        0 <= i < objects.len() && 0 <= j < hits(objects[i], o, d).len()
            && #[trigger] in_gap(hits(objects[i], o, d)[j], o, light_distance)
}

/// Brightness at `p` from a light at `l`: 0 in shadow, else the falloff.
pub open spec fn light_value(objects: Seq<Sphere>, p: (int, int, int), l: (int, int, int)) -> int {
    let dir = diff(l, p);
    if blocked_by(objects, p, dir, norm_of(dir)) {
        0
    } else {
        falloff(norm_of(dir))
    }
}

/// Nearest hit on the first sphere, from index `i` on, that the ray meets.
pub open spec fn first_hit_from(objects: Seq<Sphere>, i: int, o: (int, int, int), d: (int, int, int)) -> Option<(int, int, int)>
    decreases objects.len() - i,
{
    if i < 0 || i >= objects.len() {
        None
    } else if hits(objects[i], o, d).len() > 0 {
        Some(hits(objects[i], o, d)[0])
    } else {
        first_hit_from(objects, i + 1, o, d)
    }
}

pub open spec fn spheres_wf(objects: Seq<Sphere>) -> bool {
    forall|i: int| 0 <= i < objects.len() ==> (#[trigger] objects[i]).wf()
}

pub open spec fn lights_wf(lights: Seq<Light>) -> bool {
    forall|i: int| 0 <= i < lights.len() ==> (#[trigger] lights[i]).position.wf()
}

/// `v * f / UNIT` on each coordinate, rounded down and saturated: `v`
/// scaled by the fixed-point factor `f`.
pub open spec fn scaled(v: (int, int, int), f: int) -> (int, int, int) {
    clamp3((v.0 * f / UNIT as int, v.1 * f / UNIT as int, v.2 * f / UNIT as int))
}

fn falloff_exec(distance: u64) -> (r: u8)
    ensures
        r as int == falloff(distance as int),
{
    let units = distance / (UNIT as u64);
    if units >= 11 {
        0
    } else {
        (255 - 25 * units) as u8
    }
}

/// An orthographic camera: every primary ray runs along `plane_z`, from a
/// point on the plane spanned by `plane_x` and `plane_z x plane_x`. The basis
/// vectors are fixed-point directions of length `UNIT`, one scene unit.
pub struct Camera {
    pub plane_z: Vector,
    pub plane_x: Vector,
    /// Stored offset of the image plane; the ray origins do not use it.
    pub pos: (i64, i64),
    pub width: i64,
    pub height: i64,
    pub pixels_width: usize,
    pub pixels_height: usize,
}

impl Camera {
    pub open spec fn wf(&self) -> bool {
        self.plane_z.wf() && self.plane_x.wf()
    }

    /// `plane_z x plane_x`, brought back to fixed point.
    pub open spec fn plane_y(&self) -> (int, int, int) {
        scaled(clamp3(cross_of(self.plane_z.coords(), self.plane_x.coords())), 1)
    }

    /// Image-plane extent of one pixel column, rounded down.
    pub open spec fn width_step(&self) -> int {
        if self.pixels_width == 0 {
            0
        } else {
            self.width as int / self.pixels_width as int
        }
    }

    /// Image-plane extent of one pixel row, rounded down.
    pub open spec fn height_step(&self) -> int {
        if self.pixels_height == 0 {
            0
        } else {
            self.height as int / self.pixels_height as int
        }
    }

    /// Origin of the primary ray of pixel `(col, row)`.
    pub open spec fn ray_origin(&self, col: int, row: int) -> (int, int, int) {
        let ox = scaled(self.plane_x.coords(), clamp(col * self.width_step()));
        let oy = scaled(self.plane_y(), clamp(row * self.height_step()));
        clamp3((ox.0 + oy.0, ox.1 + oy.1, ox.2 + oy.2))
    }

    /// Brightness of pixel `(col, row)`: white where the primary ray meets
    /// nothing; else what the last light gives at the first hit, 0 with no light.
    pub open spec fn pixel_value(&self, objects: Seq<Sphere>, lights: Seq<Light>, col: int, row: int) -> int {
        match first_hit_from(objects, 0, self.ray_origin(col, row), self.plane_z.coords()) {
            None => 255,
            Some(p) => if lights.len() == 0 {
                0
            } else {
                light_value(objects, p, lights.last().position.coords())
            },
        }
    }

    /// A camera looking along `z`, rows along `y`, columns along `x`.
    pub fn new(width: i64, height: i64, pixels_width: usize, pixels_height: usize) -> (r: Camera)
        ensures
            r.wf(),
            r.plane_z.coords() == (0int, 0int, UNIT as int),
            r.plane_x.coords() == (UNIT as int, 0int, 0int),
            r.pos == (0i64, 0i64),
            r.width == width,
            r.height == height,
            r.pixels_width == pixels_width,
            r.pixels_height == pixels_height,
    {
        let default_z = Vector::new(0, 0, UNIT);
        let default_x = Vector::new(UNIT, 0, 0);
        Camera {
            plane_z: default_z,
            plane_x: default_x,
            pos: (0, 0),
            width,
            height,
            pixels_width,
            pixels_height,
        }
    }

    pub fn with_pos(&mut self, x: i64, y: i64)
        ensures
            *final(self) == (Camera { pos: (x, y), ..*old(self) }),
    {
        self.pos = (x, y);
    }

    pub fn with_plane_z(&mut self, vec: Vector)
        ensures
            *final(self) == (Camera { plane_z: vec, ..*old(self) }),
    {
        self.plane_z = vec;
    }

    pub fn with_plane_x(&mut self, vec: Vector)
        ensures
            *final(self) == (Camera { plane_x: vec, ..*old(self) }),
    {
        self.plane_x = vec;
    }

    /// Shadow test: 0 where a sphere meets `ray` between its origin and
    /// `light_distance`, else the falloff for that distance.
    fn cast_ray(ray: &Ray, light_distance: u64, objects: &Vec<Sphere>) -> (r: u8)
        requires
            ray.wf(),
            spheres_wf(objects@),
        ensures
            r as int == if blocked_by(objects@, ray.origin.coords(), ray.direction.coords(), light_distance as int) {
                0
            } else {
                falloff(light_distance as int)
            },
    {
        let ghost o = ray.origin.coords();
        let ghost d = ray.direction.coords();
        let mut i: usize = 0;
        while i < objects.len()
            invariant
                i <= objects@.len(),
                ray.wf(),
                spheres_wf(objects@),
                o == ray.origin.coords(),
                d == ray.direction.coords(),
                forall|k: int, j: int|
                    0 <= k < i && 0 <= j < hits(objects@[k], o, d).len()
                        ==> !#[trigger] in_gap(hits(objects@[k], o, d)[j], o, light_distance as int),
            decreases objects@.len() - i,
        {
            let collisions = objects[i].collides_with(ray);
            let mut j: usize = 0;
            while j < collisions.len()
                invariant
                    i < objects@.len(),
                    j <= collisions@.len(),
                    ray.wf(),
                    o == ray.origin.coords(),
                    d == ray.direction.coords(),
                    collisions@.len() == hits(objects@[i as int], o, d).len(),
                    forall|k: int| 0 <= k < collisions@.len() ==> (#[trigger] collisions@[k]).wf()
                        && collisions@[k].coords() == hits(objects@[i as int], o, d)[k],
                    forall|k: int| 0 <= k < j
                        ==> !#[trigger] in_gap(hits(objects@[i as int], o, d)[k], o, light_distance as int),
                decreases collisions@.len() - j,
            {
                let mut h = collisions[j];
                h.minus(&ray.origin);
                let dist = h.magnitude();
                proof {
                    lemma_floor_sqrt_unique(dist as int, norm_of(diff(hits(objects@[i as int], o, d)[j as int], o)), h.norm_sq());
                }
                if dist > EPSILON && dist < light_distance {
                    assert(in_gap(hits(objects@[i as int], o, d)[j as int], o, light_distance as int));
                    assert(blocked_by(objects@, o, d, light_distance as int));
                    return 0;
                }
                j = j + 1;
            }
            i = i + 1;
        }
        falloff_exec(light_distance)
    }

    /// What the light `light` gives at the point `p`.
    fn shade(objects: &Vec<Sphere>, p: &Vector, light: &Light) -> (r: u8)
        requires
            p.wf(),
            light.position.wf(),
            spheres_wf(objects@),
        ensures
            r as int == light_value(objects@, p.coords(), light.position.coords()),
    {
        let mut dir = light.position;
        dir.minus(p);
        let light_distance = dir.magnitude();
        proof {
            lemma_floor_sqrt_unique(light_distance as int, norm_of(dir.coords()), dir.norm_sq());
        }
        let ray = Ray::new(*p, dir);
        Camera::cast_ray(&ray, light_distance, objects)
    }
    /// Brightness of pixel `(col, row)`, given the derived basis vector and steps.
    fn trace_pixel(
        &self,
        objects: &Vec<Sphere>,
        lights: &Vec<Light>,
        plane_y: &Vector,
        width_step: i128,
        height_step: i128,
        col: usize,
        row: usize,
    ) -> (r: u8)
        requires
            self.wf(),
            spheres_wf(objects@),
            lights_wf(lights@),
            plane_y.wf(),
            plane_y.coords() == self.plane_y(),
            width_step == self.width_step(),
            height_step == self.height_step(),
            -0x8000_0000_0000_0000 <= width_step <= 0x8000_0000_0000_0000,
            -0x8000_0000_0000_0000 <= height_step <= 0x8000_0000_0000_0000,
        ensures
            r as int == self.pixel_value(objects@, lights@, col as int, row as int),
    {
        proof {
            lemma_step_product(col as int, width_step as int);
            lemma_step_product(row as int, height_step as int);
        }
        let mut offset_x = self.plane_x;
        offset_x.mult(clamp_coord(col as i128 * width_step));
        let mut offset_y = *plane_y;
        offset_y.mult(clamp_coord(row as i128 * height_step));
        let mut origin = Vector::new(0, 0, 0);
        origin.add(&offset_x);
        origin.add(&offset_y);
        let ray = Ray::new(origin, self.plane_z);
        let ghost o = origin.coords();
        let ghost d = self.plane_z.coords();
        assert(o == self.ray_origin(col as int, row as int));
        let mut i: usize = 0;
        while i < objects.len()
            invariant
                i <= objects@.len(),
                ray.wf(),
                ray.origin.coords() == o,
                ray.direction.coords() == d,
                spheres_wf(objects@),
                lights_wf(lights@),
                first_hit_from(objects@, 0, o, d) == first_hit_from(objects@, i as int, o, d),
                o == self.ray_origin(col as int, row as int),
                d == self.plane_z.coords(),
            decreases objects@.len() - i,
        {
            let collisions = objects[i].collides_with(&ray);
            if collisions.len() > 0 {
                let p = collisions[0];
                assert(first_hit_from(objects@, i as int, o, d) == Some(p.coords()));
                let mut intensity: u8 = 0;
                let mut k: usize = 0;
                while k < lights.len()
                    invariant
                        k <= lights@.len(),
                        p.wf(),
                        first_hit_from(objects@, 0, o, d) == Some(p.coords()),
                        o == self.ray_origin(col as int, row as int),
                        d == self.plane_z.coords(),
                        spheres_wf(objects@),
                        lights_wf(lights@),
                        intensity as int == if k == 0 {
                            0
                        } else {
                            light_value(objects@, p.coords(), lights@[k - 1].position.coords())
                        },
                    decreases lights@.len() - k,
                {
                    intensity = Camera::shade(objects, &p, &lights[k]);
                    k = k + 1;
                }
                assert(lights@.len() > 0 ==> lights@[lights@.len() - 1] == lights@.last());
                return intensity;
            }
            i = i + 1;
        }
        255
    }

    /// Renders the spheres under the lights onto a fresh canvas, one pixel
    /// per `(col, row)`, stored at row `row`, column `col`.
    pub fn raytrace(&self, objects: &Vec<Sphere>, lights: &Vec<Light>) -> (r: Canvas)
        requires
            self.wf(),
            spheres_wf(objects@),
            lights_wf(lights@),
        ensures
            r.wf(),
            r.width == self.pixels_width,
            r.height == self.pixels_height,
            forall|row: int, col: int|
                0 <= row < self.pixels_height && 0 <= col < self.pixels_width
                    ==> #[trigger] r@[row][col] == self.pixel_value(objects@, lights@, col, row),
    {
        let mut canvas = Canvas::new(self.pixels_width, self.pixels_height);
        let mut plane_y = self.plane_z;
        plane_y.cross(&self.plane_x);
        // The product of two fixed-point vectors carries `UNIT` twice.
        plane_y.mult(1);
        let width_step: i128 = if self.pixels_width == 0 {
            0
        } else {
            floor_div(self.width as i128, self.pixels_width as i128)
        };
        let height_step: i128 = if self.pixels_height == 0 {
            0
        } else {
            floor_div(self.height as i128, self.pixels_height as i128)
        };
        proof {
            lemma_step_bound(self.width as int, self.pixels_width as int);
            lemma_step_bound(self.height as int, self.pixels_height as int);
        }
        let w = self.pixels_width;
        let h = self.pixels_height;
        let mut row: usize = 0;
        while row < h
            invariant
                row <= h,
                w == self.pixels_width,
                h == self.pixels_height,
                canvas.wf(),
                canvas.width == w,
                canvas.height == h,
                self.wf(),
                spheres_wf(objects@),
                lights_wf(lights@),
                plane_y.wf(),
                plane_y.coords() == self.plane_y(),
                width_step == self.width_step(),
                height_step == self.height_step(),
                -0x8000_0000_0000_0000 <= width_step <= 0x8000_0000_0000_0000,
                -0x8000_0000_0000_0000 <= height_step <= 0x8000_0000_0000_0000,
                forall|i: int, j: int| 0 <= i < h && 0 <= j < w ==> #[trigger] canvas@[i][j] == if i < row {
                    self.pixel_value(objects@, lights@, j, i)
                } else {
                    255
                },
            decreases h - row,
        {
            let mut col: usize = 0;
            while col < w
                invariant
                    row < h,
                    col <= w,
                    w == self.pixels_width,
                    h == self.pixels_height,
                    canvas.wf(),
                    canvas.width == w,
                    canvas.height == h,
                    self.wf(),
                    spheres_wf(objects@),
                    lights_wf(lights@),
                    plane_y.wf(),
                    plane_y.coords() == self.plane_y(),
                    width_step == self.width_step(),
                    height_step == self.height_step(),
                    -0x8000_0000_0000_0000 <= width_step <= 0x8000_0000_0000_0000,
                    -0x8000_0000_0000_0000 <= height_step <= 0x8000_0000_0000_0000,
                    forall|i: int, j: int| 0 <= i < h && 0 <= j < w ==> #[trigger] canvas@[i][j] == if i < row || (i == row && j < col) {
                        self.pixel_value(objects@, lights@, j, i)
                    } else {
                        255
                    },
                decreases w - col,
            {
                let v = self.trace_pixel(objects, lights, &plane_y, width_step, height_step, col, row);
                canvas.ink(row, col, v);
                col = col + 1;
            }
            row = row + 1;
        }
        canvas
    }
}

/// Spheres and lights seen through one camera.
pub struct Scene {
    pub objects: Vec<Sphere>,
    pub camera: Camera,
    pub lights: Vec<Light>,
}

impl Scene {
    pub open spec fn wf(&self) -> bool {
        self.camera.wf() && spheres_wf(self.objects@) && lights_wf(self.lights@)
    }

    /// Whether `canvas` is the image of this scene: the camera's size, and
    /// each pixel as `Camera::pixel_value` gives it.
    pub open spec fn renders_as(&self, canvas: Canvas) -> bool {
        &&& canvas.wf()
        &&& canvas.width == self.camera.pixels_width
        &&& canvas.height == self.camera.pixels_height
        &&& forall|row: int, col: int|
            0 <= row < self.camera.pixels_height && 0 <= col < self.camera.pixels_width
                ==> #[trigger] canvas@[row][col] == self.camera.pixel_value(self.objects@, self.lights@, col, row)
    }

    /// An empty scene seen through `camera`.
    pub fn new(camera: Camera) -> (r: Scene)
        ensures
            r.camera == camera,
            r.objects@ == Seq::<Sphere>::empty(),
            r.lights@ == Seq::<Light>::empty(),
    {
        Scene { objects: Vec::new(), lights: Vec::new(), camera }
    }

    /// Appends a sphere.
    pub fn add_object(&mut self, o: Sphere)
        ensures
            final(self).objects@ == old(self).objects@.push(o),
            final(self).lights@ == old(self).lights@,
            final(self).camera == old(self).camera,
    {
        self.objects.push(o);
    }

    /// Appends a light.
    pub fn add_light(&mut self, l: Light)
        ensures
            final(self).lights@ == old(self).lights@.push(l),
            final(self).objects@ == old(self).objects@,
            final(self).camera == old(self).camera,
    {
        self.lights.push(l);
    }

    /// Renders the scene.
    pub fn raytrace(&self) -> (r: Canvas)
        requires
            self.wf(),
        ensures
            self.renders_as(r),
    {
        self.camera.raytrace(&self.objects, &self.lights)
    }
}

/// Rendering one scene twice gives the same canvas.
pub proof fn lemma_render_deterministic(scene: Scene, first: Canvas, second: Canvas)
    requires
        scene.renders_as(first),
        scene.renders_as(second),
    ensures
        first@ == second@,
{
    let h = scene.camera.pixels_height as int;
    assert forall|row: int| 0 <= row < h implies #[trigger] first@[row] == second@[row] by {
        assert(first@[row] =~= second@[row]) by {
            assert forall|col: int| 0 <= col < first@[row].len() implies first@[row][col] == second@[row][col] by {
                assert(first@[row][col] == scene.camera.pixel_value(scene.objects@, scene.lights@, col, row));
            }
        }
    }
    assert(first@ =~= second@);
}

proof fn lemma_step_bound(extent: int, pixels: int)
    requires
        i64::MIN <= extent <= i64::MAX,
        pixels >= 0,
    ensures
        pixels > 0 ==> -0x8000_0000_0000_0000 <= extent / pixels <= 0x8000_0000_0000_0000,
{
    if pixels > 0 {
        assert(-0x8000_0000_0000_0000 <= extent / pixels <= 0x8000_0000_0000_0000) by (nonlinear_arith)
            requires
                -0x8000_0000_0000_0000 <= extent <= 0x8000_0000_0000_0000,
                pixels > 0,
        {
            let q = extent / pixels;
            let r = extent % pixels;
            assert(extent == pixels * q + r && 0 <= r < pixels);
        }
    }
}

proof fn lemma_step_product(index: int, step: int)
    requires
        0 <= index <= usize::MAX,
        -0x8000_0000_0000_0000 <= step <= 0x8000_0000_0000_0000,
    ensures
        i128::MIN <= index * step <= i128::MAX,
{
    assert(-0x1_0000_0000_0000_0000 * 0x8000_0000_0000_0000 <= index * step
        <= 0x1_0000_0000_0000_0000 * 0x8000_0000_0000_0000 - 0x8000_0000_0000_0000) by (nonlinear_arith)
        requires
            0 <= index <= 0xffff_ffff_ffff_ffff,
            -0x8000_0000_0000_0000 <= step <= 0x8000_0000_0000_0000,
    {
    }
}

} // verus!
