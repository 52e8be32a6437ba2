use vstd::prelude::*;

verus! {

/// One grey sample: 0 is black, 255 is white.
#[derive(Clone, Copy, Debug)]
pub struct Pixel {
    pub colour: u8,
}

impl Pixel {
    pub fn white() -> (r: Pixel)
        ensures
            r.colour == 255,
    {
        Pixel { colour: 255 }
    }

    pub fn black() -> (r: Pixel)
        ensures
            r.colour == 0,
    {
        Pixel { colour: 0 }
    }
}

/// A grid of grey samples, `height` rows of `width` pixels, addressed as
/// `(row, column)`.
pub struct Canvas {
    pub data: Vec<Vec<Pixel>>,
    pub width: usize,
    pub height: usize,
}

impl View for Canvas {
    type V = Seq<Seq<u8>>;

    open spec fn view(&self) -> Seq<Seq<u8>> {
        self.data@.map_values(|row: Vec<Pixel>| row@.map_values(|p: Pixel| p.colour))
    }
}

impl Canvas {
    /// Every row holds `width` pixels and there are `height` rows.
    pub open spec fn wf(&self) -> bool {
        &&& self.data@.len() == self.height
        &&& forall|i: int| 0 <= i < self.height ==> #[trigger] self.data@[i]@.len() == self.width
    }

    /// Whether `(x, y)` names a pixel.
    pub open spec fn contains(&self, x: int, y: int) -> bool {
        0 <= x < self.data@.len() && 0 <= y < self.data@[x]@.len()
    }

    /// A white canvas of the given size.
    pub fn new(width: usize, height: usize) -> (r: Canvas)
        ensures
            r.wf(),
            r.width == width,
            r.height == height,
            forall|i: int, j: int| 0 <= i < height && 0 <= j < width ==> r@[i][j] == 255,
    {
        let mut data: Vec<Vec<Pixel>> = Vec::with_capacity(height);
        let mut i: usize = 0;
        while i < height
            invariant
                i <= height,
                data@.len() == i,
                forall|k: int| 0 <= k < i ==> #[trigger] data@[k]@.len() == width,
                forall|k: int, j: int| 0 <= k < i && 0 <= j < width ==> (#[trigger] data@[k]@[j]).colour == 255,
            decreases height - i,
        {
            let mut row: Vec<Pixel> = Vec::with_capacity(width);
            let mut j: usize = 0;
            while j < width
                invariant
                    j <= width,
                    row@.len() == j,
                    forall|k: int| 0 <= k < j ==> (#[trigger] row@[k]).colour == 255,
                decreases width - j,
            {
                row.push(Pixel::white());
                j = j + 1;
            }
            data.push(row);
            i = i + 1;
        }
        Canvas { width, height, data }
    }

    /// The pixel at `(x, y)`, or `None` outside the canvas.
    pub fn get(&self, x: usize, y: usize) -> (r: Option<&Pixel>)
        ensures
            r.is_some() == self.contains(x as int, y as int),
            r.is_some() ==> r.unwrap().colour == self@[x as int][y as int],
    {
        if x < self.data.len() && y < self.data[x].len() {
            Some(&self.data[x][y])
        } else {
            None
        }
    }

    /// The pixel at `(x, y)` for writing, or `None` outside the canvas.
    pub fn get_mut(&mut self, x: usize, y: usize) -> (r: Option<&mut Pixel>)
        ensures
            r.is_some() == old(self).contains(x as int, y as int),
            r.is_none() ==> *final(self) == *old(self),
            r.is_some() ==> r.unwrap().colour == old(self)@[x as int][y as int],
    {
        if x < self.data.len() && y < self.data[x].len() {
            Some(&mut self.data[x][y])
        } else {
            None
        }
    }

    /// Sets the pixel at `(x, y)`; returns whether `(x, y)` names a pixel.
    /// Outside the canvas nothing changes.
    pub fn ink(&mut self, x: usize, y: usize, intensity: u8) -> (r: bool)
        ensures
            r == old(self).contains(x as int, y as int),
            final(self).width == old(self).width,
            final(self).height == old(self).height,
            final(self).data@.len() == old(self).data@.len(),
            forall|i: int| 0 <= i < old(self).data@.len() ==>
                (#[trigger] final(self).data@[i])@.len() == old(self).data@[i]@.len(),
            final(self)@ == if r {
                old(self)@.update(x as int, old(self)@[x as int].update(y as int, intensity))
            } else {
                old(self)@
            },
    {
        if x < self.data.len() && y < self.data[x].len() {
            let mut row = self.data.remove(x);
            row.set(y, Pixel { colour: intensity });
            self.data.insert(x, row);
            assert(self.data@ =~= old(self).data@.update(x as int, row));
            assert(row@.map_values(|p: Pixel| p.colour) =~= old(self)@[x as int].update(
                y as int,
                intensity,
            ));
            assert(self@ =~= old(self)@.update(x as int, old(self)@[x as int].update(y as int, intensity)));
            true
        } else {
            false
        }
    }
}

} // verus!
