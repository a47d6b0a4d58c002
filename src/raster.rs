use vstd::prelude::*;

verus! {

/// One 24-bit colour.
#[derive(Clone, Copy, PartialEq, Eq, Structural)]
pub struct Pixel {
    pub red: u8,
    pub green: u8,
    pub blue: u8,
}

impl Pixel {
    pub fn black() -> (p: Self)
        ensures
            p.red == 0 && p.green == 0 && p.blue == 0,
    {
        Self { red: 0, green: 0, blue: 0 }
    }
}

/// A grid of pixels stored row by row, top row first. The height is the
/// number of complete rows that `pixels` holds.
pub struct Raster {
    pub pixels: Vec<Pixel>,
    pub width: usize,
}

impl Raster {
    pub open spec fn height_spec(&self) -> nat {
        if self.width == 0 {
            0
        } else {
            self.pixels@.len() / (self.width as nat)
        }
    }

    /// The pixels fill complete rows, nothing left over.
    pub open spec fn wf(&self) -> bool {
        self.pixels@.len() == self.width * self.height_spec()
    }

    /// The pixel in column `x` of row `y`.
    pub open spec fn pixel_at(&self, x: int, y: int) -> Pixel {
        self.pixels@[y * self.width + x]
    }

    pub fn width(&self) -> (w: usize)
        ensures
            w == self.width,
    {
        self.width
    }

    pub fn height(&self) -> (h: usize)
        ensures
            h == self.height_spec(),
    {
        if self.width == 0 {
            0
        } else {
            self.pixels.len() / self.width
        }
    }

    pub fn get_pixel(&self, x: usize, y: usize) -> (p: Pixel)
        requires
            x < self.width,
            y < self.height_spec(),
        ensures
            p == self.pixel_at(x as int, y as int),
    {
        let n = self.pixels.len();
        proof {
            lemma_in_rows(n as int, self.width as int, x as int, y as int);
        }
        let i = y * self.width + x;
        self.pixels[i]
    }

    pub fn set_pixel(&mut self, x: usize, y: usize, pixel: Pixel)
        requires
            x < old(self).width,
            y < old(self).height_spec(),
        ensures
            final(self).width == old(self).width,
            final(self).pixels@ == old(self).pixels@.update(y * old(self).width + x, pixel),
    {
        let n = self.pixels.len();
        proof {
            lemma_in_rows(n as int, self.width as int, x as int, y as int);
        }
        let i = y * self.width + x;
        self.pixels.set(i, pixel);
    }

    /// A `width x height` raster of one colour.
    pub fn solid(color: Pixel, width: usize, height: usize) -> (r: Self)
        requires
            width * height <= usize::MAX,
        ensures
            r.wf(),
            r.width == width,
            r.pixels@.len() == width * height,
            width > 0 ==> r.height_spec() == height,
            forall|i: int| 0 <= i < r.pixels@.len() ==> #[trigger] r.pixels@[i] == color,
    {
        let size = width * height;
        let mut pixels: Vec<Pixel> = Vec::with_capacity(size);
        let mut k: usize = 0;
        while k < size
            invariant
                k <= size,
                pixels@.len() == k,
                forall|i: int| 0 <= i < k ==> #[trigger] pixels@[i] == color,
            decreases size - k,
        {
            pixels.push(color);
            k = k + 1;
        }
        proof {
            if width > 0 {
                vstd::arithmetic::div_mod::lemma_div_multiples_vanish(height as int, width as int);
                assert(size as int / width as int == height);
            }
        }
        Self { pixels, width }
    }
}

/// A cell of one of the complete rows of a buffer of `len` elements cut into
/// rows of `width` lies inside the buffer.
proof fn lemma_in_rows(len: int, width: int, x: int, y: int)
    requires
        0 <= x < width,
        0 <= y < len / width,
        0 <= len,
    ensures
        0 <= y * width + x < len,
{
    vstd::arithmetic::div_mod::lemma_fundamental_div_mod(len, width);
    assert(0 <= y * width + x < len) by (nonlinear_arith)
        requires
            0 <= x < width,
            0 <= y < len / width,
            len == width * (len / width) + len % width,
            0 <= len % width,
    ;
}

} // verus!
