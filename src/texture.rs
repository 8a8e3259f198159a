use vstd::prelude::*;

verus! {

/// A decoded image held as rows of pixels, each pixel `bytes_per_pixel`
/// bytes of which the first three are red, green and blue.
pub struct ImageTexture {
    data: Vec<u8>,
    width: usize,
    height: usize,
    bytes_per_pixel: usize,
    bytes_per_scanline: usize,
}

/// Where the pixel in column `i` and row `j` starts, after both are clamped
/// to the image.
pub open spec fn texel_offset(width: int, height: int, bpp: int, i: int, j: int) -> int {
    let ci = if i < width - 1 { i } else { width - 1 };
    let cj = if j < height - 1 { j } else { height - 1 };
    cj * (width * bpp) + ci * bpp
}

impl ImageTexture {
    /// The row stride is the width times the pixel size, and fits.
    #[verifier::type_invariant]
    spec fn stride_fits(&self) -> bool {
        &&& self.width * self.bytes_per_pixel <= usize::MAX
        &&& self.bytes_per_scanline == self.width * self.bytes_per_pixel
    }

    pub closed spec fn spec_data(&self) -> Seq<u8> {
        self.data@
    }

    pub closed spec fn spec_width(&self) -> usize {
        self.width
    }

    pub closed spec fn spec_height(&self) -> usize {
        self.height
    }

    pub closed spec fn spec_bytes_per_pixel(&self) -> usize {
        self.bytes_per_pixel
    }

    pub closed spec fn spec_bytes_per_scanline(&self) -> usize {
        self.bytes_per_scanline
    }

    /// The image can be sampled: it has a pixel, each pixel has the three
    /// color bytes, and the buffer holds every row.
    pub open spec fn can_sample(&self) -> bool {
        &&& self.spec_width() >= 1
        &&& self.spec_height() >= 1
        &&& self.spec_bytes_per_pixel() >= 3
        &&& self.spec_height() * self.spec_bytes_per_scanline() <= self.spec_data().len()
    }

    pub fn new(data: Vec<u8>, width: usize, height: usize, bytes_per_pixel: usize) -> (r: ImageTexture)
        requires
            width * bytes_per_pixel <= usize::MAX,
        ensures
            r.spec_data() == data@,
            r.spec_width() == width,
            r.spec_height() == height,
            r.spec_bytes_per_pixel() == bytes_per_pixel,
            r.spec_bytes_per_scanline() == width * bytes_per_pixel,
    {
        ImageTexture { data, width, height, bytes_per_pixel, bytes_per_scanline: width * bytes_per_pixel }
    }

    #[verifier::when_used_as_spec(spec_width)]
    pub fn width(&self) -> (r: usize)
        ensures
            r == self.spec_width(),
    {
        self.width
    }

    #[verifier::when_used_as_spec(spec_height)]
    pub fn height(&self) -> (r: usize)
        ensures
            r == self.spec_height(),
    {
        self.height
    }

    /// Whether `texel` may be called on this image.
    pub fn is_sampleable(&self) -> (r: bool)
        ensures
            r == self.can_sample(),
    {
        if self.width == 0 || self.height == 0 || self.bytes_per_pixel < 3 {
            return false;
        }
        let len = self.data.len();
        match self.height.checked_mul(self.bytes_per_scanline) {
            Some(total) => total <= len,
            None => {
                proof {
                    assert(self.spec_height() * self.spec_bytes_per_scanline() > usize::MAX);
                }
                false
            },
        }
    }

    /// The red, green and blue bytes of the pixel in column `i` and row `j`,
    /// counted from the top left; a column or row past the image's edge
    /// reads the last one.
    pub fn texel(&self, i: usize, j: usize) -> (r: (u8, u8, u8))
        requires
            self.can_sample(),
        ensures
            ({
                let off = texel_offset(
                    self.spec_width() as int,
                    self.spec_height() as int,
                    self.spec_bytes_per_pixel() as int,
                    i as int,
                    j as int,
                );
                r == (self.spec_data()[off], self.spec_data()[off + 1], self.spec_data()[off + 2])
            }),
    {
        proof {
            use_type_invariant(self);
        }
        let len = self.data.len();
        let i = if i < self.width - 1 { i } else { self.width - 1 };
        let j = if j < self.height - 1 { j } else { self.height - 1 };
        let ghost w = self.width as int;
        let ghost h = self.height as int;
        let ghost bpp = self.bytes_per_pixel as int;
        let ghost row = self.bytes_per_scanline as int;
        proof {
            assert(j * row <= (h - 1) * row) by (nonlinear_arith)
                requires
                    0 <= j <= h - 1,
                    0 <= row,
            ;
            assert(i * bpp <= (w - 1) * bpp) by (nonlinear_arith)
                requires
                    0 <= i <= w - 1,
                    0 <= bpp,
            ;
            assert((h - 1) * row + row == h * row) by (nonlinear_arith);
            assert((w - 1) * bpp + bpp == w * bpp) by (nonlinear_arith);
            assert(h * row <= len);
        }
        let index = j * self.bytes_per_scanline + i * self.bytes_per_pixel;
        (self.data[index], self.data[index + 1], self.data[index + 2])
    }
}

} // verus!
