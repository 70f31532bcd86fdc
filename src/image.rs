use vstd::prelude::*;

verus! {

/// Why an operation refused its input.
#[derive(Debug, Clone, Copy, PartialEq, Eq, Structural)]
pub enum PhotoError {
    /// Sizes or channel counts disagree, a sequence is empty, or a parameter
    /// lies outside its range.
    InvalidArgument,
    /// The input is well formed but carries too little information for the
    /// requested computation.
    DegenerateInput,
}

/// An 8-bit image stored row by row, the channels of one pixel side by side:
/// element `c` of the pixel at column `x` and row `y` sits at
/// `(y * width + x) * channels + c`.
#[derive(Debug, Clone)]
pub struct Image {
    pub width: usize,
    pub height: usize,
    pub channels: usize,
    pub data: Vec<u8>,
}

impl Image {
    /// One or three channels, and exactly one byte per pixel and channel.
    pub open spec fn wf(&self) -> bool {
        &&& (self.channels == 1 || self.channels == 3)
        &&& self.data@.len() == self.width * self.height * self.channels
    }

    /// Two images of one width, height and channel count.
    pub open spec fn same_shape(&self, other: &Image) -> bool {
        &&& self.width == other.width
        &&& self.height == other.height
        &&& self.channels == other.channels
    }

    /// Two images that hold the same pixels.
    pub open spec fn same_pixels(&self, other: &Image) -> bool {
        &&& self.same_shape(other)
        &&& self.data@ == other.data@
    }

    /// Builds an image from its pixels; refuses a channel count other than one
    /// or three and a buffer of the wrong length.
    pub fn new(width: usize, height: usize, channels: usize, data: Vec<u8>) -> (r: Result<
        Image,
        PhotoError,
    >)
        ensures
            (channels == 1 || channels == 3) && data@.len() == width * height * channels
                <==> r.is_ok(),
            r matches Ok(img) ==> img.wf() && img.width == width && img.height == height
                && img.channels == channels && img.data@ == data@,
            r matches Err(e) ==> e == PhotoError::InvalidArgument,
    {
        if channels != 1 && channels != 3 {
            return Err(PhotoError::InvalidArgument);
        }
        let len = data.len();
        if height != 0 && width > len / height {
            proof {
                assert(width * height > len) by (nonlinear_arith)
                    requires height > 0, width > len / height, len >= 0;
                assert(width * height * channels > len) by (nonlinear_arith)
                    requires width * height > len, channels >= 1;
            }
            return Err(PhotoError::InvalidArgument);
        }
        proof {
            if height != 0 {
                assert(width * height <= len) by (nonlinear_arith)
                    requires height > 0, width <= len / height, len >= 0;
            }
        }
        let pixels = width * height;
        if channels != 0 && pixels > len / channels {
            proof {
                assert(pixels * channels > len) by (nonlinear_arith)
                    requires channels > 0, pixels > len / channels, len >= 0;
            }
            return Err(PhotoError::InvalidArgument);
        }
        proof {
            assert(pixels * channels <= len) by (nonlinear_arith)
                requires channels > 0, pixels <= len / channels, len >= 0;
        }
        if pixels * channels != len {
            return Err(PhotoError::InvalidArgument);
        }
        Ok(Image { width, height, channels, data })
    }

    /// An image of the given size whose every byte is zero.
    pub fn zeros(width: usize, height: usize, channels: usize) -> (r: Image)
        requires
            channels == 1 || channels == 3,
            width * height * channels <= usize::MAX,
        ensures
            r.wf(),
            r.width == width && r.height == height && r.channels == channels,
            forall|i: int| 0 <= i < r.data@.len() ==> r.data@[i] == 0,
    {
        let n = width * height * channels;
        let data = vec![0u8; n];
        Image { width, height, channels, data }
    }

    /// The pixel count fits within the buffer, which holds `channels` bytes
    /// for each pixel.
    pub proof fn lemma_len(&self)
        requires
            self.wf(),
        ensures
            self.width * self.height <= self.data@.len(),
            self.data@.len() == (self.width * self.height) * self.channels,
            self.channels == 1 ==> self.data@.len() == self.width * self.height,
            self.channels == 3 ==> self.data@.len() == 3 * (self.width * self.height),
    {
        let wh = self.width * self.height;
        assert(wh <= wh * self.channels) by (nonlinear_arith)
            requires self.channels >= 1, wh >= 0;
    }

    /// Element `c` of the pixel at column `x`, row `y`.
    pub fn at(&self, x: usize, y: usize, c: usize) -> (r: u8)
        requires
            self.wf(),
            x < self.width,
            y < self.height,
            c < self.channels,
        ensures
            r == self.data@[(y * self.width + x) * self.channels + c],
    {
        let len = self.data.len();
        proof {
            crate::arith::lemma_index_in_grid(x as int, y as int, self.width as int, self.height as int);
            crate::arith::lemma_cell_in_range(
                y * self.width + x,
                c as int,
                self.width * self.height,
                self.channels as int,
            );
            let wh = self.width * self.height;
            assert(wh <= wh * self.channels) by (nonlinear_arith)
                requires self.channels >= 1, wh >= 0;
        }
        self.data[(y * self.width + x) * self.channels + c]
    }
}

} // verus!
