//! The image value: a decoded raster with width, height, channels-per-pixel
//! and a dense row-major pixel array, each pixel an ordered run of bytes.

use vstd::prelude::*;

use crate::Error;
use crate::ErrorKind;

verus! {

/// The mathematical model of an [`Image`]: dimensions together with the
/// row-major sequence of pixels, each pixel a sequence of channel bytes.
#[verifier::ext_equal]
pub struct ImageView {
    pub width: int,
    pub height: int,
    pub channels_per_pixel: int,
    pub pixels: Seq<Seq<u8>>,
}

impl ImageView {
    /// Well-formedness: positive width, a channel count that fits one byte,
    /// exactly `width * height` pixels, and every pixel carrying exactly
    /// `channels_per_pixel` bytes.
    pub open spec fn wf(self) -> bool {
        &&& 0 < self.width <= u32::MAX
        &&& 0 <= self.height <= u32::MAX
        &&& 1 <= self.channels_per_pixel <= 255
        &&& self.pixels.len() == self.width * self.height
        &&& forall|i: int|
            0 <= i < self.pixels.len() ==> (#[trigger] self.pixels[i]).len()
                == self.channels_per_pixel
    }

    /// The pixel at column `x`, row `y` of the row-major array.
    pub open spec fn pixel(self, x: int, y: int) -> Seq<u8> {
        self.pixels[y * self.width + x]
    }
}

/// The image an [`Image::from`] call constructs from a byte buffer: the
/// trailing partial pixel and partial row of the buffer are truncated away.
pub open spec fn from_bytes_view(buf: Seq<u8>, width: int, channels_per_pixel: int) -> ImageView {
    let height = (buf.len() as int / channels_per_pixel) / width;
    ImageView {
        width,
        height,
        channels_per_pixel,
        pixels: Seq::new(
            (width * height) as nat,
            |i: int| buf.subrange(i * channels_per_pixel, i * channels_per_pixel + channels_per_pixel),
        ),
    }
}

/// The image an [`Image::from_rgb`] call constructs from RGB triples.
pub open spec fn from_rgb_view(raw_pixels: Seq<(u8, u8, u8)>, width: int) -> ImageView {
    let height = raw_pixels.len() as int / width;
    ImageView {
        width,
        height,
        channels_per_pixel: 3,
        pixels: Seq::new(
            (width * height) as nat,
            |i: int| seq![raw_pixels[i].0, raw_pixels[i].1, raw_pixels[i].2],
        ),
    }
}

/// The image an [`Image::from_rgba`] call constructs from RGBA quadruples.
pub open spec fn from_rgba_view(raw_pixels: Seq<(u8, u8, u8, u8)>, width: int) -> ImageView {
    let height = raw_pixels.len() as int / width;
    ImageView {
        width,
        height,
        channels_per_pixel: 4,
        pixels: Seq::new(
            (width * height) as nat,
            |i: int| seq![raw_pixels[i].0, raw_pixels[i].1, raw_pixels[i].2, raw_pixels[i].3],
        ),
    }
}

/// Struct keeping data of a multi-channel image.
#[derive(Debug, PartialEq, Eq)]
pub struct Image {
    width: u32,
    height: u32,
    channels_per_pixel: u8,
    pixels: Vec<Vec<u8>>,
}

impl View for Image {
    type V = ImageView;

    closed spec fn view(&self) -> ImageView {
        ImageView {
            width: self.width as int,
            height: self.height as int,
            channels_per_pixel: self.channels_per_pixel as int,
            pixels: Seq::new(self.pixels@.len(), |i: int| self.pixels@[i]@),
        }
    }
}

impl Image {
    /// Create an image from a byte buffer holding `channels_per_pixel` bytes
    /// per pixel in row-major order. Bytes beyond the last whole row are
    /// dropped, so `height == (buf.len() / channels) / width`. Fails with
    /// `InvalidInput` when the buffer is empty or either parameter is zero.
    pub fn from(raw_image: &[u8], width: u32, channels_per_pixel: u8) -> (r: Result<Image, Error>)
        requires
            raw_image@.len() <= u32::MAX,
        ensures
            match r {
                Ok(img) => {
                    &&& raw_image@.len() > 0 && width > 0 && channels_per_pixel > 0
                    &&& img@ == from_bytes_view(raw_image@, width as int, channels_per_pixel as int)
                    &&& img@.wf()
                },
                Err(e) => {
                    &&& raw_image@.len() == 0 || width == 0 || channels_per_pixel == 0
                    &&& e == Error::invalid_input()
                },
            },
    {
        if raw_image.len() == 0 || width == 0 || channels_per_pixel == 0 {
            return Err(Error { kind: ErrorKind::InvalidInput, stage: None, side: None });
        }
        let len: usize = raw_image.len();
        let num_pixels: usize = len / (channels_per_pixel as usize);
        assert(num_pixels <= len) by (nonlinear_arith)
            requires num_pixels == len as int / (channels_per_pixel as int), len >= 0, channels_per_pixel >= 1;
        let height_us: usize = num_pixels / (width as usize);
        assert(height_us <= num_pixels) by (nonlinear_arith)
            requires height_us == num_pixels as int / (width as int), num_pixels >= 0, width >= 1;
        let height: u32 = height_us as u32;
        assert((width as int) * (height as int) * (channels_per_pixel as int) <= len)
            by (nonlinear_arith)
            requires
                height as int == num_pixels as int / (width as int),
                num_pixels == len as int / (channels_per_pixel as int),
                width >= 1,
                channels_per_pixel >= 1,
                len >= 0;
        assert((width as int) * (height as int) <= len) by (nonlinear_arith)
            requires
                (width as int) * (height as int) * (channels_per_pixel as int) <= len,
                width as int * height as int >= 0,
                channels_per_pixel >= 1;
        let kept: usize = (width as usize) * (height as usize);

        let ghost v = from_bytes_view(raw_image@, width as int, channels_per_pixel as int);
        assert(v.height == height as int);
        assert(v.pixels.len() == kept as int);

        let mut pixels: Vec<Vec<u8>> = Vec::new();
        let mut i: usize = 0;
        while i < kept
            invariant
                i <= kept,
                pixels@.len() == i,
                forall|j: int| 0 <= j < i ==> (#[trigger] pixels@[j])@ == v.pixels[j],
            decreases kept - i,
        {
            assert(kept * (channels_per_pixel as int) <= len) by (nonlinear_arith)
                requires
                    kept == (width as int) * (height as int),
                    (width as int) * (height as int) * (channels_per_pixel as int) <= len;
            assert(i * (channels_per_pixel as int) + channels_per_pixel <= len)
                by (nonlinear_arith)
                requires
                    i < kept,
                    channels_per_pixel >= 1,
                    kept * (channels_per_pixel as int) <= len;
            let base: usize = i * (channels_per_pixel as usize);
            let mut pixel: Vec<u8> = Vec::new();
            let mut j: usize = 0;
            while j < channels_per_pixel as usize
                invariant
                    j <= channels_per_pixel as usize,
                    base + channels_per_pixel <= len,
                    pixel@.len() == j,
                    forall|c: int| 0 <= c < j ==> pixel@[c] == raw_image@[base + c],
                decreases channels_per_pixel as usize - j,
            {
                pixel.push(raw_image[base + j]);
                j = j + 1;
            }
            assert(pixel@ =~= v.pixels[i as int]);
            pixels.push(pixel);
            i = i + 1;
        }

        let img = Image { width, height, channels_per_pixel, pixels };
        assert(img@.pixels =~= v.pixels);
        assert(img@ =~= v);
        proof { lemma_from_bytes_wf(raw_image@, width as int, channels_per_pixel as int); }
        Ok(img)
    }

    /// Create an image from an array of RGB triples laid out in row-major
    /// order; `height == raw_pixels.len() / width`, trailing partial rows
    /// are dropped.
    pub fn from_rgb(raw_pixels: &[(u8, u8, u8)], width: u32) -> (r: Result<Image, Error>)
        requires
            width > 0,
            raw_pixels@.len() <= u32::MAX,
        ensures
            r matches Ok(img) && img@ == from_rgb_view(raw_pixels@, width as int),
            r matches Ok(img) && img@.wf(),
    {
        let height_us: usize = raw_pixels.len() / (width as usize);
        assert(height_us <= raw_pixels@.len()) by (nonlinear_arith)
            requires height_us == raw_pixels@.len() as int / (width as int), raw_pixels@.len() >= 0, width >= 1;
        let height: u32 = height_us as u32;
        assert((width as int) * (height as int) <= raw_pixels@.len()) by (nonlinear_arith)
            requires
                height as int == raw_pixels@.len() as int / (width as int),
                width >= 1,
                raw_pixels@.len() >= 0;
        let kept: usize = (width as usize) * (height_us);
        let ghost v = from_rgb_view(raw_pixels@, width as int);

        let mut pixels: Vec<Vec<u8>> = Vec::new();
        let mut i: usize = 0;
        while i < kept
            invariant
                i <= kept,
                pixels@.len() == i,
                forall|j: int| 0 <= j < i ==> (#[trigger] pixels@[j])@ == v.pixels[j],
            decreases kept - i,
        {
            let (red, green, blue) = raw_pixels[i];
            let mut pixel: Vec<u8> = Vec::new();
            pixel.push(red);
            pixel.push(green);
            pixel.push(blue);
            assert(pixel@ =~= v.pixels[i as int]);
            pixels.push(pixel);
            i = i + 1;
        }

        let img = Image { width, height, channels_per_pixel: 3, pixels };
        assert(img@.pixels =~= v.pixels);
        assert(img@ =~= v);
        Ok(img)
    }

    /// Create an image from an array of RGBA quadruples laid out in
    /// row-major order; `height == raw_pixels.len() / width`.
    pub fn from_rgba(raw_pixels: &[(u8, u8, u8, u8)], width: u32) -> (r: Result<Image, Error>)
        requires
            width > 0,
            raw_pixels@.len() <= u32::MAX,
        ensures
            r matches Ok(img) && img@ == from_rgba_view(raw_pixels@, width as int),
            r matches Ok(img) && img@.wf(),
    {
        let height_us: usize = raw_pixels.len() / (width as usize);
        assert(height_us <= raw_pixels@.len()) by (nonlinear_arith)
            requires height_us == raw_pixels@.len() as int / (width as int), raw_pixels@.len() >= 0, width >= 1;
        let height: u32 = height_us as u32;
        assert((width as int) * (height as int) <= raw_pixels@.len()) by (nonlinear_arith)
            requires
                height as int == raw_pixels@.len() as int / (width as int),
                width >= 1,
                raw_pixels@.len() >= 0;
        let kept: usize = (width as usize) * (height_us);
        let ghost v = from_rgba_view(raw_pixels@, width as int);

        let mut pixels: Vec<Vec<u8>> = Vec::new();
        let mut i: usize = 0;
        while i < kept
            invariant
                i <= kept,
                pixels@.len() == i,
                forall|j: int| 0 <= j < i ==> (#[trigger] pixels@[j])@ == v.pixels[j],
            decreases kept - i,
        {
            let (red, green, blue, alpha) = raw_pixels[i];
            let mut pixel: Vec<u8> = Vec::new();
            pixel.push(red);
            pixel.push(green);
            pixel.push(blue);
            pixel.push(alpha);
            assert(pixel@ =~= v.pixels[i as int]);
            pixels.push(pixel);
            i = i + 1;
        }

        let img = Image { width, height, channels_per_pixel: 4, pixels };
        assert(img@.pixels =~= v.pixels);
        assert(img@ =~= v);
        Ok(img)
    }

    /// Assemble an image directly from its parts; crate-internal, used by
    /// the rescaler to build its output.
    pub(crate) fn from_parts(width: u32, height: u32, channels_per_pixel: u8, pixels: Vec<Vec<u8>>) -> (r: Image)
        requires
            width > 0,
            channels_per_pixel > 0,
            pixels@.len() == (width as int) * (height as int),
            forall|i: int| 0 <= i < pixels@.len() ==> (#[trigger] pixels@[i])@.len() == channels_per_pixel as int,
        ensures
            r@ == (ImageView {
                width: width as int,
                height: height as int,
                channels_per_pixel: channels_per_pixel as int,
                pixels: Seq::new(pixels@.len(), |i: int| pixels@[i]@),
            }),
            r@.wf(),
    {
        Image { width, height, channels_per_pixel, pixels }
    }

    pub fn get_width(&self) -> (w: u32)
        ensures
            w as int == self@.width,
    {
        self.width
    }

    pub fn get_height(&self) -> (h: u32)
        ensures
            h as int == self@.height,
    {
        self.height
    }

    pub fn get_channels_per_pixel(&self) -> (c: u8)
        ensures
            c as int == self@.channels_per_pixel,
    {
        self.channels_per_pixel
    }

    /// The channel bytes of the pixel at column `x`, row `y`. Out-of-range
    /// coordinates are a programmer error, ruled out by the precondition.
    pub fn get_pixel(&self, x: u32, y: u32) -> (p: &Vec<u8>)
        requires
            self@.wf(),
            x < self@.width,
            y < self@.height,
        ensures
            p@ == self@.pixel(x as int, y as int),
    {
        let n: usize = self.pixels.len();
        proof {
            assert((y as int) * self@.width + x < self@.width * self@.height) by (nonlinear_arith)
                requires 0 <= x < self@.width, 0 <= y < self@.height;
            assert(n == self@.width * self@.height);
        }
        let index: usize = (y as usize) * (self.width as usize) + (x as usize);
        &self.pixels[index]
    }
}

impl Image {
    /// The actual pixel vectors of the image, in row-major order; used by
    /// [`Image::apply`]'s contract to relate each new pixel to the function
    /// value that produced it.
    pub closed spec fn pixel_vecs(&self) -> Seq<Vec<u8>> {
        self.pixels@
    }

    /// Apply a function on each pixel of the image, in row-major order,
    /// replacing each pixel with the function's result. The function must
    /// produce pixels of one uniform non-zero length (at most 255 bytes);
    /// the image's channel count is updated to that length.
    pub fn apply<F: Fn(Vec<u8>) -> Vec<u8>>(&mut self, f: F)
        requires
            old(self)@.wf(),
            forall|p: Vec<u8>|
                p@.len() == old(self)@.channels_per_pixel ==> call_requires(f, (p,)),
            forall|p: Vec<u8>, r: Vec<u8>|
                #[trigger] call_ensures(f, (p,), r) ==> 1 <= r@.len() <= 255,
            forall|p1: Vec<u8>, r1: Vec<u8>, p2: Vec<u8>, r2: Vec<u8>|
                #[trigger] call_ensures(f, (p1,), r1) && #[trigger] call_ensures(f, (p2,), r2)
                    ==> r1@.len() == r2@.len(),
        ensures
            final(self)@.wf(),
            final(self)@.width == old(self)@.width,
            final(self)@.height == old(self)@.height,
            final(self)@.pixels.len() == old(self)@.pixels.len(),
            forall|i: int|
                0 <= i < old(self)@.pixels.len() ==> call_ensures(
                    f,
                    (old(self).pixel_vecs()[i],),
                    #[trigger] final(self).pixel_vecs()[i],
                ),
            forall|i: int|
                0 <= i < old(self)@.pixels.len() ==> (#[trigger] old(self).pixel_vecs()[i])@
                    == old(self)@.pixels[i],
            forall|i: int|
                0 <= i < old(self)@.pixels.len() ==> (#[trigger] final(self).pixel_vecs()[i])@
                    == final(self)@.pixels[i],
            old(self)@.pixels.len() == 0 ==> final(self)@ == old(self)@,
            old(self)@.pixels.len() > 0 ==> final(self)@.channels_per_pixel
                == final(self)@.pixels[0].len(),
    {
        let ghost orig = self.pixels@;
        let n: usize = self.pixels.len();

        // First pass: drain the pixels from the back, applying `f`;
        // `reversed` receives the results in reverse row-major order.
        let mut reversed: Vec<Vec<u8>> = Vec::new();
        let mut i: usize = n;
        while i > 0
            invariant
                i <= n,
                self.pixels@.len() == i,
                reversed@.len() == n - i,
                self.pixels@ == orig.subrange(0, i as int),
                self.width == old(self).width,
                self.height == old(self).height,
                self.channels_per_pixel == old(self).channels_per_pixel,
                forall|j: int|
                    0 <= j < n - i ==> call_ensures(
                        f,
                        (orig[n - 1 - j],),
                        #[trigger] reversed@[j],
                    ),
            decreases i,
        {
            let ghost prev = self.pixels@;
            let p = self.pixels.pop().unwrap();
            proof {
                assert(p == orig[i - 1]);
                assert(self.pixels@ =~= orig.subrange(0, i - 1));
                assert(p@ == old(self)@.pixels[i - 1]);
            }
            let r = f(p);
            reversed.push(r);
            i = i - 1;
        }

        // Second pass: drain `reversed` from the back, restoring row-major
        // order in place.
        while reversed.len() > 0
            invariant
                reversed@.len() <= n,
                self.pixels@.len() == n - reversed@.len(),
                self.width == old(self).width,
                self.height == old(self).height,
                self.channels_per_pixel == old(self).channels_per_pixel,
                forall|j: int|
                    0 <= j < reversed@.len() ==> call_ensures(
                        f,
                        (orig[n - 1 - j],),
                        #[trigger] reversed@[j],
                    ),
                forall|j: int|
                    0 <= j < self.pixels@.len() ==> call_ensures(
                        f,
                        (orig[j],),
                        #[trigger] self.pixels@[j],
                    ),
            decreases reversed@.len(),
        {
            let ghost m = reversed@.len();
            let r = reversed.pop().unwrap();
            proof {
                assert(call_ensures(f, (orig[n - m as int],), r));
                assert(self.pixels@.len() == n - m as int);
            }
            self.pixels.push(r);
        }

        proof {
            assert forall|j: int| 0 <= j < n implies 1
                <= (#[trigger] self.pixels@[j])@.len() <= 255 by {
                assert(call_ensures(f, (orig[j],), self.pixels@[j]));
            }
        }
        if n > 0 {
            let first_len: usize = self.pixels[0].len();
            assert(1 <= first_len <= 255) by {
                assert(call_ensures(f, (orig[0],), self.pixels@[0]));
            }
            self.channels_per_pixel = first_len as u8;
            assert forall|j: int| 0 <= j < n implies (#[trigger] self.pixels@[j])@.len()
                == first_len as int by {
                assert(call_ensures(f, (orig[0],), self.pixels@[0]));
                assert(call_ensures(f, (orig[j],), self.pixels@[j]));
            }
        }
        assert(self@.pixels.len() == old(self)@.pixels.len());
        if n == 0 {
            assert(self@.pixels =~= old(self)@.pixels);
            assert(self@ =~= old(self)@);
        }
    }
}

impl Clone for Image {
    /// A structural deep copy; the copy has the same mathematical view.
    fn clone(&self) -> (res: Image)
        ensures
            res@ == self@,
    {
        let mut pixels: Vec<Vec<u8>> = Vec::new();
        let mut i: usize = 0;
        let n: usize = self.pixels.len();
        while i < n
            invariant
                i <= n,
                pixels@.len() == i,
                forall|j: int| 0 <= j < i ==> (#[trigger] pixels@[j])@ == self.pixels@[j]@,
            decreases n - i,
        {
            let pixel = copy_pixel(&self.pixels[i]);
            pixels.push(pixel);
            i = i + 1;
        }
        let res = Image {
            width: self.width,
            height: self.height,
            channels_per_pixel: self.channels_per_pixel,
            pixels,
        };
        assert(res@.pixels =~= self@.pixels);
        assert(res@ =~= self@);
        res
    }
}

/// A byte-for-byte copy of one pixel's channel run.
pub(crate) fn copy_pixel(pixel: &Vec<u8>) -> (res: Vec<u8>)
    ensures
        res@ == pixel@,
{
    let mut res: Vec<u8> = Vec::new();
    let mut i: usize = 0;
    let n: usize = pixel.len();
    while i < n
        invariant
            i <= n,
            res@.len() == i,
            forall|j: int| 0 <= j < i ==> res@[j] == pixel@[j],
        decreases n - i,
    {
        res.push(pixel[i]);
        i = i + 1;
    }
    assert(res@ =~= pixel@);
    res
}

/// An image built from a byte buffer keeps exactly
/// `width * (len / (channels * width))` pixels — the whole rows of the
/// buffer — and every pixel carries exactly `channels_per_pixel` bytes.
pub proof fn lemma_from_bytes_pixel_count(buf: Seq<u8>, width: int, channels_per_pixel: int)
    requires
        0 < buf.len() <= u32::MAX,
        0 < width <= u32::MAX,
        1 <= channels_per_pixel <= 255,
    ensures
        from_bytes_view(buf, width, channels_per_pixel).pixels.len() == width * (buf.len() as int
            / (channels_per_pixel * width)),
        forall|i: int|
            0 <= i < from_bytes_view(buf, width, channels_per_pixel).pixels.len()
                ==> #[trigger] from_bytes_view(buf, width, channels_per_pixel).pixels[i].len()
                == channels_per_pixel,
{
    lemma_from_bytes_wf(buf, width, channels_per_pixel);
    vstd::arithmetic::div_mod::lemma_div_denominator(buf.len() as int, channels_per_pixel, width);
}

/// An image built by `Image::from` satisfies the well-formedness invariant.
proof fn lemma_from_bytes_wf(buf: Seq<u8>, width: int, channels_per_pixel: int)
    requires
        0 < buf.len() <= u32::MAX,
        0 < width <= u32::MAX,
        1 <= channels_per_pixel <= 255,
    ensures
        from_bytes_view(buf, width, channels_per_pixel).wf(),
{
    let v = from_bytes_view(buf, width, channels_per_pixel);
    assert(0 <= v.height <= u32::MAX) by (nonlinear_arith)
        requires
            v.height == (buf.len() as int / channels_per_pixel) / width,
            0 < buf.len() <= u32::MAX,
            0 < width,
            0 < channels_per_pixel;
    assert forall|i: int| 0 <= i < v.pixels.len() implies (#[trigger] v.pixels[i]).len()
        == channels_per_pixel by {
        lemma_pixel_slice_in_bounds(buf.len() as int, width, channels_per_pixel, i);
    }
}

/// Pixel `i` of a truncated buffer lies wholly inside the buffer.
proof fn lemma_pixel_slice_in_bounds(len: int, width: int, channels_per_pixel: int, i: int)
    by (nonlinear_arith)
    requires
        0 < width,
        0 < channels_per_pixel,
        0 <= i < width * ((len / channels_per_pixel) / width),
    ensures
        0 <= i * channels_per_pixel,
        i * channels_per_pixel + channels_per_pixel <= len,
{
}

} // verus!
