//! Image transforms: box-average rescaling and grayscale reduction.

use vstd::prelude::*;

use crate::Error;
use crate::ErrorKind;
use crate::image::Image;
use crate::image::ImageView;

verus! {

/// Sum of channel `ch` over a sequence of pixels.
pub open spec fn channel_sum(pixels: Seq<Seq<u8>>, ch: int) -> int
    decreases pixels.len(),
{
    if pixels.len() == 0 {
        0
    } else {
        channel_sum(pixels.drop_last(), ch) + pixels.last()[ch]
    }
}

/// Sum of all channel bytes of one pixel.
pub open spec fn byte_sum(p: Seq<u8>) -> int
    decreases p.len(),
{
    if p.len() == 0 {
        0
    } else {
        byte_sum(p.drop_last()) + p.last()
    }
}

/// Lower edge (inclusive) of the source footprint of destination
/// coordinate `coord`: `floor(coord * src / dst)`.
pub open spec fn foot_lo(coord: int, src: int, dst: int) -> int {
    coord * src / dst
}

/// Upper edge (exclusive) of the source footprint of destination
/// coordinate `coord`: `ceil((coord + 1) * src / dst)`.
pub open spec fn foot_hi(coord: int, src: int, dst: int) -> int {
    ((coord + 1) * src + dst - 1) / dst
}

/// The pixels of `v` under the footprint of destination pixel `(x, y)`
/// when scaling to `dw` by `dh`, in column-major order over the footprint
/// (all rows of the first source column first).
pub open spec fn footprint(v: ImageView, x: int, y: int, dw: int, dh: int) -> Seq<Seq<u8>> {
    let lo_x = foot_lo(x, v.width, dw);
    let hi_x = foot_hi(x, v.width, dw);
    let lo_y = foot_lo(y, v.height, dh);
    let hi_y = foot_hi(y, v.height, dh);
    Seq::new(
        ((hi_x - lo_x) * (hi_y - lo_y)) as nat,
        |k: int| v.pixel(lo_x + k / (hi_y - lo_y), lo_y + k % (hi_y - lo_y)),
    )
}

/// The per-channel arithmetic mean of a group of pixels, floored.
pub open spec fn average_pixel(pixels: Seq<Seq<u8>>, cpp: int) -> Seq<u8> {
    Seq::new(cpp as nat, |ch: int| (channel_sum(pixels, ch) / pixels.len() as int) as u8)
}

/// The image produced by box-average scaling of `v` to `dw` by `dh`.
pub open spec fn scale_view(v: ImageView, dw: int, dh: int) -> ImageView {
    ImageView {
        width: dw,
        height: dh,
        channels_per_pixel: v.channels_per_pixel,
        pixels: Seq::new(
            (dw * dh) as nat,
            |i: int| average_pixel(footprint(v, i % dw, i / dw, dw, dh), v.channels_per_pixel),
        ),
    }
}

/// The grayscale value of one pixel: the floored mean of its channels.
pub open spec fn gray_pixel(p: Seq<u8>) -> u8 {
    (byte_sum(p) / p.len() as int) as u8
}

/// The image produced by grayscale reduction of `v`: one channel per pixel,
/// dimensions kept. An image without pixels keeps its channel count.
pub open spec fn gray_view(v: ImageView) -> ImageView {
    ImageView {
        width: v.width,
        height: v.height,
        channels_per_pixel: if v.pixels.len() == 0 {
            v.channels_per_pixel
        } else {
            1
        },
        pixels: Seq::new(v.pixels.len(), |i: int| seq![gray_pixel(v.pixels[i])]),
    }
}

/// Produce a new image of the requested dimensions by box-averaging the
/// source pixels that fall under each destination pixel's footprint. Fails
/// with `InvalidInput` when either requested dimension is zero; returns a
/// structurally equal copy when the dimensions already match.
pub fn scale_image(image: &Image, new_width: u32, new_height: u32) -> (r: Result<Image, Error>)
    requires
        image@.wf(),
        image@.height >= 1,
    ensures
        r is Err <==> new_width == 0 || new_height == 0,
        r matches Err(e) ==> e == Error::invalid_input(),
        r matches Ok(s) ==> s@ == scale_view(image@, new_width as int, new_height as int),
        r matches Ok(s) ==> s@.wf() && s@.height >= 1,
        new_width == image@.width && new_height == image@.height ==> (r matches Ok(s)
            && s@ == image@),
{
    if new_width == 0 || new_height == 0 {
        return Err(Error { kind: ErrorKind::InvalidInput, stage: None, side: None });
    }

    if new_width == image.get_width() && new_height == image.get_height() {
        proof {
            lemma_scale_identity(image@);
        }
        return Ok(image.clone());
    }

    let ghost v = image@;
    let ghost sv = scale_view(v, new_width as int, new_height as int);
    let mut new_pixels: Vec<Vec<u8>> = Vec::new();
    let mut new_y: u32 = 0;
    while new_y < new_height
        invariant
            new_y <= new_height,
            new_pixels@.len() == new_y * new_width,
            forall|j: int|
                0 <= j < new_pixels@.len() ==> (#[trigger] new_pixels@[j])@ == sv.pixels[j],
        decreases new_height - new_y,
    {
        let mut new_x: u32 = 0;
        while new_x < new_width
            invariant
                new_x <= new_width,
                new_y < new_height,
                new_pixels@.len() == new_y * new_width + new_x,
                forall|j: int|
                    0 <= j < new_pixels@.len() ==> (#[trigger] new_pixels@[j])@ == sv.pixels[j],
            decreases new_width - new_x,
        {
            let pixel = sample_pixels(image, new_x, new_y, new_width, new_height);
            proof {
                let j = new_y * new_width + new_x;
                assert(0 <= j < sv.pixels.len()) by (nonlinear_arith)
                    requires
                        j == new_y * new_width + new_x,
                        sv.pixels.len() == new_width * new_height,
                        0 <= new_x < new_width,
                        0 <= new_y < new_height;
                assert(j % (new_width as int) == new_x && j / (new_width as int) == new_y
                    && (new_y * new_width + new_x) % (new_width as int) == new_x) by {
                    vstd::arithmetic::div_mod::lemma_fundamental_div_mod_converse(
                        j,
                        new_width as int,
                        new_y as int,
                        new_x as int,
                    );
                }
                assert(sv.pixels[j] == average_pixel(
                    footprint(v, new_x as int, new_y as int, new_width as int, new_height as int),
                    v.channels_per_pixel,
                ));
                assert(pixel@ == sv.pixels[j]);
            }
            new_pixels.push(pixel);
            new_x = new_x + 1;
        }
        proof {
            assert((new_y + 1) * new_width == new_y * new_width + new_width) by (nonlinear_arith);
        }
        new_y = new_y + 1;
    }

    proof {
        assert(new_pixels@.len() == (new_width as int) * (new_height as int)) by (nonlinear_arith)
            requires new_pixels@.len() == new_height * new_width;
        assert forall|j: int| 0 <= j < new_pixels@.len()
            implies (#[trigger] new_pixels@[j])@.len() == image@.channels_per_pixel by {
            assert(new_pixels@[j]@ == sv.pixels[j]);
        }
    }
    let scaled = Image::from_parts(
        new_width,
        new_height,
        image.get_channels_per_pixel(),
        new_pixels,
    );
    assert(scaled@.pixels =~= sv.pixels);
    assert(scaled@ =~= sv);
    Ok(scaled)
}

/// The per-channel box average of the source pixels under the footprint of
/// destination pixel `(new_x, new_y)`.
fn sample_pixels(image: &Image, new_x: u32, new_y: u32, new_width: u32, new_height: u32) -> (pixel:
    Vec<u8>)
    requires
        image@.wf(),
        image@.height >= 1,
        1 <= new_width,
        1 <= new_height,
        new_x < new_width,
        new_y < new_height,
    ensures
        pixel@ == average_pixel(
            footprint(image@, new_x as int, new_y as int, new_width as int, new_height as int),
            image@.channels_per_pixel,
        ),
        pixel@.len() == image@.channels_per_pixel,
{
    proof {
        lemma_footprint_edges(new_x as int, image@.width, new_width as int);
        lemma_footprint_edges(new_y as int, image@.height, new_height as int);
    }
    let width: u64 = image.get_width() as u64;
    let height: u64 = image.get_height() as u64;
    proof {
        assert(((new_x as int) + 1) * (width as int) <= 0xffff_ffff_0000_0000) by (nonlinear_arith)
            requires 0 <= new_x <= 0xffff_ffff, 0 <= width <= 0xffff_ffff;
        assert(((new_y as int) + 1) * (height as int) <= 0xffff_ffff_0000_0000)
            by (nonlinear_arith)
            requires 0 <= new_y <= 0xffff_ffff, 0 <= height <= 0xffff_ffff;
        assert((new_x as int) * (width as int) <= ((new_x as int) + 1) * (width as int)
            && 0 <= (new_x as int) * (width as int)) by (nonlinear_arith)
            requires 0 <= new_x, 0 <= width;
        assert((new_y as int) * (height as int) <= ((new_y as int) + 1) * (height as int)
            && 0 <= (new_y as int) * (height as int)) by (nonlinear_arith)
            requires 0 <= new_y, 0 <= height;
    }
    let xs: u64 = ((new_x as u64) + 1) * width;
    let left: u64 = (new_x as u64) * width / (new_width as u64);
    let qx: u64 = xs / (new_width as u64);
    proof {
        vstd::arithmetic::div_mod::lemma_div_nonincreasing(xs as int, new_width as int);
    }
    let right: u64 = if xs % (new_width as u64) == 0 { qx } else { qx + 1 };
    let ys: u64 = ((new_y as u64) + 1) * height;
    let top: u64 = (new_y as u64) * height / (new_height as u64);
    let qy: u64 = ys / (new_height as u64);
    proof {
        vstd::arithmetic::div_mod::lemma_div_nonincreasing(ys as int, new_height as int);
    }
    let bottom: u64 = if ys % (new_height as u64) == 0 { qy } else { qy + 1 };
    proof {
        lemma_ceil_form((new_x + 1) * image@.width, new_width as int);
        lemma_ceil_form((new_y + 1) * image@.height, new_height as int);
        assert(left == foot_lo(new_x as int, image@.width, new_width as int));
        assert(right == foot_hi(new_x as int, image@.width, new_width as int));
        assert(top == foot_lo(new_y as int, image@.height, new_height as int));
        assert(bottom == foot_hi(new_y as int, image@.height, new_height as int));
    }
    let ghost fp = footprint(
        image@,
        new_x as int,
        new_y as int,
        new_width as int,
        new_height as int,
    );
    let ghost rows = bottom - top;

    let mut original_pixels: Vec<Vec<u8>> = Vec::new();
    let mut x: u64 = left;
    while x < right
        invariant
            left <= x <= right,
            original_pixels@.len() == (x - left) * rows,
            forall|k: int|
                0 <= k < original_pixels@.len() ==> (#[trigger] original_pixels@[k])@ == fp[k],
        decreases right - x,
    {
        let mut y: u64 = top;
        while y < bottom
            invariant
                top <= y <= bottom,
                x < right,
                original_pixels@.len() == (x - left) * rows + (y - top),
                forall|k: int|
                    0 <= k < original_pixels@.len() ==> (#[trigger] original_pixels@[k])@ == fp[k],
            decreases bottom - y,
        {
            let original_pixel = image.get_pixel(x as u32, y as u32);
            proof {
                let k = (x - left) * rows + (y - top);
                assert(0 <= k < fp.len()) by (nonlinear_arith)
                    requires
                        k == (x - left) * rows + (y - top),
                        fp.len() == (right - left) * rows,
                        rows == bottom - top,
                        left <= x < right,
                        top <= y < bottom;
                assert(k / rows == x - left && k % rows == y - top) by {
                    vstd::arithmetic::div_mod::lemma_fundamental_div_mod_converse(
                        k,
                        rows,
                        x - left,
                        y - top,
                    );
                }
                assert(fp[k] == image@.pixel(x as int, y as int));
            }
            original_pixels.push(crate::image::copy_pixel(original_pixel));
            y = y + 1;
        }
        proof {
            assert((x - left + 1) * rows == (x - left) * rows + rows) by (nonlinear_arith);
        }
        x = x + 1;
    }

    proof {
        assert(original_pixels@.len() == fp.len()) by (nonlinear_arith)
            requires
                original_pixels@.len() == (right - left) * rows,
                fp.len() == (right - left) * rows;
        assert(original_pixels@.len() >= 1) by (nonlinear_arith)
            requires
                original_pixels@.len() == (right - left) * rows,
                right - left >= 1,
                rows >= 1;
        assert forall|k: int| 0 <= k < original_pixels@.len()
            implies (#[trigger] original_pixels@[k])@.len() == image@.channels_per_pixel by {
            assert(original_pixels@[k]@ == fp[k]);
            let rr = rows;
            let kk = k / rr;
            assert(fp[k] == image@.pixel(left + k / rr, top + k % rr));
            vstd::arithmetic::div_mod::lemma_fundamental_div_mod(k, rr);
            vstd::arithmetic::div_mod::lemma_mod_division_less_than_divisor(k, rr);
            assert(0 <= k / rr < right - left) by (nonlinear_arith)
                requires
                    k == rr * (k / rr) + k % rr,
                    0 <= k % rr < rr,
                    0 <= k < (right - left) * rr,
                    rr >= 1;
            let px = left + k / rr;
            let py = top + k % rr;
            assert(0 <= py * image@.width + px < image@.pixels.len()) by (nonlinear_arith)
                requires
                    0 <= px < image@.width,
                    0 <= py < image@.height,
                    image@.pixels.len() == image@.width * image@.height;
        }
    }
    proof {
        assert forall|k: int| 0 <= k < original_pixels@.len()
            implies original_pixels.deep_view()[k] == fp[k] by {
            assert(original_pixels@[k].deep_view() =~= original_pixels@[k]@);
        }
        assert(original_pixels.deep_view() =~= fp);
    }
    let avg = average_pixels(&original_pixels, image.get_channels_per_pixel());
    avg
}

/// `ceil(a / d)` written with floor division: `a / d`, plus one when the
/// division has a remainder, equals `(a + d - 1) / d` for `a >= 0, d >= 1`.
proof fn lemma_ceil_form(a: int, d: int)
    requires
        a >= 0,
        d >= 1,
    ensures
        a / d + (if a % d == 0 { 0int } else { 1int }) == (a + d - 1) / d,
{
    vstd::arithmetic::div_mod::lemma_fundamental_div_mod(a, d);
    vstd::arithmetic::div_mod::lemma_mod_division_less_than_divisor(a, d);
    let q = a / d;
    let m = a % d;
    if m == 0 {
        assert((a + d - 1) / d == q) by (nonlinear_arith)
            requires a == d * q + m, m == 0, d >= 1, q >= 0;
    } else {
        assert((a + d - 1) / d == q + 1) by (nonlinear_arith)
            requires a == d * q + m, 0 < m < d, d >= 1, q >= 0;
    }
}

/// The per-channel arithmetic mean of a non-empty group of pixels that all
/// carry `cpp` channels, floored to whole bytes.
fn average_pixels(pixels: &Vec<Vec<u8>>, cpp: u8) -> (avg: Vec<u8>)
    requires
        pixels@.len() >= 1,
        cpp >= 1,
        forall|k: int| 0 <= k < pixels@.len() ==> (#[trigger] pixels@[k])@.len() == cpp as int,
    ensures
        avg@ == average_pixel(pixels.deep_view(), cpp as int),
        avg@.len() == cpp as int,
{
    let ghost dv = pixels.deep_view();
    proof {
        assert(dv.len() == pixels@.len());
        assert(forall|k: int| 0 <= k < dv.len() ==> (#[trigger] dv[k]).len() == cpp as int);
    }
    let count: usize = pixels.len();
    let mut avg: Vec<u8> = Vec::new();
    let mut ch: usize = 0;
    while ch < cpp as usize
        invariant
            ch <= cpp as usize,
            avg@.len() == ch,
            forall|c: int| 0 <= c < ch ==> avg@[c] == average_pixel(dv, cpp as int)[c],
        decreases cpp as usize - ch,
    {
        let mut sum: u128 = 0;
        let mut k: usize = 0;
        while k < count
            invariant
                k <= count,
                ch < cpp as usize,
                sum == channel_sum(dv.subrange(0, k as int), ch as int),
                sum <= 255 * k,
            decreases count - k,
        {
            proof {
                assert(dv.subrange(0, k + 1).drop_last() =~= dv.subrange(0, k as int));
                assert(dv.subrange(0, k + 1).last() == dv[k as int]);
                assert(dv[k as int] == pixels@[k as int]@);
            }
            let p: &Vec<u8> = &pixels[k];
            sum = sum + (p[ch] as u128);
            k = k + 1;
        }
        proof {
            assert(dv.subrange(0, count as int) =~= dv);
        }
        let value: u128 = sum / (count as u128);
        proof {
            assert(value <= 255) by (nonlinear_arith)
                requires
                    value == sum as int / (count as int),
                    sum <= 255 * count,
                    count >= 1,
                    sum >= 0;
            assert(value == average_pixel(dv, cpp as int)[ch as int]);
        }
        avg.push(value as u8);
        ch = ch + 1;
    }
    assert(avg@ =~= average_pixel(dv, cpp as int));
    avg
}

/// Collapse a multi-channel image to a single channel: each output pixel
/// holds the floored arithmetic mean of the input pixel's channels.
/// Dimensions and pixel count are preserved.
pub fn into_grayscale(image: Image) -> (r: Image)
    requires
        image@.wf(),
    ensures
        r@ == gray_view(image@),
        r@.wf(),
        r@.width == image@.width,
        r@.height == image@.height,
        r@.height >= 1 ==> r@.channels_per_pixel == 1,
{
    let ghost v = image@;
    let mut image = image;
    let average_channels = |pixel: Vec<u8>| -> (res: Vec<u8>)
        requires
            1 <= pixel@.len() <= 255,
        ensures
            res@ == seq![gray_pixel(pixel@)],
        {
            let n: usize = pixel.len();
            let mut sum: u32 = 0;
            let mut k: usize = 0;
            while k < n
                invariant
                    k <= n,
                    n == pixel@.len() <= 255,
                    sum == byte_sum(pixel@.subrange(0, k as int)),
                    sum <= 255 * k,
                decreases n - k,
            {
                proof {
                    assert(pixel@.subrange(0, k + 1).drop_last() =~= pixel@.subrange(0, k as int));
                }
                sum = sum + (pixel[k] as u32);
                k = k + 1;
            }
            proof {
                assert(pixel@.subrange(0, n as int) =~= pixel@);
            }
            let average: u32 = sum / (n as u32);
            proof {
                assert(average <= 255) by (nonlinear_arith)
                    requires
                        average == sum as int / (n as int),
                        sum <= 255 * n,
                        n >= 1,
                        sum >= 0;
            }
            let mut res: Vec<u8> = Vec::new();
            res.push(average as u8);
            proof {
                assert(res@ =~= seq![gray_pixel(pixel@)]);
            }
            res
        };
    proof {
        assert forall|p: Vec<u8>| p@.len() == v.channels_per_pixel
            implies call_requires(average_channels, (p,)) by {}
    }
    let ghost pre_vecs = image.pixel_vecs();
    image.apply(average_channels);
    proof {
        let g = gray_view(v);
        assert forall|i: int| 0 <= i < v.pixels.len() implies image@.pixels[i] == g.pixels[i] by {
            assert(call_ensures(average_channels, (pre_vecs[i],), image.pixel_vecs()[i]));
            assert(pre_vecs[i]@ == v.pixels[i]);
            assert(image.pixel_vecs()[i]@ == image@.pixels[i]);
        }
        assert(image@.pixels =~= g.pixels);
        if v.pixels.len() > 0 {
            assert(image@.pixels[0] == g.pixels[0]);
            assert(image@.channels_per_pixel == 1);
        }
        assert(image@ =~= g);
        if v.height >= 1 {
            assert(v.pixels.len() >= 1) by (nonlinear_arith)
                requires
                    v.pixels.len() == v.width * v.height,
                    v.width >= 1,
                    v.height >= 1;
        }
    }
    image
}

/// Grayscale reduction is idempotent: reducing an already single-channel
/// grayscale image changes nothing.
pub proof fn lemma_grayscale_idempotent(v: ImageView)
    requires
        v.wf(),
    ensures
        gray_view(gray_view(v)) == gray_view(v),
{
    let g = gray_view(v);
    let gg = gray_view(g);
    assert(gg.pixels.len() == g.pixels.len());
    assert forall|i: int| 0 <= i < g.pixels.len() implies gg.pixels[i] == g.pixels[i] by {
        let p = g.pixels[i];
        assert(p == seq![gray_pixel(v.pixels[i])]);
        assert(p.len() == 1);
        assert(byte_sum(p) == byte_sum(p.drop_last()) + p.last());
        assert(p.drop_last().len() == 0);
        assert(byte_sum(p) == p[0]);
        assert(gray_pixel(p) == (p[0] as int / 1int) as u8);
        assert(gray_pixel(p) == p[0]);
        assert(gg.pixels[i] =~= p);
    }
    assert(gg.pixels =~= g.pixels);
    assert(gg =~= g);
}

/// The source footprint of a destination pixel is a non-empty rectangle
/// that lies inside the source dimension.
pub proof fn lemma_footprint_edges(coord: int, src: int, dst: int)
    requires
        0 <= coord < dst,
        1 <= src,
        1 <= dst,
    ensures
        0 <= foot_lo(coord, src, dst),
        foot_lo(coord, src, dst) < foot_hi(coord, src, dst),
        foot_hi(coord, src, dst) <= src,
{
    let xs = coord * src;
    let ys = (coord + 1) * src + dst - 1;
    let lo = foot_lo(coord, src, dst);
    let hi = foot_hi(coord, src, dst);
    vstd::arithmetic::div_mod::lemma_fundamental_div_mod(xs, dst);
    vstd::arithmetic::div_mod::lemma_fundamental_div_mod(ys, dst);
    vstd::arithmetic::div_mod::lemma_mod_division_less_than_divisor(xs, dst);
    vstd::arithmetic::div_mod::lemma_mod_division_less_than_divisor(ys, dst);
    let m1 = xs % dst;
    let m2 = ys % dst;
    assert(xs >= 0) by (nonlinear_arith)
        requires xs == coord * src, coord >= 0, src >= 1;
    assert(lo >= 0) by (nonlinear_arith)
        requires xs == dst * lo + m1, 0 <= m1 < dst, xs >= 0, dst >= 1;
    assert(ys - xs == src + dst - 1) by (nonlinear_arith)
        requires xs == coord * src, ys == (coord + 1) * src + dst - 1;
    assert(dst * (hi - lo) >= src) by (nonlinear_arith)
        requires
            xs == dst * lo + m1,
            ys == dst * hi + m2,
            0 <= m1 < dst,
            0 <= m2 < dst,
            ys - xs == src + dst - 1;
    assert(hi > lo) by (nonlinear_arith)
        requires dst * (hi - lo) >= src, src >= 1, dst >= 1;
    assert(ys <= dst * src + dst - 1) by (nonlinear_arith)
        requires coord + 1 <= dst, src >= 1, ys == (coord + 1) * src + dst - 1;
    assert(hi <= src) by (nonlinear_arith)
        requires
            ys == dst * hi + m2,
            0 <= m2 < dst,
            ys <= dst * src + dst - 1,
            dst >= 1;
}

/// Scaling an image to its own dimensions reproduces it exactly: each
/// footprint collapses to the single source pixel, whose average is itself.
pub proof fn lemma_scale_identity(v: ImageView)
    requires
        v.wf(),
    ensures
        scale_view(v, v.width, v.height) == v,
{
    let w = v.width;
    let h = v.height;
    let s = scale_view(v, w, h);
    assert(s.pixels.len() == v.pixels.len());
    assert forall|i: int| 0 <= i < v.pixels.len() implies s.pixels[i] == v.pixels[i] by {
        let x = i % w;
        let y = i / w;
        vstd::arithmetic::div_mod::lemma_fundamental_div_mod(i, w);
        vstd::arithmetic::div_mod::lemma_mod_division_less_than_divisor(i, w);
        assert(0 <= y < h) by (nonlinear_arith)
            requires i == w * y + x, 0 <= x < w, 0 <= i < w * h, w >= 1;
        lemma_one_pixel_footprint(v, x, y);
        let fp = footprint(v, x, y, w, h);
        assert(fp.len() == 1);
        assert(fp[0] == v.pixel(x, y));
        let p = v.pixels[y * w + x];
        assert(0 <= y * w + x < v.pixels.len()) by (nonlinear_arith)
            requires i == w * y + x, 0 <= i < v.pixels.len();
        assert(p.len() == v.channels_per_pixel);
        assert forall|ch: int| 0 <= ch < p.len() implies average_pixel(fp, v.channels_per_pixel)[ch]
            == p[ch] by {
            assert(channel_sum(fp, ch) == channel_sum(fp.drop_last(), ch) + fp.last()[ch]);
            assert(fp.drop_last().len() == 0);
            assert(channel_sum(fp, ch) == p[ch]);
            assert(p[ch] as int / 1int == p[ch]);
        }
        assert(average_pixel(fp, v.channels_per_pixel) =~= p);
        assert(y * w + x == i) by (nonlinear_arith)
            requires i == w * y + x;
    }
    assert(s.pixels =~= v.pixels);
    assert(s =~= v);
}

/// When an image is scaled to its own dimensions, the footprint of each
/// destination pixel is exactly its own source pixel.
proof fn lemma_one_pixel_footprint(v: ImageView, x: int, y: int)
    requires
        v.wf(),
        0 <= x < v.width,
        0 <= y < v.height,
    ensures
        footprint(v, x, y, v.width, v.height) =~= seq![v.pixel(x, y)],
{
    lemma_exact_edges(x, v.width);
    lemma_exact_edges(y, v.height);
    let fp = footprint(v, x, y, v.width, v.height);
    assert(fp.len() == 1) by (nonlinear_arith)
        requires
            fp.len() == (foot_hi(x, v.width, v.width) - foot_lo(x, v.width, v.width)) * (foot_hi(
                y,
                v.height,
                v.height,
            ) - foot_lo(y, v.height, v.height)),
            foot_lo(x, v.width, v.width) == x,
            foot_hi(x, v.width, v.width) == x + 1,
            foot_lo(y, v.height, v.height) == y,
            foot_hi(y, v.height, v.height) == y + 1;
    assert(fp[0] == v.pixel(x + 0int / 1int, y + 0int % 1int));
    assert(0int / 1int == 0 && 0int % 1int == 0);
}

/// With equal source and destination size the footprint edges of
/// coordinate `c` are `c` and `c + 1`.
proof fn lemma_exact_edges(c: int, d: int)
    requires
        0 <= c < d,
        1 <= d,
    ensures
        foot_lo(c, d, d) == c,
        foot_hi(c, d, d) == c + 1,
{
    assert(c * d / d == c) by (nonlinear_arith)
        requires d >= 1;
    assert(((c + 1) * d + d - 1) / d == c + 1) by (nonlinear_arith)
        requires d >= 1;
}

} // verus!
