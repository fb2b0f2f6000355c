use vstd::prelude::*;
use crate::raster::{Image, Rgba};
use crate::gradient::clamp;
use crate::grid::{col, row, lemma_col_row};

verus! {

/// A square convolution kernel of `size` x `size` integer weights whose
/// coefficients are `weights[t] / divisor`. Weight `i * size + j` applies to
/// the pixel at horizontal offset `i` and vertical offset `j`, both counted
/// from the kernel's corner: the major index runs along `x`.
pub struct Kernel {
    pub size: usize,
    pub weights: Vec<u32>,
    pub divisor: u32,
}

impl Kernel {
    pub open spec fn wf(&self) -> bool {
        &&& self.weights@.len() == self.size * self.size
        &&& self.divisor > 0
    }
}

/// Colour channel `c` of a pixel: 0 red, 1 green, 2 blue.
pub open spec fn channel(p: Rgba, c: int) -> int {
    if c == 0 {
        p.r as int
    } else if c == 1 {
        p.g as int
    } else {
        p.b as int
    }
}

/// The sum of the first `m` weighted samples of channel `c` around
/// `(x, y)`. Weight `t` samples the pixel at `x + t / size - r` and
/// `y + t % size - r`, where `r = size / 2` is the kernel's radius, clamped
/// to the image.
pub open spec fn weighted_sum(
    img: Image,
    weights: Seq<u32>,
    size: int,
    x: int,
    y: int,
    c: int,
    m: nat,
) -> int
    decreases m,
{
    if m == 0 {
        0
    } else {
        let t = m - 1;
        let sx = clamp(x + t / size - size / 2, img.width as int);
        let sy = clamp(y + t % size - size / 2, img.height as int);
        weighted_sum(img, weights, size, x, y, c, (m - 1) as nat) + weights[t] * channel(
            img.at(sx, sy),
            c,
        )
    }
}

/// Channel `c` of the blurred pixel at `(x, y)`: the weighted sum over the
/// whole kernel divided by the divisor, rounded down and capped at 255.
pub open spec fn blurred_channel(
    img: Image,
    weights: Seq<u32>,
    size: int,
    divisor: int,
    x: int,
    y: int,
    c: int,
) -> int {
    let v = weighted_sum(img, weights, size, x, y, c, (size * size) as nat) / divisor;
    if v > 255 {
        255
    } else {
        v
    }
}

/// `b` is `a` convolved with the kernel: each colour channel independently,
/// alpha kept.
pub open spec fn blurred(a: Image, weights: Seq<u32>, size: int, divisor: int, b: Image) -> bool {
    &&& b.wf()
    &&& b.width == a.width
    &&& b.height == a.height
    &&& forall|i: int|
        0 <= i < a.pixels@.len() ==> {
            let x = col(a.width as int, i);
            let y = row(a.width as int, i);
            &&& (#[trigger] b.pixels@[i]).r == blurred_channel(a, weights, size, divisor, x, y, 0)
            &&& b.pixels@[i].g == blurred_channel(a, weights, size, divisor, x, y, 1)
            &&& b.pixels@[i].b == blurred_channel(a, weights, size, divisor, x, y, 2)
            &&& b.pixels@[i].a == a.pixels@[i].a
        }
}

/// The largest weighted sample: a weight below `2^32` times a channel value.
const SAMPLE_BOUND: u128 = 0x100_0000_0000;

fn clamp_coord(v: i64, n: u32) -> (r: u32)
    requires
        n > 0,
    ensures
        r as int == clamp(v as int, n as int),
{
    if v < 0 {
        0
    } else if v >= n as i64 {
        n - 1
    } else {
        v as u32
    }
}

fn blur_pixel(img: &Image, kernel: &Kernel, x: u32, y: u32) -> (p: Rgba)
    requires
        img.wf(),
        kernel.wf(),
        x < img.width,
        y < img.height,
    ensures
        p.r == blurred_channel(*img, kernel.weights@, kernel.size as int, kernel.divisor as int, x as int, y as int, 0),
        p.g == blurred_channel(*img, kernel.weights@, kernel.size as int, kernel.divisor as int, x as int, y as int, 1),
        p.b == blurred_channel(*img, kernel.weights@, kernel.size as int, kernel.divisor as int, x as int, y as int, 2),
        p.a == img.at(x as int, y as int).a,
{
    let size = kernel.size;
    let cells = kernel.weights.len();
    proof {
        assert(size < 0x1_0000_0000) by (nonlinear_arith)
            requires
                size * size == cells,
                cells <= 0xffff_ffff_ffff_ffff,
        {
            if size >= 0x1_0000_0000 {
                assert(size * size >= 0x1_0000_0000 * 0x1_0000_0000);
            }
        }
    }
    let radius = (size / 2) as i64;
    let ghost ws = kernel.weights@;
    let ghost sz = size as int;
    let mut sums: (u128, u128, u128) = (0, 0, 0);
    let mut t: usize = 0;
    while t < cells
        invariant
            img.wf(),
            kernel.wf(),
            x < img.width,
            y < img.height,
            size == kernel.size,
            sz == size as int,
            ws == kernel.weights@,
            cells == ws.len(),
            size < 0x1_0000_0000,
            radius == size / 2,
            t <= cells,
            sums.0 == weighted_sum(*img, ws, sz, x as int, y as int, 0, t as nat),
            sums.1 == weighted_sum(*img, ws, sz, x as int, y as int, 1, t as nat),
            sums.2 == weighted_sum(*img, ws, sz, x as int, y as int, 2, t as nat),
            sums.0 <= t * SAMPLE_BOUND,
            sums.1 <= t * SAMPLE_BOUND,
            sums.2 <= t * SAMPLE_BOUND,
        decreases cells - t,
    {
        proof {
            vstd::arithmetic::div_mod::lemma_multiply_divide_lt(t as int, size as int, size as int);
        }
        let kx = (t / size) as i64;
        let ky = (t % size) as i64;
        let sx = clamp_coord(x as i64 + kx - radius, img.width);
        let sy = clamp_coord(y as i64 + ky - radius, img.height);
        let p = img.get_pixel(sx, sy);
        let wt = kernel.weights[t] as u128;
        proof {
            assert(wt * (p.r as u128) <= SAMPLE_BOUND) by (nonlinear_arith)
                requires wt < 0x1_0000_0000, p.r <= 255;
            assert(wt * (p.g as u128) <= SAMPLE_BOUND) by (nonlinear_arith)
                requires wt < 0x1_0000_0000, p.g <= 255;
            assert(wt * (p.b as u128) <= SAMPLE_BOUND) by (nonlinear_arith)
                requires wt < 0x1_0000_0000, p.b <= 255;
            assert((t + 1) * SAMPLE_BOUND == t * SAMPLE_BOUND + SAMPLE_BOUND) by (nonlinear_arith);
            assert((t + 1) * SAMPLE_BOUND <= 0x1_0000_0000_0000_0000 * SAMPLE_BOUND) by (nonlinear_arith)
                requires t < 0xffff_ffff_ffff_ffff;
        }
        sums = (
            sums.0 + wt * p.r as u128,
            sums.1 + wt * p.g as u128,
            sums.2 + wt * p.b as u128,
        );
        t += 1;
    }
    let d = kernel.divisor as u128;
    let r = sums.0 / d;
    let g = sums.1 / d;
    let b = sums.2 / d;
    let a = img.get_pixel(x, y).a;
    Rgba {
        r: if r > 255 { 255 } else { r as u8 },
        g: if g > 255 { 255 } else { g as u8 },
        b: if b > 255 { 255 } else { b as u8 },
        a,
    }
}

/// Convolves every pixel of `img` with `kernel`, clamping samples that fall
/// outside the image to the nearest border pixel. The source is read only;
/// the result is a new image.
pub fn apply_kernel(img: &Image, kernel: &Kernel) -> (out: Image)
    requires
        img.wf(),
        kernel.wf(),
    ensures
        blurred(*img, kernel.weights@, kernel.size as int, kernel.divisor as int, out),
{
    let w = img.width;
    let h = img.height;
    let n = img.pixels.len();
    let mut pixels: Vec<Rgba> = Vec::with_capacity(n);
    let mut i: usize = 0;
    while i < n
        invariant
            img.wf(),
            kernel.wf(),
            w == img.width,
            h == img.height,
            n == img.pixels@.len(),
            i <= n,
            pixels@.len() == i,
            forall|k: int|
                0 <= k < i ==> {
                    let x = col(w as int, k);
                    let y = row(w as int, k);
                    &&& (#[trigger] pixels@[k]).r == blurred_channel(*img, kernel.weights@, kernel.size as int, kernel.divisor as int, x, y, 0)
                    &&& pixels@[k].g == blurred_channel(*img, kernel.weights@, kernel.size as int, kernel.divisor as int, x, y, 1)
                    &&& pixels@[k].b == blurred_channel(*img, kernel.weights@, kernel.size as int, kernel.divisor as int, x, y, 2)
                    &&& pixels@[k].a == img.pixels@[k].a
                },
        decreases n - i,
    {
        proof {
            lemma_col_row(w as int, h as int, i as int);
        }
        let x = (i % (w as usize)) as u32;
        let y = (i / (w as usize)) as u32;
        pixels.push(blur_pixel(img, kernel, x, y));
        i += 1;
    }
    Image { width: w, height: h, pixels }
}

pub open spec fn gaussian_3x3_weights() -> Seq<u32> {
    seq![1, 2, 1, 2, 4, 2, 1, 2, 1]
}

pub open spec fn gaussian_5x5_weights() -> Seq<u32> {
    seq![
        1, 4, 7, 4, 1,
        4, 16, 26, 16, 4,
        7, 26, 41, 26, 7,
        4, 16, 26, 16, 4,
        1, 4, 7, 4, 1,
    ]
}

pub open spec fn gaussian_7x7_weights() -> Seq<u32> {
    seq![
        0, 0, 1, 2, 1, 0, 0,
        0, 3, 13, 22, 13, 3, 0,
        1, 13, 59, 97, 59, 13, 1,
        2, 22, 97, 159, 97, 22, 2,
        1, 13, 59, 97, 59, 13, 1,
        0, 3, 13, 22, 13, 3, 0,
        0, 0, 1, 2, 1, 0, 0,
    ]
}

/// The discrete 3x3 Gaussian: weights over 16.
pub fn gaussian_3x3() -> (k: Kernel)
    ensures
        k.wf(),
        k.size == 3,
        k.weights@ == gaussian_3x3_weights(),
        k.divisor == 16,
{
    let weights: Vec<u32> = vec![1, 2, 1, 2, 4, 2, 1, 2, 1];
    assert(weights@ =~= gaussian_3x3_weights());
    assert(weights@.len() == 9);
    let k = Kernel { size: 3, weights, divisor: 16 };
    assert(k.size * k.size == 9) by (nonlinear_arith)
        requires k.size == 3;
    k
}

/// The discrete 5x5 Gaussian: weights over 273.
pub fn gaussian_5x5() -> (k: Kernel)
    ensures
        k.wf(),
        k.size == 5,
        k.weights@ == gaussian_5x5_weights(),
        k.divisor == 273,
{
    let weights: Vec<u32> = vec![
        1, 4, 7, 4, 1,
        4, 16, 26, 16, 4,
        7, 26, 41, 26, 7,
        4, 16, 26, 16, 4,
        1, 4, 7, 4, 1,
    ];
    assert(weights@ =~= gaussian_5x5_weights());
    assert(weights@.len() == 25);
    let k = Kernel { size: 5, weights, divisor: 273 };
    assert(k.size * k.size == 25) by (nonlinear_arith)
        requires k.size == 5;
    k
}

/// The discrete 7x7 Gaussian: weights over 1003.
pub fn gaussian_7x7() -> (k: Kernel)
    ensures
        k.wf(),
        k.size == 7,
        k.weights@ == gaussian_7x7_weights(),
        k.divisor == 1003,
{
    let weights: Vec<u32> = vec![
        0, 0, 1, 2, 1, 0, 0,
        0, 3, 13, 22, 13, 3, 0,
        1, 13, 59, 97, 59, 13, 1,
        2, 22, 97, 159, 97, 22, 2,
        1, 13, 59, 97, 59, 13, 1,
        0, 3, 13, 22, 13, 3, 0,
        0, 0, 1, 2, 1, 0, 0,
    ];
    assert(weights@ =~= gaussian_7x7_weights());
    assert(weights@.len() == 49);
    let k = Kernel { size: 7, weights, divisor: 1003 };
    assert(k.size * k.size == 49) by (nonlinear_arith)
        requires k.size == 7;
    k
}

/// Blurs `img` with `kernel`.
pub fn gaussian_blur(img: &Image, kernel: Kernel) -> (out: Image)
    requires
        img.wf(),
        kernel.wf(),
    ensures
        blurred(*img, kernel.weights@, kernel.size as int, kernel.divisor as int, out),
{
    apply_kernel(img, &kernel)
}

pub fn gaussian_blur_3x3(img: &Image) -> (out: Image)
    requires
        img.wf(),
    ensures
        blurred(*img, gaussian_3x3_weights(), 3, 16, out),
{
    gaussian_blur(img, gaussian_3x3())
}

pub fn gaussian_blur_5x5(img: &Image) -> (out: Image)
    requires
        img.wf(),
    ensures
        blurred(*img, gaussian_5x5_weights(), 5, 273, out),
{
    gaussian_blur(img, gaussian_5x5())
}

pub fn gaussian_blur_7x7(img: &Image) -> (out: Image)
    requires
        img.wf(),
    ensures
        blurred(*img, gaussian_7x7_weights(), 7, 1003, out),
{
    gaussian_blur(img, gaussian_7x7())
}

} // verus!
