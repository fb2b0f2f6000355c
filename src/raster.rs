use image::Pixel;
use vstd::prelude::*;

verus! {

/// One RGBA pixel.
#[derive(Clone, Copy, Debug, PartialEq, Eq, Structural)]
pub struct Rgba {
    pub r: u8,
    pub g: u8,
    pub b: u8,
    pub a: u8,
}

impl Rgba {
    pub open spec fn grey_spec(v: u8) -> Rgba {
        Rgba { r: v, g: v, b: v, a: 255 }
    }

    /// An opaque grey of level `v`: `(v, v, v, 255)`.
    pub fn grey(v: u8) -> (p: Rgba)
        ensures
            p == Rgba::grey_spec(v),
    {
        Rgba { r: v, g: v, b: v, a: 255 }
    }

    /// Opaque white.
    pub fn white() -> (p: Rgba)
        ensures
            p == Rgba::grey_spec(255),
    {
        Rgba::grey(255)
    }

    /// Opaque black.
    pub fn black() -> (p: Rgba)
        ensures
            p == Rgba::grey_spec(0),
    {
        Rgba::grey(0)
    }
}

/// A dense `width` x `height` grid of RGBA pixels, stored row by row:
/// the pixel at column `x` and row `y` sits at index `y * width + x`.
pub struct Image {
    pub width: u32,
    pub height: u32,
    pub pixels: Vec<Rgba>,
}

/// Where the pixel at column `x`, row `y` of a grid `w` wide is stored.
pub open spec fn flat(w: int, x: int, y: int) -> int {
    y * w + x
}

pub proof fn lemma_flat_in_bounds(w: int, h: int, x: int, y: int)
    requires
        0 <= x < w,
        0 <= y < h,
    ensures
        0 <= flat(w, x, y) < w * h,
{
    assert(0 <= y * w + x < w * h) by (nonlinear_arith)
        requires
            0 <= x < w,
            0 <= y < h,
    ;
}

/// Luma of an RGB triple with the sRGB weights 0.2126, 0.7152 and 0.0722,
/// rounded down.
pub open spec fn luma_spec(r: u8, g: u8, b: u8) -> int {
    (2126 * r + 7152 * g + 722 * b) / 10000
}

/// Relies on `image::Pixel::to_luma` for `Rgb<u8>`: the weighted sum of
/// the channels with weights 2126, 7152 and 722, divided by 10000.
#[verifier::external_body]
fn luma_of(r: u8, g: u8, b: u8) -> (l: u8)
    ensures
        l as int == luma_spec(r, g, b),
{
    image::Rgb([r, g, b]).to_luma().0[0]
}

impl Image {
    pub open spec fn wf(&self) -> bool {
        self.pixels@.len() == self.width as int * self.height as int
    }

    pub open spec fn in_bounds(&self, x: int, y: int) -> bool {
        0 <= x < self.width && 0 <= y < self.height
    }

    pub open spec fn at(&self, x: int, y: int) -> Rgba {
        self.pixels@[flat(self.width as int, x, y)]
    }

    /// The intensity that the edge pipeline reads: the first channel.
    pub open spec fn lum(&self, x: int, y: int) -> int {
        self.at(x, y).r as int
    }

    /// An image of the given size, every pixel `fill`.
    pub fn new(width: u32, height: u32, fill: Rgba) -> (img: Image)
        requires
            width as int * height as int <= usize::MAX,
        ensures
            img.wf(),
            img.width == width,
            img.height == height,
            forall|i: int| 0 <= i < img.pixels@.len() ==> img.pixels@[i] == fill,
    {
        let n = width as usize * height as usize;
        let pixels = vec![fill; n];
        Image { width, height, pixels }
    }

    pub fn index_of(&self, x: u32, y: u32) -> (i: usize)
        requires
            self.wf(),
            x < self.width,
            y < self.height,
        ensures
            i as int == flat(self.width as int, x as int, y as int),
            i < self.pixels@.len(),
    {
        let n = self.pixels.len();
        proof {
            lemma_flat_in_bounds(self.width as int, self.height as int, x as int, y as int);
            assert(y as int * self.width as int <= flat(self.width as int, x as int, y as int));
        }
        y as usize * self.width as usize + x as usize
    }

    pub fn get_pixel(&self, x: u32, y: u32) -> (p: Rgba)
        requires
            self.wf(),
            x < self.width,
            y < self.height,
        ensures
            p == self.at(x as int, y as int),
    {
        let i = self.index_of(x, y);
        self.pixels[i]
    }

    /// Sets one pixel and leaves every other pixel as it was.
    pub fn put_pixel(&mut self, x: u32, y: u32, p: Rgba)
        requires
            old(self).wf(),
            x < old(self).width,
            y < old(self).height,
        ensures
            final(self).wf(),
            final(self).width == old(self).width,
            final(self).height == old(self).height,
            final(self).pixels@ == old(self).pixels@.update(
                flat(old(self).width as int, x as int, y as int),
                p,
            ),
    {
        let i = self.index_of(x, y);
        self.pixels.set(i, p);
    }
}

/// `b` is `a` reduced to luma.
pub open spec fn grey_of(a: Image, b: Image) -> bool {
    &&& b.wf()
    &&& b.width == a.width
    &&& b.height == a.height
    &&& forall|i: int|
        0 <= i < b.pixels@.len() ==> {
            let p = #[trigger] a.pixels@[i];
            let l = luma_spec(p.r, p.g, p.b);
            &&& b.pixels@[i].r == l
            &&& b.pixels@[i].g == l
            &&& b.pixels@[i].b == l
            &&& b.pixels@[i].a == p.a
        }
}

/// The image reduced to luma: each pixel becomes `(l, l, l, a)` where `l`
/// is the luma of its colour channels and `a` its own alpha.
pub fn grayscale(img: &Image) -> (out: Image)
    requires
        img.wf(),
    ensures
        grey_of(*img, out),
{
    let mut pixels: Vec<Rgba> = Vec::with_capacity(img.pixels.len());
    let mut i: usize = 0;
    while i < img.pixels.len()
        invariant
            i <= img.pixels@.len(),
            pixels@.len() == i,
            forall|j: int|
                0 <= j < i ==> {
                    let p = #[trigger] img.pixels@[j];
                    let l = luma_spec(p.r, p.g, p.b);
                    &&& pixels@[j].r == l
                    &&& pixels@[j].g == l
                    &&& pixels@[j].b == l
                    &&& pixels@[j].a == p.a
                },
        decreases img.pixels@.len() - i,
    {
        let p = img.pixels[i];
        let l = luma_of(p.r, p.g, p.b);
        pixels.push(Rgba { r: l, g: l, b: l, a: p.a });
        i += 1;
    }
    Image { width: img.width, height: img.height, pixels }
}

/// Pixel `(x, y)` lies in the rectangle from `start` to the image's far
/// corner.
pub open spec fn in_rect(img: Image, start: (u32, u32), x: int, y: int) -> bool {
    start.0 <= x < img.width && start.1 <= y < img.height
}

/// The first pixel of colour `colour` in the rectangle from `start`,
/// scanning column by column (`x` outer, `y` inner).
pub fn first_col_from(img: &Image, colour: Rgba, start: (u32, u32)) -> (r: Option<(u32, u32)>)
    requires
        img.wf(),
    ensures
        r matches Some(p) ==> in_rect(*img, start, p.0 as int, p.1 as int) && img.at(p.0 as int, p.1 as int)
            == colour && forall|x: int, y: int|
            in_rect(*img, start, x, y) && (x < p.0 || (x == p.0 && y < p.1)) ==> #[trigger] img.at(x, y)
                != colour,
        r is None ==> forall|x: int, y: int| in_rect(*img, start, x, y) ==> #[trigger] img.at(x, y) != colour,
{
    let mut x = start.0;
    while x < img.width
        invariant
            img.wf(),
            start.0 <= x,
            forall|x2: int, y2: int| in_rect(*img, start, x2, y2) && x2 < x ==> #[trigger] img.at(x2, y2) != colour,
        decreases img.width - x,
    {
        let mut y = start.1;
        while y < img.height
            invariant
                img.wf(),
                start.0 <= x < img.width,
                start.1 <= y,
                forall|x2: int, y2: int|
                    in_rect(*img, start, x2, y2) && (x2 < x || (x2 == x && y2 < y)) ==> #[trigger] img.at(x2, y2)
                        != colour,
            decreases img.height - y,
        {
            if img.get_pixel(x, y) == colour {
                return Some((x, y));
            }
            y += 1;
        }
        x += 1;
    }
    None
}

/// The first pixel of colour `colour`, scanning column by column.
pub fn first_col(img: &Image, colour: Rgba) -> (r: Option<(u32, u32)>)
    requires
        img.wf(),
    ensures
        r matches Some(p) ==> in_rect(*img, (0, 0), p.0 as int, p.1 as int) && img.at(p.0 as int, p.1 as int)
            == colour && forall|x: int, y: int|
            in_rect(*img, (0, 0), x, y) && (x < p.0 || (x == p.0 && y < p.1)) ==> #[trigger] img.at(x, y)
                != colour,
        r is None ==> forall|x: int, y: int| in_rect(*img, (0, 0), x, y) ==> #[trigger] img.at(x, y) != colour,
{
    first_col_from(img, colour, (0, 0))
}

} // verus!
