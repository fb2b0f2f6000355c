use vstd::prelude::*;
use crate::raster::Image;

verus! {

/// `v` clamped into `0..n`, for `n > 0`: a neighbour outside the image
/// borrows the value of the nearest pixel on the border.
pub open spec fn clamp(v: int, n: int) -> int {
    if v < 0 {
        0
    } else if v >= n {
        n - 1
    } else {
        v
    }
}

/// The intensity at `(x + dx, y + dy)` with both coordinates clamped to the image.
pub open spec fn neighbour(img: Image, x: int, y: int, dx: int, dy: int) -> int {
    img.lum(clamp(x + dx, img.width as int), clamp(y + dy, img.height as int))
}

/// Horizontal Sobel response: the kernel `[-1 0 1; -2 0 2; -1 0 1]`, whose
/// rows run along `y`.
pub open spec fn sobel_x(img: Image, x: int, y: int) -> int {
    (neighbour(img, x, y, 1, -1) + 2 * neighbour(img, x, y, 1, 0) + neighbour(img, x, y, 1, 1))
        - (neighbour(img, x, y, -1, -1) + 2 * neighbour(img, x, y, -1, 0) + neighbour(img, x, y, -1, 1))
}

/// Vertical Sobel response: the kernel `[-1 -2 -1; 0 0 0; 1 2 1]`.
pub open spec fn sobel_y(img: Image, x: int, y: int) -> int {
    (neighbour(img, x, y, -1, 1) + 2 * neighbour(img, x, y, 0, 1) + neighbour(img, x, y, 1, 1))
        - (neighbour(img, x, y, -1, -1) + 2 * neighbour(img, x, y, 0, -1) + neighbour(img, x, y, 1, -1))
}

/// `r` is the square root of `n` rounded down.
pub open spec fn is_floor_sqrt(r: int, n: int) -> bool {
    0 <= r && r * r <= n < (r + 1) * (r + 1)
}

/// Relies on `num::integer::Roots::sqrt` for `u64`: the truncated principal
/// square root, `r * r <= n < (r + 1) * (r + 1)`.
#[verifier::external_body]
pub(crate) fn floor_sqrt(n: u64) -> (r: u64)
    ensures
        is_floor_sqrt(r as int, n as int),
{
    num::integer::Roots::sqrt(&n)
}

fn lum_clamped(img: &Image, x: i64, y: i64) -> (l: i32)
    requires
        img.wf(),
        img.width > 0,
        img.height > 0,
        -1 <= x <= img.width,
        -1 <= y <= img.height,
    ensures
        l as int == img.lum(clamp(x as int, img.width as int), clamp(y as int, img.height as int)),
        0 <= l <= 255,
{
    let cx: i64 = if x < 0 {
        0
    } else if x >= img.width as i64 {
        img.width as i64 - 1
    } else {
        x
    };
    let cy: i64 = if y < 0 {
        0
    } else if y >= img.height as i64 {
        img.height as i64 - 1
    } else {
        y
    };
    img.get_pixel(cx as u32, cy as u32).r as i32
}

/// The Sobel gradient `(gx, gy)` at pixel `(x, y)`, reading the first
/// channel, with out-of-bounds neighbours clamped to the nearest border pixel.
pub fn gx_gy(img: &Image, x: u32, y: u32) -> (g: (i32, i32))
    requires
        img.wf(),
        x < img.width,
        y < img.height,
    ensures
        g.0 as int == sobel_x(*img, x as int, y as int),
        g.1 as int == sobel_y(*img, x as int, y as int),
{
    let (x, y) = (x as i64, y as i64);
    let nw = lum_clamped(img, x - 1, y - 1);
    let n = lum_clamped(img, x, y - 1);
    let ne = lum_clamped(img, x + 1, y - 1);
    let w = lum_clamped(img, x - 1, y);
    let e = lum_clamped(img, x + 1, y);
    let sw = lum_clamped(img, x - 1, y + 1);
    let s = lum_clamped(img, x, y + 1);
    let se = lum_clamped(img, x + 1, y + 1);
    let gx = (ne + 2 * e + se) - (nw + 2 * w + sw);
    let gy = (sw + 2 * s + se) - (nw + 2 * n + ne);
    (gx, gy)
}

/// The squared length of a gradient vector.
pub open spec fn magnitude_sq(g: (i32, i32)) -> int {
    g.0 * g.0 + g.1 * g.1
}

pub(crate) fn magnitude_sq_exec(g: (i32, i32)) -> (m: u64)
    ensures
        m as int == magnitude_sq(g),
{
    let (gx, gy) = (g.0 as i64, g.1 as i64);
    proof {
        assert(0 <= gx * gx <= 0x4000_0000_0000_0000) by (nonlinear_arith)
            requires
                -0x8000_0000 <= gx <= 0x7fff_ffff,
        ;
        assert(0 <= gy * gy <= 0x4000_0000_0000_0000) by (nonlinear_arith)
            requires
                -0x8000_0000 <= gy <= 0x7fff_ffff,
        ;
    }
    (gx * gx) as u64 + (gy * gy) as u64
}

/// The length of a gradient vector, `sqrt(gx^2 + gy^2)` rounded down.
pub fn edge_magnitude(g: (i32, i32)) -> (m: u32)
    ensures
        is_floor_sqrt(m as int, magnitude_sq(g)),
{
    let n = magnitude_sq_exec(g);
    let r = floor_sqrt(n);
    proof {
        assert(r < 0x1_0000_0000) by (nonlinear_arith)
            requires
                r * r <= n,
                n <= 0xffff_ffff_ffff_ffff,
        {
            if r >= 0x1_0000_0000 {
                assert(r * r >= 0x1_0000_0000 * 0x1_0000_0000);
            }
        }
    }
    r as u32
}

/// The gradient field of an image: `field[x][y]` is the Sobel gradient at
/// `(x, y)`.
pub fn intensity_gradient(img: &Image) -> (field: Vec<Vec<(i32, i32)>>)
    requires
        img.wf(),
    ensures
        field@.len() == img.width,
        forall|x: int| 0 <= x < img.width ==> #[trigger] field@[x]@.len() == img.height,
        forall|x: int, y: int|
            0 <= x < img.width && 0 <= y < img.height ==> {
                &&& (#[trigger] field@[x]@[y]).0 == sobel_x(*img, x, y)
                &&& field@[x]@[y].1 == sobel_y(*img, x, y)
            },
{
    let mut field: Vec<Vec<(i32, i32)>> = Vec::new();
    let mut x: u32 = 0;
    while x < img.width
        invariant
            img.wf(),
            x <= img.width,
            field@.len() == x,
            forall|i: int| 0 <= i < x ==> #[trigger] field@[i]@.len() == img.height,
            forall|i: int, j: int|
                0 <= i < x && 0 <= j < img.height ==> {
                    &&& (#[trigger] field@[i]@[j]).0 == sobel_x(*img, i, j)
                    &&& field@[i]@[j].1 == sobel_y(*img, i, j)
                },
        decreases img.width - x,
    {
        let mut column: Vec<(i32, i32)> = Vec::new();
        let mut y: u32 = 0;
        while y < img.height
            invariant
                img.wf(),
                x < img.width,
                y <= img.height,
                column@.len() == y,
                forall|j: int|
                    0 <= j < y ==> {
                        &&& (#[trigger] column@[j]).0 == sobel_x(*img, x as int, j)
                        &&& column@[j].1 == sobel_y(*img, x as int, j)
                    },
            decreases img.height - y,
        {
            column.push(gx_gy(img, x, y));
            y += 1;
        }
        field.push(column);
        x += 1;
    }
    field
}

/// A constant-intensity image has a zero gradient everywhere, border
/// pixels included.
pub proof fn lemma_constant_image_has_zero_gradient(img: Image, v: int)
    requires
        img.wf(),
        forall|x: int, y: int| img.in_bounds(x, y) ==> #[trigger] img.lum(x, y) == v,
    ensures
        forall|x: int, y: int|
            img.in_bounds(x, y) ==> sobel_x(img, x, y) == 0 && #[trigger] sobel_y(img, x, y) == 0,
{
    assert forall|x: int, y: int| img.in_bounds(x, y) implies sobel_x(img, x, y) == 0
        && #[trigger] sobel_y(img, x, y) == 0 by {
        assert forall|dx: int, dy: int| -1 <= dx <= 1 && -1 <= dy <= 1 implies #[trigger] neighbour(
            img,
            x,
            y,
            dx,
            dy,
        ) == v by {
            assert(img.in_bounds(
                clamp(x + dx, img.width as int),
                clamp(y + dy, img.height as int),
            ));
        }
    }
}

/// The direction sector, `0` to `3`, of an angle in whole degrees: sector
/// `s` covers the 45 degree band centred on `45 * s`, taken modulo 180.
pub open spec fn degree_sector(degrees: int) -> int {
    (((degrees % 180) * 2 + 45) / 90) % 4
}

/// The two neighbour offsets that lie along direction sector `s`.
pub open spec fn sector_offsets(s: int) -> ((i32, i32), (i32, i32)) {
    if s == 0 {
        ((1i32, 0i32), (-1i32, 0i32))
    } else if s == 1 {
        ((1i32, -1i32), (-1i32, 1i32))
    } else if s == 2 {
        ((0i32, -1i32), (0i32, 1i32))
    } else {
        ((-1i32, -1i32), (1i32, 1i32))
    }
}

/// The offsets of the two pixels in the direction of `degrees` and in the
/// opposite direction: 0 degrees gives right and left, 45 top right and
/// bottom left, 90 top and bottom, 135 top left and bottom right; each band
/// is 45 degrees wide and the bands repeat every 180 degrees.
pub fn pixel_dir_offsets(degrees: i32) -> (o: ((i32, i32), (i32, i32)))
    ensures
        o == sector_offsets(degree_sector(degrees as int)),
{
    let mut r: i32 = degrees % 180;
    if r < 0 {
        r = r + 180;
    }
    assert(r as int == (degrees as int) % 180);
    let s = ((r * 2 + 45) / 90) % 4;
    if s == 0 {
        ((1, 0), (-1, 0))
    } else if s == 1 {
        ((1, -1), (-1, 1))
    } else if s == 2 {
        ((0, -1), (0, 1))
    } else {
        ((-1, -1), (1, 1))
    }
}

/// Direction offsets are periodic with period 180 degrees.
pub proof fn lemma_dir_offsets_periodic(degrees: int)
    ensures
        sector_offsets(degree_sector(degrees)) == sector_offsets(degree_sector(degrees + 180)),
{
    assert((degrees + 180) % 180 == degrees % 180) by {
        vstd::arithmetic::div_mod::lemma_mod_add_multiples_vanish(degrees, 180);
    }
}

/// The direction sector of a gradient `(gx, gy)`: the sector whose band
/// contains `atan2(gy, gx)`. Sector 0 holds the angles within 22.5 degrees
/// of the horizontal, which is `|gy| <= tan(22.5) |gx|`, or
/// `(|gx| + |gy|)^2 <= 2 gx^2`; sector 2 the same about the vertical; the
/// diagonals split by the signs of `gx` and `gy`. No non-zero integer
/// gradient lies on a band's edge, and the zero gradient falls in sector 0.
pub open spec fn gradient_sector(gx: int, gy: int) -> int {
    let ax = if gx < 0 { -gx } else { gx };
    let ay = if gy < 0 { -gy } else { gy };
    if (ax + ay) * (ax + ay) <= 2 * ax * ax {
        0
    } else if (ax + ay) * (ax + ay) <= 2 * ay * ay {
        2
    } else if (gx > 0) == (gy > 0) {
        1
    } else {
        3
    }
}

/// The direction sector of a Sobel gradient, whose parts lie within
/// `-1020..=1020`.
pub fn direction_sector(g: (i32, i32)) -> (s: u8)
    requires
        -1020 <= g.0 <= 1020,
        -1020 <= g.1 <= 1020,
    ensures
        s as int == gradient_sector(g.0 as int, g.1 as int),
{
    let ax: i64 = if g.0 < 0 { -(g.0 as i64) } else { g.0 as i64 };
    let ay: i64 = if g.1 < 0 { -(g.1 as i64) } else { g.1 as i64 };
    proof {
        assert((ax + ay) * (ax + ay) <= 2040 * 2040) by (nonlinear_arith)
            requires 0 <= ax <= 1020, 0 <= ay <= 1020;
        assert(2 * ax * ax <= 2 * 1020 * 1020) by (nonlinear_arith)
            requires 0 <= ax <= 1020;
        assert(2 * ay * ay <= 2 * 1020 * 1020) by (nonlinear_arith)
            requires 0 <= ay <= 1020;
    }
    let sum_sq = (ax + ay) * (ax + ay);
    if sum_sq <= 2 * ax * ax {
        0
    } else if sum_sq <= 2 * ay * ay {
        2
    } else if (g.0 > 0) == (g.1 > 0) {
        1
    } else {
        3
    }
}

/// The offsets of the two neighbours along a direction sector.
pub fn sector_dir_offsets(s: u8) -> (o: ((i32, i32), (i32, i32)))
    ensures
        o == sector_offsets(s as int),
{
    if s == 0 {
        ((1, 0), (-1, 0))
    } else if s == 1 {
        ((1, -1), (-1, 1))
    } else if s == 2 {
        ((0, -1), (0, 1))
    } else {
        ((-1, -1), (1, 1))
    }
}

} // verus!
