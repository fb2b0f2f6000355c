use vstd::prelude::*;
use crate::raster::{Image, Rgba, flat};
use crate::gradient::{
    sobel_x,
    sobel_y,
    sector_offsets,
    gradient_sector,
    intensity_gradient,
    direction_sector,
    sector_dir_offsets,
    magnitude_sq,
    magnitude_sq_exec,
};
use crate::grid::{col, row, lemma_col_row, adjacent, closed_in, reachable, neighbour, neighbour_at, lemma_adjacent_is_neighbour};

verus! {

/// The squared Sobel magnitude at `(x, y)`.
pub open spec fn grad_mag_sq(img: Image, x: int, y: int) -> int {
    sobel_x(img, x, y) * sobel_x(img, x, y) + sobel_y(img, x, y) * sobel_y(img, x, y)
}

/// Whether non-maximum suppression keeps pixel `i`: the two neighbours along
/// its gradient's direction sector are not both on the image, or neither has
/// a greater gradient magnitude.
pub open spec fn nms_keeps(img: Image, i: int) -> bool {
    let w = img.width as int;
    let x = col(w, i);
    let y = row(w, i);
    let o = sector_offsets(gradient_sector(sobel_x(img, x, y), sobel_y(img, x, y)));
    let (x1, y1) = (x + o.0.0, y + o.0.1);
    let (x2, y2) = (x + o.1.0, y + o.1.1);
    !(img.in_bounds(x1, y1) && img.in_bounds(x2, y2)) || (grad_mag_sq(img, x1, y1) <= grad_mag_sq(
        img,
        x,
        y,
    ) && grad_mag_sq(img, x2, y2) <= grad_mag_sq(img, x, y))
}

/// `b` is `a` after non-maximum suppression.
pub open spec fn suppressed(a: Image, b: Image) -> bool {
    &&& b.wf()
    &&& b.width == a.width
    &&& b.height == a.height
    &&& forall|i: int|
        0 <= i < a.pixels@.len() ==> #[trigger] b.pixels@[i] == if nms_keeps(a, i) {
            a.pixels@[i]
        } else {
            Rgba::grey_spec(0)
        }
}

pub proof fn lemma_sobel_bounds(img: Image, x: int, y: int)
    ensures
        -1020 <= sobel_x(img, x, y) <= 1020,
        -1020 <= sobel_y(img, x, y) <= 1020,
{
    assert forall|dx: int, dy: int| 0 <= #[trigger] crate::gradient::neighbour(img, x, y, dx, dy) <= 255 by {}
}

/// Non-maximum suppression: every pixel whose gradient magnitude is smaller
/// than that of one of its two neighbours along the gradient direction is
/// set to black; the others, and those whose two neighbours are not both
/// on the image, are left as they were. All gradients are taken from the
/// image as it was before the call.
pub fn non_maximum_suppression(img: &mut Image)
    requires
        old(img).wf(),
    ensures
        suppressed(*old(img), *final(img)),
{
    let ghost src = *img;
    let field = intensity_gradient(img);
    let w = img.width;
    let h = img.height;
    let n = img.pixels.len();
    let mut i: usize = 0;
    while i < n
        invariant
            src.wf(),
            w == src.width,
            h == src.height,
            n == src.pixels@.len(),
            i <= n,
            img.width == w,
            img.height == h,
            img.pixels@.len() == n,
            field@.len() == w,
            forall|x: int| 0 <= x < w ==> #[trigger] field@[x]@.len() == h,
            forall|x: int, y: int|
                0 <= x < w && 0 <= y < h ==> {
                    &&& (#[trigger] field@[x]@[y]).0 == sobel_x(src, x, y)
                    &&& field@[x]@[y].1 == sobel_y(src, x, y)
                },
            forall|k: int| i <= k < n ==> #[trigger] img.pixels@[k] == src.pixels@[k],
            forall|k: int|
                0 <= k < i ==> #[trigger] img.pixels@[k] == if nms_keeps(src, k) {
                    src.pixels@[k]
                } else {
                    Rgba::grey_spec(0)
                },
        decreases n - i,
    {
        proof {
            lemma_col_row(w as int, h as int, i as int);
        }
        let x = i % (w as usize);
        let y = i / (w as usize);
        let g = field[x][y];
        proof {
            lemma_sobel_bounds(src, x as int, y as int);
        }
        let (o1, o2) = sector_dir_offsets(direction_sector(g));
        let (x1, y1) = (x as i64 + o1.0 as i64, y as i64 + o1.1 as i64);
        let (x2, y2) = (x as i64 + o2.0 as i64, y as i64 + o2.1 as i64);
        if 0 <= x1 && x1 < w as i64 && 0 <= y1 && y1 < h as i64 && 0 <= x2 && x2 < w as i64 && 0
            <= y2 && y2 < h as i64 {
            let m = magnitude_sq_exec(g);
            let m1 = magnitude_sq_exec(field[x1 as usize][y1 as usize]);
            let m2 = magnitude_sq_exec(field[x2 as usize][y2 as usize]);
            if m < m1 || m < m2 {
                img.pixels.set(i, Rgba::black());
            }
        }
        i += 1;
    }
}

/// The class of a pixel after double thresholding.
#[derive(Clone, Copy, Debug, PartialEq, Eq, Structural)]
pub enum EdgeClass {
    Suppressed,
    Weak,
    Strong,
}

/// `intensity >= high` is strong, `low < intensity < high` weak, anything
/// else suppressed.
pub open spec fn class_of(intensity: int, low: int, high: int) -> EdgeClass {
    if intensity >= high {
        EdgeClass::Strong
    } else if intensity > low {
        EdgeClass::Weak
    } else {
        EdgeClass::Suppressed
    }
}

pub fn classify(intensity: u8, low: u8, high: u8) -> (c: EdgeClass)
    ensures
        c == class_of(intensity as int, low as int, high as int),
{
    if intensity >= high {
        EdgeClass::Strong
    } else if intensity > low {
        EdgeClass::Weak
    } else {
        EdgeClass::Suppressed
    }
}

/// The level written for a weak pixel, in the first channel.
pub const WEAK_LEVEL: u8 = 128;

/// How a class is drawn: strong white, weak `(128, 128, 0)`, suppressed black.
pub open spec fn class_colour(c: EdgeClass) -> Rgba {
    match c {
        EdgeClass::Strong => Rgba::grey_spec(255),
        EdgeClass::Weak => Rgba { r: WEAK_LEVEL, g: WEAK_LEVEL, b: 0, a: 255 },
        EdgeClass::Suppressed => Rgba::grey_spec(0),
    }
}

pub fn class_pixel(c: EdgeClass) -> (p: Rgba)
    ensures
        p == class_colour(c),
{
    match c {
        EdgeClass::Strong => Rgba::white(),
        EdgeClass::Weak => Rgba { r: WEAK_LEVEL, g: WEAK_LEVEL, b: 0, a: 255 },
        EdgeClass::Suppressed => Rgba::black(),
    }
}

/// `b` is `a` after double thresholding with `low` and `high`.
pub open spec fn thresholded(a: Image, low: u8, high: u8, b: Image) -> bool {
    &&& b.wf()
    &&& b.width == a.width
    &&& b.height == a.height
    &&& forall|i: int|
        0 <= i < a.pixels@.len() ==> #[trigger] b.pixels@[i] == class_colour(
            class_of(a.pixels@[i].r as int, low as int, high as int),
        )
}

/// Double thresholding: each pixel is replaced by the colour of the class of
/// its first channel.
pub fn double_threshold(img: &mut Image, thresholds: (u8, u8))
    requires
        old(img).wf(),
    ensures
        thresholded(*old(img), thresholds.0, thresholds.1, *final(img)),
{
    let (low, high) = thresholds;
    let ghost src = *img;
    let n = img.pixels.len();
    let mut i: usize = 0;
    while i < n
        invariant
            src.wf(),
            n == src.pixels@.len(),
            i <= n,
            img.width == src.width,
            img.height == src.height,
            img.pixels@.len() == n,
            forall|k: int| i <= k < n ==> #[trigger] img.pixels@[k] == src.pixels@[k],
            forall|k: int|
                0 <= k < i ==> #[trigger] img.pixels@[k] == class_colour(
                    class_of(src.pixels@[k].r as int, low as int, high as int),
                ),
        decreases n - i,
    {
        let p = img.pixels[i];
        img.pixels.set(i, class_pixel(classify(p.r, low, high)));
        i += 1;
    }
}

/// The pixels marked strong: first channel 255.
pub open spec fn strong_set(img: Image) -> Set<int> {
    Set::new(|i: int| 0 <= i < img.pixels@.len() && img.pixels@[i].r == 255)
}

/// The pixels marked weak: first channel 128.
pub open spec fn weak_set(img: Image) -> Set<int> {
    Set::new(|i: int| 0 <= i < img.pixels@.len() && img.pixels@[i].r == WEAK_LEVEL)
}

/// Pixel `i` survives hysteresis: it is strong, or joined to a strong pixel
/// by a chain of 8-adjacent weak pixels.
pub open spec fn linked(img: Image, i: int) -> bool {
    reachable(img.width as int, img.pixels@.len() as int, weak_set(img), strong_set(img), i)
}

/// `b` is the binary mask that hysteresis makes of `a`.
pub open spec fn linked_mask(a: Image, b: Image) -> bool {
    &&& b.wf()
    &&& b.width == a.width
    &&& b.height == a.height
    &&& forall|i: int|
        0 <= i < a.pixels@.len() ==> #[trigger] b.pixels@[i] == if linked(a, i) {
            Rgba::grey_spec(255)
        } else {
            Rgba::grey_spec(0)
        }
}

/// The number of `false` entries.
pub open spec fn count_false(s: Seq<bool>) -> nat
    decreases s.len(),
{
    if s.len() == 0 {
        0
    } else {
        count_false(s.drop_last()) + if s.last() {
            0nat
        } else {
            1nat
        }
    }
}

proof fn lemma_count_false_set(s: Seq<bool>, j: int)
    requires
        0 <= j < s.len(),
        !s[j],
    ensures
        count_false(s.update(j, true)) + 1 == count_false(s),
    decreases s.len(),
{
    let t = s.update(j, true);
    if j == s.len() - 1 {
        assert(t.drop_last() =~= s.drop_last());
    } else {
        assert(t.drop_last() =~= s.drop_last().update(j, true));
        lemma_count_false_set(s.drop_last(), j);
    }
}

/// Hysteresis linking by transitive flood fill: every weak pixel joined to a
/// strong pixel through 8-adjacent weak pixels becomes strong. The result is
/// a binary mask: linked pixels white, all others black.
pub fn hysteresis(img: &mut Image)
    requires
        old(img).wf(),
    ensures
        linked_mask(*old(img), *final(img)),
{
    let ghost src = *img;
    let ghost strong = strong_set(src);
    let ghost weak = weak_set(src);
    let w = img.width;
    let h = img.height;
    let n = img.pixels.len();
    let ghost wi = w as int;
    let ghost ni = n as int;
    let mut marked: Vec<bool> = Vec::new();
    let mut stack: Vec<usize> = Vec::new();
    let mut i: usize = 0;
    while i < n
        invariant
            src == *img,
            src.wf(),
            n == src.pixels@.len(),
            strong == strong_set(src),
            i <= n,
            marked@.len() == i,
            forall|k: int| 0 <= k < i ==> #[trigger] marked@[k] == strong.contains(k),
            forall|k: int| 0 <= k < i && strong.contains(k) ==> #[trigger] stack@.contains(k as usize),
            forall|t: int| 0 <= t < stack@.len() ==> #[trigger] stack@[t] < i && strong.contains(stack@[t] as int),
        decreases n - i,
    {
        let is_strong = img.pixels[i].r == 255;
        marked.push(is_strong);
        let ghost before = stack@;
        if is_strong {
            stack.push(i);
            assert(stack@.last() == i);
            assert forall|k: usize| before.contains(k) implies stack@.contains(k) by {
                let t = choose|t: int| 0 <= t < before.len() && before[t] == k;
                assert(stack@[t] == k);
            }
        }
        assert forall|k: int| 0 <= k < i + 1 && strong.contains(k) implies #[trigger] stack@.contains(
            k as usize,
        ) by {
            if k == i {
                assert(src.pixels@[k].r == 255);
                assert(is_strong);
                assert(stack@[stack@.len() - 1] == i);
            } else {
                assert(before.contains(k as usize));
            }
        }
        i += 1;
    }
    while stack.len() > 0
        invariant
            src == *img,
            src.wf(),
            w == src.width,
            h == src.height,
            wi == w as int,
            ni == n as int,
            n == src.pixels@.len(),
            strong == strong_set(src),
            weak == weak_set(src),
            marked@.len() == n,
            forall|k: int| 0 <= k < n && #[trigger] strong.contains(k) ==> marked@[k],
            forall|t: int|
                0 <= t < stack@.len() ==> #[trigger] stack@[t] < n && marked@[stack@[t] as int],
            forall|k: int| 0 <= k < n && #[trigger] marked@[k] ==> reachable(wi, ni, weak, strong, k),
            forall|k: int, j: int|
                0 <= k < n && marked@[k] && !stack@.contains(k as usize) && 0 <= j < n
                    && #[trigger] weak.contains(j) && #[trigger] adjacent(wi, k, j) ==> marked@[j],
        decreases count_false(marked@) + stack@.len(),
    {
        let ghost measure = count_false(marked@) + stack@.len();
        let ghost stack0 = stack@;
        let i = stack.pop().unwrap();
        assert(stack0 =~= stack@.push(i));
        assert(reachable(wi, ni, weak, strong, i as int));
        let mut d: usize = 0;
        while d < 8
            invariant
                src == *img,
                src.wf(),
                w == src.width,
                h == src.height,
                wi == w as int,
                ni == n as int,
                n == src.pixels@.len(),
                strong == strong_set(src),
                weak == weak_set(src),
                i < n,
                d <= 8,
                marked@.len() == n,
                marked@[i as int],
                count_false(marked@) + stack@.len() + 1 == measure,
                forall|k: int| 0 <= k < n && #[trigger] strong.contains(k) ==> marked@[k],
                forall|t: int|
                    0 <= t < stack@.len() ==> #[trigger] stack@[t] < n && marked@[stack@[t] as int],
                forall|k: int|
                    0 <= k < n && #[trigger] marked@[k] ==> reachable(wi, ni, weak, strong, k),
                forall|k: int, j: int|
                    0 <= k < n && marked@[k] && !stack@.contains(k as usize) && k != i && 0 <= j
                        < n && #[trigger] weak.contains(j) && #[trigger] adjacent(wi, k, j)
                        ==> marked@[j],
                forall|e: int|
                    0 <= e < d ==> (#[trigger] neighbour_at(wi, h as int, i as int, e) matches Some(
                        j,
                    ) ==> weak.contains(j) ==> marked@[j]),
            decreases 8 - d,
        {
            match neighbour(w, h, i, d) {
                Some(j) => {
                    if !marked[j] && img.pixels[j].r == WEAK_LEVEL {
                        proof {
                            lemma_count_false_set(marked@, j as int);
                            assert forall|s: Set<int>|
                                #[trigger] closed_in(wi, ni, weak, s) && strong.subset_of(
                                    s,
                                ) implies s.contains(j as int) by {
                                assert(s.contains(i as int));
                                assert(weak.contains(j as int));
                                assert(adjacent(wi, i as int, j as int));
                            }
                        }
                        let ghost before = stack@;
                        marked.set(j, true);
                        stack.push(j);
                        assert(stack@.last() == j);
                        assert forall|k: usize| before.contains(k) implies stack@.contains(k) by {
                            let t = choose|t: int| 0 <= t < before.len() && before[t] == k;
                            assert(stack@[t] == k);
                        }
                    }
                },
                None => {},
            }
            d += 1;
        }
        proof {
            assert forall|j: int| 0 <= j < n && #[trigger] weak.contains(j) && adjacent(
                wi,
                i as int,
                j,
            ) implies marked@[j] by {
                lemma_adjacent_is_neighbour(wi, h as int, i as int, j);
                let e = crate::grid::dir_to(wi, i as int, j);
                assert(neighbour_at(wi, h as int, i as int, e) == Some(j));
            }
        }
    }
    proof {
        let s = Set::new(|k: int| 0 <= k < ni && marked@[k]);
        assert(closed_in(wi, ni, weak, s));
        assert(strong.subset_of(s));
    }
    let mut k: usize = 0;
    while k < n
        invariant
            src.wf(),
            n == src.pixels@.len(),
            wi == src.width as int,
            ni == n as int,
            strong == strong_set(src),
            weak == weak_set(src),
            k <= n,
            img.width == src.width,
            img.height == src.height,
            img.pixels@.len() == n,
            marked@.len() == n,
            closed_in(wi, ni, weak, Set::new(|k: int| 0 <= k < ni && marked@[k])),
            strong.subset_of(Set::new(|k: int| 0 <= k < ni && marked@[k])),
            forall|k: int| 0 <= k < n && #[trigger] marked@[k] ==> reachable(wi, ni, weak, strong, k),
            forall|t: int|
                0 <= t < k ==> #[trigger] img.pixels@[t] == if linked(src, t) {
                    Rgba::grey_spec(255)
                } else {
                    Rgba::grey_spec(0)
                },
        decreases n - k,
    {
        proof {
            let s = Set::new(|k: int| 0 <= k < ni && marked@[k]);
            if linked(src, k as int) {
                assert(s.contains(k as int));
            }
        }
        if marked[k] {
            img.pixels.set(k, Rgba::white());
        } else {
            img.pixels.set(k, Rgba::black());
        }
        k += 1;
    }
}

/// The largest `k <= r` with `k * k <= n`.
pub open spec fn capped_sqrt(n: int, r: nat) -> nat
    decreases r,
{
    if r == 0 || r * r <= n {
        r
    } else {
        capped_sqrt(n, (r - 1) as nat)
    }
}

proof fn lemma_capped_sqrt(n: int, m: int, r: nat)
    requires
        crate::gradient::is_floor_sqrt(m, n),
    ensures
        capped_sqrt(n, r) == if m < r { m } else { r as int },
    decreases r,
{
    if r == 0 {
    } else if r * r <= n {
        assert(r <= m) by (nonlinear_arith)
            requires
                r * r <= n,
                n < (m + 1) * (m + 1),
                0 <= m,
        {
            if r > m {
                assert(r * r >= (m + 1) * (m + 1));
            }
        }
    } else {
        assert(m < r) by (nonlinear_arith)
            requires
                r * r > n,
                m * m <= n,
                0 <= m,
        {
            if m >= r {
                assert(m * m >= r * r);
            }
        }
        lemma_capped_sqrt(n, m, (r - 1) as nat);
    }
}

/// The pixel that Sobel thresholding writes at cell `i`: the gradient
/// magnitude `g`, rounded down and capped at 255, is compared with the
/// threshold; pixels in the first row or column are always black.
pub open spec fn sobel_pixel(img: Image, threshold: u8, use_g: bool, i: int) -> Rgba {
    let w = img.width as int;
    let x = col(w, i);
    let y = row(w, i);
    let g = capped_sqrt(grad_mag_sq(img, x, y), 255);
    if g >= threshold && x > 0 && y > 0 {
        if use_g {
            Rgba::grey_spec(g as u8)
        } else {
            Rgba::grey_spec(255)
        }
    } else {
        Rgba::grey_spec(0)
    }
}

/// Sobel edge image: where the gradient magnitude reaches `threshold`, the
/// pixel becomes grey of that magnitude (`use_g`) or white; elsewhere black.
pub fn sobel_threshold(img: &Image, threshold: u8, use_g: bool) -> (out: Image)
    requires
        img.wf(),
    ensures
        out.wf(),
        out.width == img.width,
        out.height == img.height,
        forall|i: int| 0 <= i < img.pixels@.len() ==> #[trigger] out.pixels@[i] == sobel_pixel(*img, threshold, use_g, i),
{
    let w = img.width;
    let h = img.height;
    let n = img.pixels.len();
    let mut pixels: Vec<Rgba> = Vec::with_capacity(n);
    let mut i: usize = 0;
    while i < n
        invariant
            img.wf(),
            w == img.width,
            h == img.height,
            n == img.pixels@.len(),
            i <= n,
            pixels@.len() == i,
            forall|k: int| 0 <= k < i ==> #[trigger] pixels@[k] == sobel_pixel(*img, threshold, use_g, k),
        decreases n - i,
    {
        proof {
            lemma_col_row(w as int, h as int, i as int);
        }
        let x = (i % (w as usize)) as u32;
        let y = (i / (w as usize)) as u32;
        let g = crate::gradient::gx_gy(img, x, y);
        let m = crate::gradient::edge_magnitude(g);
        proof {
            lemma_capped_sqrt(magnitude_sq(g), m as int, 255);
        }
        let level: u8 = if m > 255 { 255 } else { m as u8 };
        let p = if level >= threshold && x > 0 && y > 0 {
            if use_g {
                Rgba::grey(level)
            } else {
                Rgba::white()
            }
        } else {
            Rgba::black()
        };
        pixels.push(p);
        i += 1;
    }
    Image { width: w, height: h, pixels }
}

/// Sobel magnitudes as grey levels, with no threshold.
pub fn sobel(img: &Image) -> (out: Image)
    requires
        img.wf(),
    ensures
        out.wf(),
        out.width == img.width,
        out.height == img.height,
        forall|i: int| 0 <= i < img.pixels@.len() ==> #[trigger] out.pixels@[i] == sobel_pixel(*img, 0, true, i),
{
    sobel_threshold(img, 0, true)
}

/// Sobel edges in black and white, thresholded at 128.
pub fn sobel_default(img: &Image) -> (out: Image)
    requires
        img.wf(),
    ensures
        out.wf(),
        out.width == img.width,
        out.height == img.height,
        forall|i: int| 0 <= i < img.pixels@.len() ==> #[trigger] out.pixels@[i] == sobel_pixel(*img, 128, false, i),
{
    sobel_threshold(img, 128, false)
}

/// One visit of single-pass hysteresis at cell `c`: when `c` is strong, its
/// weak 8-neighbours turn white; otherwise nothing changes.
pub open spec fn promote_around(w: int, p: Seq<Rgba>, c: int) -> Seq<Rgba> {
    if p[c].r == 255 {
        Seq::new(
            p.len(),
            |j: int|
                if adjacent(w, c, j) && p[j].r == WEAK_LEVEL {
                    Rgba::grey_spec(255)
                } else {
                    p[j]
                },
        )
    } else {
        p
    }
}

/// The pixels after the first `k` visits of single-pass hysteresis on a
/// `w` x `h` image, visiting column by column: visit `v` is at column
/// `v / h` and row `v % h`, and each visit sees the promotions made before it.
pub open spec fn single_pass(w: int, h: int, p: Seq<Rgba>, k: nat) -> Seq<Rgba>
    decreases k,
{
    if k == 0 {
        p
    } else {
        let v = k - 1;
        promote_around(w, single_pass(w, h, p, (k - 1) as nat), flat(w, v / h, v % h))
    }
}

/// Single-pass hysteresis, a weaker variant kept for comparison with the
/// default `hysteresis`. Pixels are visited once, column by column, and each
/// pixel that is strong when visited turns its weak 8-neighbours strong. A
/// pixel promoted before its own visit passes the promotion on, but chains
/// of weak pixels that run against the scan order are linked only in part.
/// Weak pixels left unlinked keep their colour, so the result is not a
/// binary mask.
pub fn hysteresis_single_pass(img: &mut Image)
    requires
        old(img).wf(),
    ensures
        final(img).wf(),
        final(img).width == old(img).width,
        final(img).height == old(img).height,
        final(img).pixels@ == single_pass(
            old(img).width as int,
            old(img).height as int,
            old(img).pixels@,
            old(img).pixels@.len() as nat,
        ),
{
    let ghost src = *img;
    let w = img.width;
    let h = img.height;
    let n = img.pixels.len();
    let ghost wi = w as int;
    let ghost hi = h as int;
    let mut v: usize = 0;
    while v < n
        invariant
            src.wf(),
            w == src.width,
            h == src.height,
            wi == w as int,
            hi == h as int,
            n == src.pixels@.len(),
            v <= n,
            img.wf(),
            img.width == w,
            img.height == h,
            img.pixels@ == single_pass(wi, hi, src.pixels@, v as nat),
        decreases n - v,
    {
        proof {
            assert(wi * hi == hi * wi) by (nonlinear_arith);
            vstd::arithmetic::div_mod::lemma_multiply_divide_lt(v as int, hi, wi);
        }
        let x = (v / (h as usize)) as u32;
        let y = (v % (h as usize)) as u32;
        let c = img.index_of(x, y);
        let ghost prev = img.pixels@;
        proof {
            crate::raster::lemma_flat_in_bounds(wi, hi, x as int, y as int);
        }
        if img.pixels[c].r == 255 {
            let mut d: usize = 0;
            while d < 8
                invariant
                    wi == w as int,
                    hi == h as int,
                    n == wi * hi,
                    0 < w,
                    c < n,
                    prev.len() == n,
                    prev[c as int].r == 255,
                    d <= 8,
                    img.wf(),
                    img.width == w,
                    img.height == h,
                    forall|j: int|
                        0 <= j < n ==> #[trigger] img.pixels@[j] == if adjacent(wi, c as int, j)
                            && crate::grid::dir_to(wi, c as int, j) < d && prev[j].r == WEAK_LEVEL {
                            Rgba::grey_spec(255)
                        } else {
                            prev[j]
                        },
                decreases 8 - d,
            {
                match neighbour(w, h, c, d) {
                    Some(j) => {
                        proof {
                            crate::grid::lemma_neighbour_dir(wi, hi, c as int, d as int);
                        }
                        if img.pixels[j].r == WEAK_LEVEL {
                            img.pixels.set(j, Rgba::white());
                        }
                        proof {
                            assert forall|k: int| 0 <= k < n && adjacent(wi, c as int, k)
                                && crate::grid::dir_to(wi, c as int, k) == d implies k == j by {
                                lemma_adjacent_is_neighbour(wi, hi, c as int, k);
                            }
                        }
                    },
                    None => {
                        proof {
                            assert forall|k: int| 0 <= k < n && adjacent(wi, c as int, k)
                                implies crate::grid::dir_to(wi, c as int, k) != d by {
                                lemma_adjacent_is_neighbour(wi, hi, c as int, k);
                            }
                        }
                    },
                }
                d += 1;
            }
            proof {
                assert forall|k: int| 0 <= k < n && adjacent(wi, c as int, k)
                    implies crate::grid::dir_to(wi, c as int, k) < 8 by {
                    lemma_adjacent_is_neighbour(wi, hi, c as int, k);
                }
                assert(img.pixels@ =~= promote_around(wi, prev, c as int));
            }
        } else {
            assert(img.pixels@ =~= promote_around(wi, prev, c as int));
        }
        v += 1;
        assert(img.pixels@ == single_pass(wi, hi, src.pixels@, v as nat));
    }
}

} // verus!
