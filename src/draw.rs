use vstd::prelude::*;
use rand::Rng;
use crate::raster::{Image, Rgba, flat, lemma_flat_in_bounds};
use crate::trace::{cells_of, on_grid, views};

verus! {

/// Relies on `rand::Rng::gen_range` over `thread_rng()`: a value drawn from
/// the non-empty range `100..255`.
#[verifier::external_body]
fn random_channel() -> (v: u8)
    ensures
        100 <= v < 255,
{
    rand::thread_rng().gen_range(100..255)
}

/// A bright colour: each colour channel in `100..255`, opaque.
pub open spec fn bright(c: Rgba) -> bool {
    &&& 100 <= c.r < 255
    &&& 100 <= c.g < 255
    &&& 100 <= c.b < 255
    &&& c.a == 255
}

/// A random bright colour, to tell drawn lines apart.
pub fn random_col() -> (c: Rgba)
    ensures
        bright(c),
{
    let r = random_channel();
    let g = random_channel();
    let b = random_channel();
    Rgba { r, g, b, a: 255 }
}

/// Paints the points of `line` in `colour`.
pub fn line_to_img(img: &mut Image, line: &[(i32, i32)], colour: Rgba)
    requires
        old(img).wf(),
        on_grid(old(img).width as int, old(img).height as int, line@),
    ensures
        final(img).wf(),
        final(img).width == old(img).width,
        final(img).height == old(img).height,
        forall|i: int|
            0 <= i < old(img).pixels@.len() ==> #[trigger] final(img).pixels@[i] == if cells_of(
                old(img).width as int,
                line@,
            ).contains(i) {
                colour
            } else {
                old(img).pixels@[i]
            },
{
    let ghost src = *img;
    let ghost w = img.width as int;
    let mut t: usize = 0;
    while t < line.len()
        invariant
            src.wf(),
            w == src.width as int,
            on_grid(src.width as int, src.height as int, line@),
            img.wf(),
            img.width == src.width,
            img.height == src.height,
            t <= line@.len(),
            forall|i: int|
                0 <= i < src.pixels@.len() ==> #[trigger] img.pixels@[i] == if cells_of(
                    w,
                    line@.subrange(0, t as int),
                ).contains(i) {
                    colour
                } else {
                    src.pixels@[i]
                },
        decreases line@.len() - t,
    {
        let p = line[t];
        let ghost before = cells_of(w, line@.subrange(0, t as int));
        img.put_pixel(p.0 as u32, p.1 as u32, colour);
        t += 1;
        proof {
            let after = cells_of(w, line@.subrange(0, t as int));
            assert(after =~= before.push(flat(w, p.0 as int, p.1 as int)));
            lemma_flat_in_bounds(w, src.height as int, p.0 as int, p.1 as int);
            assert forall|i: int| 0 <= i < src.pixels@.len() implies #[trigger] img.pixels@[i] == if after.contains(i) {
                colour
            } else {
                src.pixels@[i]
            } by {
                if i == flat(w, p.0 as int, p.1 as int) {
                    assert(after[after.len() - 1] == i);
                } else if after.contains(i) {
                    let k = choose|k: int| 0 <= k < after.len() && after[k] == i;
                    assert(before[k] == i);
                } else if before.contains(i) {
                    let k = choose|k: int| 0 <= k < before.len() && before[k] == i;
                    assert(after[k] == i);
                }
            }
        }
    }
    assert(line@.subrange(0, line@.len() as int) =~= line@);
}

/// The colour of cell `i` after painting the first `k` lines, each in its
/// own colour, over black: the colour of the last of them that covers it.
pub open spec fn painted(w: int, lines: Seq<Seq<(i32, i32)>>, colours: Seq<Rgba>, k: int, i: int) -> Rgba
    decreases k,
{
    if k <= 0 {
        Rgba::grey_spec(0)
    } else if cells_of(w, lines[k - 1]).contains(i) {
        colours[k - 1]
    } else {
        painted(w, lines, colours, k - 1, i)
    }
}

/// The largest coordinate on `axis` (0 for `x`, 1 for `y`) among the first
/// `k` points, and 0 when none is larger.
pub open spec fn points_max(pts: Seq<(i32, i32)>, axis: int, k: int) -> int
    decreases k,
{
    if k <= 0 {
        0
    } else {
        let v = if axis == 0 { pts[k - 1].0 as int } else { pts[k - 1].1 as int };
        let m = points_max(pts, axis, k - 1);
        if v > m { v } else { m }
    }
}

/// The largest coordinate on `axis` over the first `k` lines.
pub open spec fn lines_max(lines: Seq<Seq<(i32, i32)>>, axis: int, k: int) -> int
    decreases k,
{
    if k <= 0 {
        0
    } else {
        let v = points_max(lines[k - 1], axis, lines[k - 1].len() as int);
        let m = lines_max(lines, axis, k - 1);
        if v > m { v } else { m }
    }
}

/// The margin left right of and below the drawn lines.
pub const CANVAS_MARGIN: u32 = 50;

fn canvas_extent(lines: &[Vec<(i32, i32)>], axis: usize) -> (m: i32)
    requires
        axis < 2,
    ensures
        m as int == lines_max(views(lines@), axis as int, lines@.len() as int),
        m >= 0,
{
    let ghost ls = views(lines@);
    let mut m: i32 = 0;
    let mut a: usize = 0;
    while a < lines.len()
        invariant
            ls == views(lines@),
            axis < 2,
            a <= lines@.len(),
            m as int == lines_max(ls, axis as int, a as int),
            m >= 0,
        decreases lines@.len() - a,
    {
        let line = &lines[a];
        let mut pm: i32 = 0;
        let mut t: usize = 0;
        while t < line.len()
            invariant
                ls == views(lines@),
                a < lines@.len(),
                line@ == ls[a as int],
                axis < 2,
                t <= line@.len(),
                pm as int == points_max(line@, axis as int, t as int),
                pm >= 0,
            decreases line@.len() - t,
        {
            let v = if axis == 0 { line[t].0 } else { line[t].1 };
            if v > pm {
                pm = v;
            }
            t += 1;
        }
        if pm > m {
            m = pm;
        }
        a += 1;
    }
    m
}

/// Paints each line in its own colour on a black canvas just large enough
/// for all of them, with a margin of `CANVAS_MARGIN` pixels; later lines
/// paint over earlier ones.
pub fn paint_lines(lines: &[Vec<(i32, i32)>], colours: &[Rgba]) -> (img: Image)
    requires
        colours@.len() == lines@.len(),
        forall|a: int, t: int|
            0 <= a < lines@.len() && 0 <= t < lines@[a]@.len() ==> 0 <= (#[trigger] lines@[a]@[t]).0 && 0
                <= lines@[a]@[t].1,
        (lines_max(views(lines@), 0, lines@.len() as int) + CANVAS_MARGIN) * (lines_max(
            views(lines@),
            1,
            lines@.len() as int,
        ) + CANVAS_MARGIN) <= usize::MAX,
    ensures
        img.wf(),
        img.width == lines_max(views(lines@), 0, lines@.len() as int) + CANVAS_MARGIN,
        img.height == lines_max(views(lines@), 1, lines@.len() as int) + CANVAS_MARGIN,
        forall|i: int|
            0 <= i < img.pixels@.len() ==> #[trigger] img.pixels@[i] == painted(
                img.width as int,
                views(lines@),
                colours@,
                lines@.len() as int,
                i,
            ),
{
    let ghost ls = views(lines@);
    let mx = canvas_extent(lines, 0);
    let my = canvas_extent(lines, 1);
    let mut img = Image::new(mx as u32 + CANVAS_MARGIN, my as u32 + CANVAS_MARGIN, Rgba::black());
    let ghost w = img.width as int;
    let mut a: usize = 0;
    while a < lines.len()
        invariant
            ls == views(lines@),
            colours@.len() == lines@.len(),
            forall|b: int, t: int|
                0 <= b < lines@.len() && 0 <= t < lines@[b]@.len() ==> 0 <= (#[trigger] lines@[b]@[t]).0
                    && 0 <= lines@[b]@[t].1,
            img.wf(),
            w == img.width as int,
            img.width == lines_max(ls, 0, lines@.len() as int) + CANVAS_MARGIN,
            img.height == lines_max(ls, 1, lines@.len() as int) + CANVAS_MARGIN,
            a <= lines@.len(),
            forall|i: int| 0 <= i < img.pixels@.len() ==> #[trigger] img.pixels@[i] == painted(w, ls, colours@, a as int, i),
        decreases lines@.len() - a,
    {
        proof {
            assert forall|t: int| 0 <= t < ls[a as int].len() implies 0 <= (#[trigger] ls[a as int][t]).0 < img.width
                && 0 <= ls[a as int][t].1 < img.height by {
                lemma_points_below(ls, a as int, t, lines@.len() as int);
            }
        }
        line_to_img(&mut img, lines[a].as_slice(), colours[a]);
        a += 1;
    }
    img
}

proof fn lemma_points_below(ls: Seq<Seq<(i32, i32)>>, a: int, t: int, k: int)
    requires
        0 <= a < k <= ls.len(),
        0 <= t < ls[a].len(),
    ensures
        ls[a][t].0 <= lines_max(ls, 0, k),
        ls[a][t].1 <= lines_max(ls, 1, k),
    decreases k,
{
    if a < k - 1 {
        lemma_points_below(ls, a, t, k - 1);
    } else {
        lemma_point_below(ls[a], t, ls[a].len() as int);
    }
}

proof fn lemma_point_below(pts: Seq<(i32, i32)>, t: int, k: int)
    requires
        0 <= t < k <= pts.len(),
    ensures
        pts[t].0 <= points_max(pts, 0, k),
        pts[t].1 <= points_max(pts, 1, k),
    decreases k,
{
    if t < k - 1 {
        lemma_point_below(pts, t, k - 1);
    }
}

/// `img` shows `lines` painted over black, each in a bright colour of its own.
pub open spec fn drawn_with(img: Image, lines: Seq<Seq<(i32, i32)>>, colours: Seq<Rgba>) -> bool {
    &&& colours.len() == lines.len()
    &&& forall|a: int| 0 <= a < colours.len() ==> bright(#[trigger] colours[a])
    &&& forall|i: int|
        0 <= i < img.pixels@.len() ==> #[trigger] img.pixels@[i] == painted(
            img.width as int,
            lines,
            colours,
            lines.len() as int,
            i,
        )
}

/// Draws the lines, each in a random bright colour, for a visual check of
/// the traced chains.
pub fn lines_to_img(lines: &[Vec<(i32, i32)>]) -> (img: Image)
    requires
        forall|a: int, t: int|
            0 <= a < lines@.len() && 0 <= t < lines@[a]@.len() ==> 0 <= (#[trigger] lines@[a]@[t]).0 && 0
                <= lines@[a]@[t].1,
        (lines_max(views(lines@), 0, lines@.len() as int) + CANVAS_MARGIN) * (lines_max(
            views(lines@),
            1,
            lines@.len() as int,
        ) + CANVAS_MARGIN) <= usize::MAX,
    ensures
        img.wf(),
        img.width == lines_max(views(lines@), 0, lines@.len() as int) + CANVAS_MARGIN,
        img.height == lines_max(views(lines@), 1, lines@.len() as int) + CANVAS_MARGIN,
        exists|colours: Seq<Rgba>| #[trigger] drawn_with(img, views(lines@), colours),
{
    let mut colours: Vec<Rgba> = Vec::new();
    let mut a: usize = 0;
    while a < lines.len()
        invariant
            a <= lines@.len(),
            colours@.len() == a,
            forall|b: int| 0 <= b < a ==> bright(#[trigger] colours@[b]),
        decreases lines@.len() - a,
    {
        colours.push(random_col());
        a += 1;
    }
    let img = paint_lines(lines, colours.as_slice());
    assert(drawn_with(img, views(lines@), colours@));
    img
}

} // verus!
