use line_to_equation::{
    dfs, edges_to_lines, edges_to_lines_b, edges_to_lines_w, first_col, first_col_from,
    img_to_bool, line_to_img, lines_to_img, paint_lines, random_col, Image, Mask, Rgba,
};

fn grey(v: u8) -> Rgba {
    Rgba { r: v, g: v, b: v, a: 255 }
}

fn image_with(width: u32, height: u32, white: &[(u32, u32)]) -> Image {
    let mut img = Image::new(width, height, grey(0));
    for &(x, y) in white {
        img.put_pixel(x, y, grey(255));
    }
    img
}

#[test]
fn isolated_pixel_yields_no_chain() {
    let img = image_with(5, 5, &[(2, 3)]);
    assert!(edges_to_lines_w(&img).is_empty());
    let mut mask = img_to_bool(&img, grey(255));
    let mut path = vec![];
    dfs(2, 3, &mut mask, &mut path);
    assert_eq!(path, vec![(2, 3)]);
    assert!(mask.cells.iter().all(|c| !c));
}

#[test]
fn horizontal_run_is_one_chain() {
    let run: Vec<(u32, u32)> = (3..23).map(|x| (x, 4)).collect();
    let img = image_with(30, 8, &run);
    let lines = edges_to_lines_w(&img);
    assert_eq!(lines.len(), 1);
    let expected: Vec<(i32, i32)> = (3..23).map(|x| (x, 4)).collect();
    assert_eq!(lines[0], expected);
}

#[test]
fn short_chains_are_dropped() {
    // sixteen points: not more than the minimum
    let run: Vec<(u32, u32)> = (0..16).map(|x| (x, 0)).collect();
    assert!(edges_to_lines_w(&image_with(20, 2, &run)).is_empty());
    let run: Vec<(u32, u32)> = (0..17).map(|x| (x, 0)).collect();
    assert_eq!(edges_to_lines_w(&image_with(20, 2, &run)).len(), 1);
}

#[test]
fn backtracking_repeats_cells() {
    // a T: the stem is reached from the bar's middle after the bar's end
    let mut mask = Mask { width: 3, height: 3, cells: vec![false; 9] };
    for (x, y) in [(0, 0), (1, 0), (2, 0), (1, 1), (1, 2)] {
        mask.cells[y * 3 + x] = true;
    }
    let mut path = vec![(9, 9)];
    dfs(0, 0, &mut mask, &mut path);
    // (0,0) -> E (1,0) -> E (2,0) -> SW (1,1) -> S (1,2)
    assert_eq!(path, vec![(9, 9), (0, 0), (1, 0), (2, 0), (1, 1), (1, 2)]);
    let mut mask = Mask { width: 3, height: 3, cells: vec![false; 9] };
    for (x, y) in [(1, 0), (0, 1), (2, 1)] {
        mask.cells[y * 3 + x] = true;
    }
    let mut path = vec![];
    dfs(1, 0, &mut mask, &mut path);
    // (1,0) -> SW (0,1), back to (1,0), -> SE (2,1)
    assert_eq!(path, vec![(1, 0), (0, 1), (1, 0), (2, 1)]);
}

#[test]
fn dfs_outside_or_on_background_does_nothing() {
    let mut mask = Mask { width: 2, height: 2, cells: vec![true, false, false, true] };
    let mut path = vec![];
    dfs(-1, 0, &mut mask, &mut path);
    dfs(1, 0, &mut mask, &mut path);
    dfs(0, 2, &mut mask, &mut path);
    assert!(path.is_empty());
    assert_eq!(mask.cells, vec![true, false, false, true]);
}

#[test]
fn chains_follow_scan_order_and_stay_apart() {
    let mut pts: Vec<(u32, u32)> = (0..20).map(|y| (1, y)).collect();
    pts.extend((5..25).map(|x| (x, 10)));
    let img = image_with(30, 20, &pts);
    let lines = edges_to_lines(&img, grey(255));
    assert_eq!(lines.len(), 2);
    assert_eq!(lines[0][0], (1, 0));
    assert_eq!(lines[0].len(), 20);
    assert_eq!(lines[1][0], (5, 10));
    assert_eq!(lines[1].len(), 20);
    for p in lines[0].iter() {
        assert!(!lines[1].contains(p));
    }
}

#[test]
fn black_chains() {
    let mut img = Image::new(20, 3, grey(255));
    for x in 0..20 {
        img.put_pixel(x, 1, grey(0));
    }
    let lines = edges_to_lines_b(&img);
    assert_eq!(lines.len(), 1);
    assert_eq!(lines[0].len(), 20);
}

#[test]
fn colour_mask() {
    let img = image_with(2, 2, &[(1, 0)]);
    let m = img_to_bool(&img, grey(255));
    assert_eq!(m.cells, vec![false, true, false, false]);
    let m = img_to_bool(&img, grey(0));
    assert_eq!(m.cells, vec![true, false, true, true]);
}

#[test]
fn colour_search() {
    let img = image_with(4, 4, &[(2, 1), (1, 3), (3, 0)]);
    assert_eq!(first_col(&img, grey(255)), Some((1, 3)));
    assert_eq!(first_col_from(&img, grey(255), (2, 1)), Some((2, 1)));
    assert_eq!(first_col_from(&img, grey(255), (2, 2)), None);
    assert_eq!(first_col(&img, grey(7)), None);
}

#[test]
fn drawing_lines() {
    let c = random_col();
    assert!((100..255).contains(&c.r) && (100..255).contains(&c.g) && (100..255).contains(&c.b));
    assert_eq!(c.a, 255);

    let lines = vec![vec![(0, 0), (1, 1)], vec![(1, 1), (3, 2)]];
    let red = Rgba { r: 200, g: 0, b: 0, a: 255 };
    let blue = Rgba { r: 0, g: 0, b: 200, a: 255 };
    let img = paint_lines(&lines, &[red, blue]);
    assert_eq!((img.width, img.height), (53, 52));
    assert_eq!(img.get_pixel(0, 0), red);
    assert_eq!(img.get_pixel(1, 1), blue);
    assert_eq!(img.get_pixel(3, 2), blue);
    assert_eq!(img.get_pixel(2, 2), grey(0));

    let img = lines_to_img(&lines);
    assert_eq!((img.width, img.height), (53, 52));
    let p = img.get_pixel(3, 2);
    assert!(p.r >= 100 && p.g >= 100 && p.b >= 100);
    assert_eq!(img.get_pixel(10, 10), grey(0));

    let mut canvas = Image::new(2, 2, grey(0));
    line_to_img(&mut canvas, &[(1, 0)], red);
    assert_eq!(canvas.pixels, vec![grey(0), red, grey(0), grey(0)]);
}
