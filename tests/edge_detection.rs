use line_to_equation::{
    apply_kernel, canny, classify, double_threshold, edge_magnitude, gaussian_blur_3x3,
    gaussian_blur_5x5, gaussian_blur_7x7, grayscale, gx_gy, hysteresis, intensity_gradient,
    non_maximum_suppression, pixel_dir_offsets, sobel, sobel_default, sobel_threshold, EdgeClass,
    EdgeError, Image, Kernel, Rgba,
};
use std::f64::consts::PI;

fn grey(v: u8) -> Rgba {
    Rgba { r: v, g: v, b: v, a: 255 }
}

fn image_from(width: u32, height: u32, f: impl Fn(u32, u32) -> Rgba) -> Image {
    let mut img = Image::new(width, height, grey(0));
    for y in 0..height {
        for x in 0..width {
            img.put_pixel(x, y, f(x, y));
        }
    }
    img
}

#[test]
fn test_gx_gy() {
    let img = image_from(3, 3, |x, y| Rgba { r: x as u8 * y as u8, g: 0, b: 0, a: 0 });
    let img = grayscale(&img);

    let (gx, gy) = gx_gy(&img, 1, 1);
    assert_eq!(gx, 0);
    assert_eq!(gy, 0);
}

#[test]
fn test_edge_magnitude() {
    let magnitude = edge_magnitude((3, 4)) as f64;
    assert!((magnitude - 5.0).abs() < 1e-10);

    let magnitude = edge_magnitude((0, 0)) as f64;
    assert!((magnitude - 0.0).abs() < 1e-10);

    let magnitude = edge_magnitude((5, 12)) as f64;
    assert!((magnitude - 13.0).abs() < 1e-10);
}

#[test]
fn test_intensity_gradient() {
    let img = image_from(3, 3, |x, y| Rgba { r: x as u8 * y as u8, g: 0, b: 0, a: 0 });
    let img = grayscale(&img);

    let gradient = intensity_gradient(&img);
    assert_eq!(gradient.len(), 3);
    assert_eq!(gradient[0].len(), 3);

    for x in 0..3 {
        for y in 0..3 {
            let (gx, gy) = gradient[x as usize][y as usize];
            let magnitude = edge_magnitude((gx, gy)) as f64;
            let direction = (gy as f64).atan2(gx as f64);
            assert!(magnitude >= 0.0);
            assert!((-PI..=PI).contains(&direction));
        }
    }
}

#[test]
fn test_pixel_dir_offset_right() {
    let (offset_x, offset_y) = pixel_dir_offsets(0);
    assert_eq!(offset_x, (1, 0));
    assert_eq!(offset_y, (-1, 0));
}

#[test]
fn sobel_kernels_on_ramps() {
    // intensity rises by 10 per column: inside, gx = 4 * (20 - 0) = 80
    let img = image_from(5, 4, |x, _| grey(10 * x as u8));
    assert_eq!(gx_gy(&img, 2, 1), (80, 0));
    // at the left border the west column is clamped onto the pixel itself
    assert_eq!(gx_gy(&img, 0, 1), (40, 0));
    let img = image_from(4, 5, |_, y| grey(10 * y as u8));
    assert_eq!(gx_gy(&img, 1, 2), (0, 80));
    assert_eq!(gx_gy(&img, 1, 4), (0, 40));
}

#[test]
fn constant_image_has_zero_gradient() {
    let img = image_from(4, 3, |_, _| grey(77));
    let field = intensity_gradient(&img);
    for column in field.iter() {
        for g in column.iter() {
            assert_eq!(*g, (0, 0));
        }
    }
    let one = image_from(1, 1, |_, _| grey(200));
    assert_eq!(gx_gy(&one, 0, 0), (0, 0));
}

#[test]
fn edge_magnitude_rounds_down() {
    assert_eq!(edge_magnitude((1, 1)), 1);
    assert_eq!(edge_magnitude((-6, 8)), 10);
    assert_eq!(edge_magnitude((1020, 1020)), 1442);
}

#[test]
fn direction_offsets_by_sector() {
    assert_eq!(pixel_dir_offsets(0), ((1, 0), (-1, 0)));
    assert_eq!(pixel_dir_offsets(45), ((1, -1), (-1, 1)));
    assert_eq!(pixel_dir_offsets(90), ((0, -1), (0, 1)));
    assert_eq!(pixel_dir_offsets(135), ((-1, -1), (1, 1)));
    assert_eq!(pixel_dir_offsets(22), ((1, 0), (-1, 0)));
    assert_eq!(pixel_dir_offsets(23), ((1, -1), (-1, 1)));
    assert_eq!(pixel_dir_offsets(158), ((1, 0), (-1, 0)));
}

#[test]
fn direction_offsets_repeat_every_half_turn() {
    for a in -400..400 {
        assert_eq!(pixel_dir_offsets(a), pixel_dir_offsets(a + 180));
    }
    assert_eq!(pixel_dir_offsets(180), ((1, 0), (-1, 0)));
    assert_eq!(pixel_dir_offsets(225), ((1, -1), (-1, 1)));
    assert_eq!(pixel_dir_offsets(-45), ((-1, -1), (1, 1)));
}

#[test]
fn classes_of_double_threshold() {
    assert_eq!(classify(200, 50, 150), EdgeClass::Strong);
    assert_eq!(classify(100, 50, 150), EdgeClass::Weak);
    assert_eq!(classify(20, 50, 150), EdgeClass::Suppressed);
    assert_eq!(classify(150, 50, 150), EdgeClass::Strong);
    assert_eq!(classify(50, 50, 150), EdgeClass::Suppressed);
}

#[test]
fn double_threshold_colours() {
    let levels = [200u8, 100, 20];
    let mut img = image_from(3, 1, |x, _| grey(levels[x as usize]));
    double_threshold(&mut img, (50, 150));
    assert_eq!(img.get_pixel(0, 0), grey(255));
    assert_eq!(img.get_pixel(1, 0), Rgba { r: 128, g: 128, b: 0, a: 255 });
    assert_eq!(img.get_pixel(2, 0), grey(0));
}

#[test]
fn hysteresis_links_weak_chains() {
    let weak = Rgba { r: 128, g: 128, b: 0, a: 255 };
    // a strong pixel, a chain of four weak pixels, a gap, an isolated weak pixel
    let mut img = image_from(8, 2, |x, y| match (x, y) {
        (0, 0) => grey(255),
        (1, 0) | (2, 1) | (3, 0) | (4, 1) => weak,
        (7, 0) => weak,
        _ => grey(0),
    });
    hysteresis(&mut img);
    for (x, y) in [(0, 0), (1, 0), (2, 1), (3, 0), (4, 1)] {
        assert_eq!(img.get_pixel(x, y), grey(255));
    }
    assert_eq!(img.get_pixel(7, 0), grey(0));
    assert_eq!(img.get_pixel(5, 0), grey(0));
}

#[test]
fn non_maximum_suppression_thins_a_ridge() {
    // a vertical ridge at x = 2: the gradient is horizontal, so each pixel is
    // compared with its left and right neighbours
    let mut img = image_from(5, 3, |x, _| grey([0u8, 50, 100, 50, 0][x as usize]));
    non_maximum_suppression(&mut img);
    // magnitudes per column: 200, 400, 0, 400, 200 (columns 0 and 4 are borders)
    assert_eq!(img.get_pixel(0, 1), grey(0));
    assert_eq!(img.get_pixel(1, 1), grey(50));
    assert_eq!(img.get_pixel(2, 1), grey(0));
    assert_eq!(img.get_pixel(3, 1), grey(50));
    assert_eq!(img.get_pixel(4, 1), grey(0));
}

#[test]
fn blur_keeps_a_constant_image() {
    let img = image_from(6, 5, |_, _| Rgba { r: 90, g: 20, b: 255, a: 7 });
    for out in [gaussian_blur_3x3(&img), gaussian_blur_5x5(&img), gaussian_blur_7x7(&img)] {
        for y in 0..5 {
            for x in 0..6 {
                assert_eq!(out.get_pixel(x, y), Rgba { r: 90, g: 20, b: 255, a: 7 });
            }
        }
    }
}

#[test]
fn blur_spreads_a_single_pixel() {
    let img = image_from(3, 3, |x, y| if (x, y) == (1, 1) { grey(160) } else { grey(0) });
    let out = gaussian_blur_3x3(&img);
    assert_eq!(out.get_pixel(1, 1).r, 40);
    assert_eq!(out.get_pixel(0, 1).r, 20);
    assert_eq!(out.get_pixel(0, 0).r, 10);
    let kernel = Kernel { size: 1, weights: vec![3], divisor: 2 };
    let out = apply_kernel(&img, &kernel);
    assert_eq!(out.get_pixel(1, 1).r, 240);
    assert_eq!(apply_kernel(&image_from(1, 1, |_, _| grey(200)), &kernel).get_pixel(0, 0), grey(255));
}

#[test]
fn luma_weights() {
    let img = image_from(1, 1, |_, _| Rgba { r: 10, g: 200, b: 30, a: 9 });
    assert_eq!(grayscale(&img).get_pixel(0, 0), Rgba { r: 147, g: 147, b: 147, a: 9 });
}

#[test]
fn sobel_thresholds() {
    let img = image_from(4, 3, |x, _| if x >= 2 { grey(200) } else { grey(0) });
    let g = sobel(&img);
    // gx at columns 1 and 2 is 4 * 200 = 800, capped to 255; the first column
    // and row are always black
    assert_eq!(g.get_pixel(1, 1), grey(255));
    assert_eq!(g.get_pixel(2, 1), grey(255));
    assert_eq!(g.get_pixel(3, 1), grey(0));
    assert_eq!(g.get_pixel(1, 0), grey(0));
    assert_eq!(g.get_pixel(0, 1), grey(0));
    let soft = image_from(4, 3, |x, _| if x >= 2 { grey(25) } else { grey(0) });
    assert_eq!(sobel(&soft).get_pixel(1, 1), grey(100));
    assert_eq!(sobel_default(&soft).get_pixel(1, 1), grey(0));
    assert_eq!(sobel_threshold(&soft, 100, false).get_pixel(1, 1), grey(255));
    assert_eq!(sobel_threshold(&soft, 101, true).get_pixel(1, 1), grey(0));
}

#[test]
fn canny_rejects_unordered_thresholds() {
    let img = image_from(3, 3, |_, _| grey(10));
    assert_eq!(canny(&img, 150, 50).err(), Some(EdgeError::Configuration));
    assert_eq!(canny(&img, 80, 80).err(), Some(EdgeError::Configuration));
    let empty = Image::new(0, 4, grey(0));
    assert_eq!(canny(&empty, 150, 50).err(), Some(EdgeError::Configuration));
    assert_eq!(canny(&empty, 50, 150).err(), Some(EdgeError::EmptyInput));
}

#[test]
fn canny_finds_a_step_edge() {
    let img = image_from(12, 10, |x, _| if x >= 6 { grey(255) } else { grey(0) });
    let edges = canny(&img, 85, 255).ok().unwrap();
    assert_eq!((edges.width, edges.height), (12, 10));
    let mut white = 0;
    for y in 0..10 {
        for x in 0..12 {
            let p = edges.get_pixel(x, y);
            assert!(p == grey(0) || p == grey(255));
            if p == grey(255) {
                white += 1;
                assert!(x >= 4);
            }
        }
    }
    assert!(white > 0);
    let flat = image_from(6, 6, |_, _| grey(120));
    let edges = canny(&flat, 50, 150).ok().unwrap();
    assert!(edges.pixels.iter().all(|p| *p == grey(0)));
}

#[test]
fn single_pass_hysteresis_links_only_along_the_scan() {
    let weak = Rgba { r: 128, g: 128, b: 0, a: 255 };
    let mut forward = image_from(4, 1, |x, _| if x == 0 { grey(255) } else if x < 3 { weak } else { grey(0) });
    line_to_equation::hysteresis_single_pass(&mut forward);
    assert_eq!(forward.pixels, vec![grey(255), grey(255), grey(255), grey(0)]);

    let backward = image_from(4, 1, |x, _| if x == 3 { grey(255) } else if x >= 1 { weak } else { grey(0) });
    let mut single = image_from(4, 1, |x, y| backward.get_pixel(x, y));
    line_to_equation::hysteresis_single_pass(&mut single);
    assert_eq!(single.pixels, vec![grey(0), weak, grey(255), grey(255)]);
    let mut full = image_from(4, 1, |x, y| backward.get_pixel(x, y));
    hysteresis(&mut full);
    assert_eq!(full.pixels, vec![grey(0), grey(255), grey(255), grey(255)]);
}

#[test]
fn kernel_major_index_runs_along_x() {
    // weight 1 sits at horizontal offset 0 and vertical offset 1 of the 3x3
    // kernel: it samples the pixel one to the left, on the same row
    let img = image_from(3, 3, |x, y| if (x, y) == (0, 1) { Rgba { r: 100, g: 0, b: 0, a: 255 } } else { Rgba { r: 0, g: 0, b: 0, a: 255 } });
    let kernel = Kernel { size: 3, weights: vec![0, 1, 0, 0, 0, 0, 0, 0, 0], divisor: 1 };
    let out = apply_kernel(&img, &kernel);
    assert_eq!(out.get_pixel(1, 1).r, 100);
    assert_eq!(out.get_pixel(0, 2).r, 0);
    assert_eq!(out.get_pixel(1, 0).r, 0);
}
