//! Edge extraction and epicycle curve fitting for raster images.
//!
//! The pipeline runs strictly forward: an RGBA image is reduced to luma,
//! blurred, turned into a Sobel gradient field, thinned by non-maximum
//! suppression, classified by a double threshold and linked by hysteresis.
//! The resulting binary mask is traced into ordered 8-connected pixel
//! chains, and each chain is closed and laid out for a discrete Fourier
//! fit whose terms are written as an equation.

pub mod raster;
pub mod grid;
pub mod gradient;
pub mod edges;
pub mod blur;
pub mod canny;
pub mod trace;
pub mod shorten;
pub mod draw;
pub mod fourier;

pub use raster::{Image, Rgba, grayscale, first_col, first_col_from};
pub use gradient::{gx_gy, edge_magnitude, intensity_gradient, pixel_dir_offsets, direction_sector};
pub use edges::{
    EdgeClass, classify, non_maximum_suppression, double_threshold, hysteresis, hysteresis_single_pass,
    sobel_threshold,
    sobel, sobel_default,
};
pub use blur::{Kernel, apply_kernel, gaussian_blur, gaussian_blur_3x3, gaussian_blur_5x5, gaussian_blur_7x7};
pub use canny::{EdgeError, canny};
pub use trace::{Mask, dfs, img_to_bool, edges_to_lines, edges_to_lines_w, edges_to_lines_b};
pub use shorten::{is_palindrome, remove_end_palindrome, remove_start_palindrome};
pub use draw::{random_col, line_to_img, paint_lines, lines_to_img};
pub use fourier::{construct_equation, closed_samples, frequency_count};
