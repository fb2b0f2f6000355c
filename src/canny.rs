use vstd::prelude::*;
use crate::raster::{Image, Rgba, grey_of, grayscale};
use crate::blur::{blurred, gaussian_5x5_weights, gaussian_blur_5x5};
use crate::edges::{
    suppressed,
    thresholded,
    linked_mask,
    non_maximum_suppression,
    double_threshold,
    hysteresis,
};

verus! {

/// Why edge detection refused to start.
#[derive(Clone, Copy, Debug, PartialEq, Eq, Structural)]
pub enum EdgeError {
    /// The thresholds are not ordered: `low >= high`.
    Configuration,
    /// The image has no pixels: zero width or zero height.
    EmptyInput,
}

/// `edges` is the Canny edge mask of `img` for thresholds `low` and `high`:
/// luma, 5x5 Gaussian blur, non-maximum suppression, double threshold and
/// hysteresis, in that order.
pub open spec fn canny_of(img: Image, low: u8, high: u8, edges: Image) -> bool {
    exists|g: Image, b: Image, s: Image, t: Image|
        #![trigger grey_of(img, g), blurred(g, gaussian_5x5_weights(), 5, 273, b), suppressed(b, s), thresholded(s, low, high, t)]
        grey_of(img, g) && blurred(g, gaussian_5x5_weights(), 5, 273, b) && suppressed(b, s)
            && thresholded(s, low, high, t) && linked_mask(t, edges)
}

/// Canny edge detection. Fails with `Configuration` when `low >= high` and
/// with `EmptyInput` on an image without pixels, in both cases before any
/// pixel is read; otherwise returns the binary edge mask, edges white.
pub fn canny(img: &Image, low_threshold: u8, high_threshold: u8) -> (r: Result<Image, EdgeError>)
    requires
        img.wf(),
    ensures
        low_threshold >= high_threshold ==> r == Err::<Image, EdgeError>(EdgeError::Configuration),
        low_threshold < high_threshold && (img.width == 0 || img.height == 0) ==> r == Err::<
            Image,
            EdgeError,
        >(EdgeError::EmptyInput),
        low_threshold < high_threshold && img.width > 0 && img.height > 0 ==> (r matches Ok(edges)
            && canny_of(*img, low_threshold, high_threshold, edges)),
{
    if low_threshold >= high_threshold {
        return Err(EdgeError::Configuration);
    }
    if img.width == 0 || img.height == 0 {
        return Err(EdgeError::EmptyInput);
    }
    let grey = grayscale(img);
    let mut work = gaussian_blur_5x5(&grey);
    let ghost b = work;
    non_maximum_suppression(&mut work);
    let ghost s = work;
    double_threshold(&mut work, (low_threshold, high_threshold));
    let ghost t = work;
    hysteresis(&mut work);
    assert(grey_of(*img, grey) && blurred(grey, gaussian_5x5_weights(), 5, 273, b) && suppressed(b, s)
        && thresholded(s, low_threshold, high_threshold, t) && linked_mask(t, work));
    Ok(work)
}

/// The edge image is binary: every pixel is white or black, and it has the
/// size of the input.
pub proof fn lemma_canny_binary(img: Image, low: u8, high: u8, edges: Image)
    requires
        img.wf(),
        canny_of(img, low, high, edges),
    ensures
        edges.wf(),
        edges.width == img.width,
        edges.height == img.height,
        forall|i: int|
            0 <= i < edges.pixels@.len() ==> #[trigger] edges.pixels@[i] == Rgba::grey_spec(255)
                || edges.pixels@[i] == Rgba::grey_spec(0),
{
    let (g, b, s, t) = choose|g: Image, b: Image, s: Image, t: Image|
        #![trigger grey_of(img, g), blurred(g, gaussian_5x5_weights(), 5, 273, b), suppressed(b, s), thresholded(s, low, high, t)]
        grey_of(img, g) && blurred(g, gaussian_5x5_weights(), 5, 273, b) && suppressed(b, s)
            && thresholded(s, low, high, t) && linked_mask(t, edges);
    assert forall|i: int| 0 <= i < edges.pixels@.len() implies #[trigger] edges.pixels@[i] == Rgba::grey_spec(255)
        || edges.pixels@[i] == Rgba::grey_spec(0) by {
        assert(0 <= i < t.pixels@.len());
    }
}

} // verus!
