//! Dominant-colour extraction with three classic quantisation algorithms:
//! k-means clustering, median cut and octree quantisation.

use vstd::prelude::*;

pub mod algorithms;
mod color;
mod error;
pub mod installer;
pub mod wasm;

pub use color::{mean_color, Color, Pixel, MAX_PIXELS};
pub use error::DominantColorError;

use algorithms::{extracted, reports_empty, sort_palette, sorted_by_count, algorithm_palette, lemma_sort_by_count};
use color::total_count;

verus! {

/// The algorithm that extracts the dominant colours.
#[derive(Debug, Clone, Copy, PartialEq, Eq, Structural)]
pub enum Algorithm {
    /// K-means clustering: iteratively refines colour centroids.  Seeded
    /// randomly, so the result depends on `Config::kmeans_seed`.
    KMeans,
    /// Median cut: splits the colour space along the channel with the widest
    /// range.  Fast and deterministic.
    MedianCut,
    /// Octree quantisation: subdivides the RGB cube hierarchically.  Fast,
    /// deterministic and light on memory.
    Octree,
}

impl Default for Algorithm {
    fn default() -> (a: Self)
        ensures
            a == Algorithm::KMeans,
    {
        Algorithm::KMeans
    }
}

/// Settings shared by all algorithms.
#[derive(Debug, Clone, Copy, PartialEq, Eq)]
pub struct Config {
    /// The largest number of dominant colours to extract (default 8).
    pub max_colors: usize,
    /// Before processing, the image is scaled down so that its longest side is
    /// at most this many pixels (default 256); `None` keeps the original size.
    pub sample_size: Option<u32>,
    /// Random seed of k-means (ignored by the other algorithms; default 42).
    pub kmeans_seed: u64,
    /// Largest number of k-means iterations (default 100).
    pub kmeans_max_iterations: usize,
    /// K-means stops early once every centroid moved by a squared RGB
    /// distance below this bound in one iteration (default 1, that is, once
    /// no centroid moved at all).
    pub kmeans_convergence_sq_threshold: u64,
}

/// The configuration that `Config::default` gives.
pub open spec fn default_config() -> Config {
    Config {
        max_colors: 8,
        sample_size: Some(256u32),
        kmeans_seed: 42,
        kmeans_max_iterations: 100,
        kmeans_convergence_sq_threshold: 1,
    }
}

impl Default for Config {
    fn default() -> (c: Self)
        ensures
            c == default_config(),
    {
        Config {
            max_colors: 8,
            sample_size: Some(256),
            kmeans_seed: 42,
            kmeans_max_iterations: 100,
            kmeans_convergence_sq_threshold: 1,
        }
    }
}

impl Config {
    /// Sets the largest number of colours to extract; `n` must be at least 1.
    pub fn max_colors(self, n: usize) -> (c: Self)
        requires
            n > 0,
        ensures
            c == (Config { max_colors: n, ..self }),
    {
        let mut c = self;
        c.max_colors = n;
        c
    }

    /// Sets the sampling size (longest side in pixels); `None` keeps the original size.
    pub fn sample_size(self, size: Option<u32>) -> (c: Self)
        ensures
            c == (Config { sample_size: size, ..self }),
    {
        let mut c = self;
        c.sample_size = size;
        c
    }

    /// Sets the k-means random seed.
    pub fn kmeans_seed(self, seed: u64) -> (c: Self)
        ensures
            c == (Config { kmeans_seed: seed, ..self }),
    {
        let mut c = self;
        c.kmeans_seed = seed;
        c
    }

    /// Sets the largest number of k-means iterations.
    pub fn kmeans_max_iterations(self, iters: usize) -> (c: Self)
        ensures
            c == (Config { kmeans_max_iterations: iters, ..self }),
    {
        let mut c = self;
        c.kmeans_max_iterations = iters;
        c
    }
}

/// An RGB image: `width × height` pixels, row by row.
pub struct PixelImage {
    width: u32,
    height: u32,
    pixels: Vec<Pixel>,
}

impl View for PixelImage {
    type V = (u32, u32, Seq<Pixel>);

    closed spec fn view(&self) -> (u32, u32, Seq<Pixel>) {
        (self.width, self.height, self.pixels@)
    }
}

impl PixelImage {
    /// The pixel buffer holds exactly `width × height` pixels, and its bytes
    /// fit in memory.
    #[verifier::type_invariant]
    spec fn well_formed(self) -> bool {
        &&& self.pixels@.len() == self.width * self.height
        &&& 3 * self.pixels@.len() <= usize::MAX
    }

    /// An image of `width × height` pixels, given row by row; `None` when the
    /// number of pixels does not match.
    pub fn new(width: u32, height: u32, pixels: Vec<Pixel>) -> (img: Option<Self>)
        ensures
            img is Some <==> pixels@.len() == width * height && 3 * pixels@.len() <= usize::MAX,
            img matches Some(i) ==> i@ == (width, height, pixels@),
    {
        let n = pixels.len();
        let w = width as u64;
        let h = height as u64;
        assert(w * h <= 0xffff_fffe_0000_0001) by (nonlinear_arith)
            requires
                w <= 0xffff_ffff,
                h <= 0xffff_ffff,
        ;
        if w * h == n as u64 && n <= usize::MAX / 3 {
            Some(PixelImage { width, height, pixels })
        } else {
            None
        }
    }

    /// The width in pixels.
    pub fn width(&self) -> (w: u32)
        ensures
            w == self@.0,
    {
        self.width
    }

    /// The height in pixels.
    pub fn height(&self) -> (h: u32)
        ensures
            h == self@.1,
    {
        self.height
    }

    /// The pixels, row by row.
    pub fn pixels(&self) -> (p: &[Pixel])
        ensures
            p@ == self@.2,
    {
        self.pixels.as_slice()
    }
}

/// What the image `thumbnail` of the `image` crate gives for an RGB image of
/// `width × height` pixels scaled to fit in `size × size`.
pub uninterp spec fn thumbnail_of(width: u32, height: u32, pixels: Seq<Pixel>, size: u32) -> Seq<Pixel>;

/// The pixels of `image` scaled down, aspect ratio kept, to fit in
/// `size × size`.
///
/// Trusted: calls `DynamicImage::thumbnail` of `image` on an RGB image built
/// from the pixels, and reads the result back as RGB pixels.  Its result is
/// named, not described: it is a function of the pixels and the size alone.
#[verifier::external_body]
fn thumbnail_pixels(image: &PixelImage, size: u32) -> (r: Vec<Pixel>)
    ensures
        r@ == thumbnail_of(image@.0, image@.1, image@.2, size),
{
    let raw: Vec<u8> = image.pixels.iter().flat_map(|p| *p).collect();
    let rgb = image::RgbImage::from_raw(image.width, image.height, raw).unwrap();
    let small = image::DynamicImage::ImageRgb8(rgb).thumbnail(size, size).into_rgb8();
    small.pixels().map(|p| p.0).collect()
}

/// The pixels that extraction analyses: the image scaled down to fit in
/// `sample_size × sample_size` when it is larger, else the image itself.
pub open spec fn sampled(image: (u32, u32, Seq<Pixel>), sample_size: Option<u32>) -> Seq<Pixel> {
    match sample_size {
        Some(size) => if image.0 > size || image.1 > size {
            thumbnail_of(image.0, image.1, image.2, size)
        } else {
            image.2
        },
        None => image.2,
    }
}

/// Without sampling, or for an image that already fits the sampling size,
/// extraction analyses exactly the pixels of the image, every one of them.
pub proof fn lemma_sampled_keeps_fitting_images(image: (u32, u32, Seq<Pixel>), sample_size: Option<u32>)
    requires
        sample_size matches Some(size) ==> image.0 <= size && image.1 <= size,
    ensures
        sampled(image, sample_size) == image.2,
{
}

/// Builder for dominant-colour extraction from an image.
pub struct DominantColors {
    image: PixelImage,
    config: Config,
}

impl View for DominantColors {
    type V = ((u32, u32, Seq<Pixel>), Config);

    closed spec fn view(&self) -> ((u32, u32, Seq<Pixel>), Config) {
        (self.image@, self.config)
    }
}

impl DominantColors {
    /// An extractor for `image` with the default configuration.
    pub fn new(image: PixelImage) -> (d: Self)
        ensures
            d@ == (image@, default_config()),
    {
        DominantColors { image, config: Config::default() }
    }

    /// Replaces the configuration.
    pub fn config(self, config: Config) -> (d: Self)
        ensures
            d@ == (self@.0, config),
    {
        DominantColors { image: self.image, config }
    }

    /// The pixels to analyse: the image scaled down to `config.sample_size`
    /// when it is larger, else all of its pixels.
    fn sample_pixels(&self) -> (p: Vec<Pixel>)
        ensures
            p@ == sampled(self@.0, self@.1.sample_size),
    {
        if let Some(size) = self.config.sample_size {
            if self.image.width > size || self.image.height > size {
                return thumbnail_pixels(&self.image, size);
            }
        }
        vstd::slice::slice_to_vec(self.image.pixels.as_slice())
    }

    /// Runs `algorithm` and returns the palette ordered by share, largest
    /// first.
    ///
    /// An image with no pixels to analyse gives `EmptyImage`, as does k-means
    /// with no colours requested.  More sampled pixels than `MAX_PIXELS`, which
    /// no machine holds, give `InternalError`.
    pub fn extract(self, algorithm: Algorithm) -> (res: Result<Vec<Color>, DominantColorError>)
        ensures
            ({
                let px = sampled(self@.0, self@.1.sample_size);
                &&& px.len() == 0 ==> (res matches Err(DominantColorError::EmptyImage))
                &&& px.len() > MAX_PIXELS ==> (res matches Err(DominantColorError::InternalError { .. }))
                &&& 0 < px.len() <= MAX_PIXELS ==> {
                    &&& reports_empty(algorithm, px, self@.1) <==> (res matches Err(DominantColorError::EmptyImage))
                    &&& res is Ok || (res matches Err(DominantColorError::EmptyImage))
                }
                &&& (self@.1.sample_size matches Some(size) ==> self@.0.0 <= size && self@.0.1 <= size) ==> (res matches Ok(p)
                    ==> total_count(p@) == self@.0.2.len())
                &&& (res matches Ok(p) ==> {
                    &&& extracted(algorithm, p@, px, self@.1)
                    &&& sorted_by_count(p@)
                    &&& total_count(p@) == px.len()
                    &&& forall|q: int| 0 <= q < p@.len() ==> #[trigger] p@[q].pixel_count > 0
                    &&& 1 <= p@.len()
                })
            }),
    {
        let pixels = self.sample_pixels();
        if pixels.len() == 0 {
            return Err(DominantColorError::EmptyImage);
        }
        if pixels.len() as u64 > MAX_PIXELS {
            return Err(DominantColorError::internal("采样后的像素数量超出可计算范围"));
        }
        let mut palette = match algorithm {
            Algorithm::KMeans => match algorithms::kmeans::extract(pixels.as_slice(), &self.config) {
                Ok(p) => p,
                Err(e) => return Err(e),
            },
            Algorithm::MedianCut => match algorithms::median_cut::extract(pixels.as_slice(), &self.config) {
                Ok(p) => p,
                Err(e) => return Err(e),
            },
            Algorithm::Octree => match algorithms::octree::extract(pixels.as_slice(), &self.config) {
                Ok(p) => p,
                Err(e) => return Err(e),
            },
        };
        let ghost q = palette@;
        proof {
            assert(algorithm_palette(algorithm, q, pixels@, self@.1));
        }
        sort_palette(&mut palette);
        proof {
            lemma_sort_by_count(q);
            assert forall|i: int| 0 <= i < palette@.len() implies #[trigger] palette@[i].pixel_count > 0 by {
                broadcast use vstd::seq_lib::group_to_multiset_ensures;
                assert(q.to_multiset().count(palette@[i]) > 0);
                let j = choose|j: int| 0 <= j < q.len() && q[j] == palette@[i];
            }
        }
        Ok(palette)
    }
}

} // verus!
