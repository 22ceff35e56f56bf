//! The three extraction algorithms behind one entry point.
//!
//! | Algorithm                | Best for                                        |
//! |--------------------------|-------------------------------------------------|
//! | [`Algorithm::KMeans`]    | colour quality, where a little more time is fine |
//! | [`Algorithm::MedianCut`] | speed and reproducible results on photographs   |
//! | [`Algorithm::Octree`]    | little memory, batches of many images           |

use vstd::prelude::*;

pub mod kmeans;
pub mod median_cut;
pub mod octree;

use crate::color::{all_of_color, is_partition_means, lemma_single_color_partition, total_count, Color, Pixel, MAX_PIXELS};
use crate::error::DominantColorError;
use crate::{Algorithm, Config};
use self::kmeans::{is_kmeans_palette, is_kmeans_run_palette, lemma_kmeans_single_color};
use self::octree::{cell_of, is_cell_partition_means, leaf_cells, octree_color_count, octree_palette};
use self::median_cut::{is_median_cut_palette, is_median_cut_run_palette, median_cut_count, uniform};

verus! {

/// What an algorithm is like, for choosing one at run time.
#[derive(Debug, Clone, Copy, PartialEq, Eq)]
pub struct AlgorithmInfo {
    /// The algorithm's name.
    pub name: &'static str,
    /// A short description.
    pub description: &'static str,
    /// Whether equal inputs always give equal outputs (k-means draws random
    /// numbers, though a fixed seed makes it repeatable).
    pub is_deterministic: bool,
    /// Relative speed: 1 is the fastest; larger is slower.
    pub speed_rank: u8,
}

impl AlgorithmInfo {
    /// Describes `algorithm`.
    pub fn of(algorithm: Algorithm) -> (info: Self)
        ensures
            info.is_deterministic == !(algorithm is KMeans),
            info.speed_rank == match algorithm {
                Algorithm::KMeans => 3u8,
                Algorithm::MedianCut => 1u8,
                Algorithm::Octree => 2u8,
            },
            info.name@ == match algorithm {
                Algorithm::KMeans => "K-Means 聚类"@,
                Algorithm::MedianCut => "中位切分"@,
                Algorithm::Octree => "八叉树量化"@,
            },
            info.description@ == match algorithm {
                Algorithm::KMeans => "基于质心的迭代聚类，使用 K-Means++ 初始化，颜色质量最高"@,
                Algorithm::MedianCut => "沿颜色范围最宽的通道递归对半分割，速度快且结果确定"@,
                Algorithm::Octree => "对 RGB 立方体进行层次化细分，速度快、内存占用低且结果确定"@,
            },
    {
        match algorithm {
            Algorithm::KMeans => AlgorithmInfo {
                name: "K-Means 聚类",
                description: "基于质心的迭代聚类，使用 K-Means++ 初始化，颜色质量最高",
                is_deterministic: false,
                speed_rank: 3,
            },
            Algorithm::MedianCut => AlgorithmInfo {
                name: "中位切分",
                description: "沿颜色范围最宽的通道递归对半分割，速度快且结果确定",
                is_deterministic: true,
                speed_rank: 1,
            },
            Algorithm::Octree => AlgorithmInfo {
                name: "八叉树量化",
                description: "对 RGB 立方体进行层次化细分，速度快、内存占用低且结果确定",
                is_deterministic: true,
                speed_rank: 2,
            },
        }
    }
}

// ── Ordering a palette ───────────────────────────────────────────────────────

/// `c` inserted into `s` after every colour that covers at least as many pixels.
pub open spec fn insert_by_count(s: Seq<Color>, c: Color) -> Seq<Color>
    decreases s.len(),
{
    if s.len() == 0 || s.last().pixel_count >= c.pixel_count {
        s.push(c)
    } else {
        insert_by_count(s.drop_last(), c).push(s.last())
    }
}

/// `s` ordered by pixel count, largest first; colours with equal counts keep
/// their order.
pub open spec fn sort_by_count(s: Seq<Color>) -> Seq<Color>
    decreases s.len(),
{
    if s.len() == 0 {
        s
    } else {
        insert_by_count(sort_by_count(s.drop_last()), s.last())
    }
}

/// The pixel counts of `s` never increase.
pub open spec fn sorted_by_count(s: Seq<Color>) -> bool {
    forall|i: int, j: int| 0 <= i <= j < s.len() ==> #[trigger] s[i].pixel_count >= #[trigger] s[j].pixel_count
}

proof fn lemma_insert_by_count(s: Seq<Color>, c: Color)
    requires
        sorted_by_count(s),
    ensures
        sorted_by_count(insert_by_count(s, c)),
        insert_by_count(s, c).to_multiset() == s.to_multiset().insert(c),
        insert_by_count(s, c).len() == s.len() + 1,
        total_count(insert_by_count(s, c)) == total_count(s) + c.pixel_count,
    decreases s.len(),
{
    broadcast use vstd::seq_lib::group_to_multiset_ensures;
    broadcast use vstd::multiset::group_multiset_axioms;
    crate::color::lemma_total_count_push(s, c);
    if s.len() > 0 && s.last().pixel_count < c.pixel_count {
        let d = s.drop_last();
        assert(sorted_by_count(d)) by {
            assert forall|i: int, j: int| 0 <= i <= j < d.len() implies #[trigger] d[i].pixel_count >= #[trigger] d[j].pixel_count by {
                assert(d[i] == s[i] && d[j] == s[j]);
            }
        }
        lemma_insert_by_count(d, c);
        let t = insert_by_count(d, c);
        crate::color::lemma_total_count_push(t, s.last());
        crate::color::lemma_total_count_push(d, s.last());
        assert(d.push(s.last()) =~= s);
        assert(t.push(s.last()).to_multiset() =~= s.to_multiset().insert(c));
        // Every colour of `t` covers at least as many pixels as the last of `s`.
        assert forall|i: int| 0 <= i < t.len() implies #[trigger] t[i].pixel_count >= s.last().pixel_count by {
            assert(t.to_multiset().count(t[i]) > 0);
            assert(t.to_multiset().count(t[i]) == d.to_multiset().insert(c).count(t[i]));
            if t[i] != c {
                assert(d.to_multiset().count(t[i]) > 0);
                assert(d.contains(t[i]));
                let q = choose|q: int| 0 <= q < d.len() && d[q] == t[i];
                assert(s[q] == d[q]);
                assert(s[s.len() - 1] == s.last());
            }
        }
        let u = t.push(s.last());
        assert forall|i: int, j: int| 0 <= i <= j < u.len() implies #[trigger] u[i].pixel_count >= #[trigger] u[j].pixel_count by {
            if j < t.len() {
                assert(u[i] == t[i] && u[j] == t[j]);
            } else if i < t.len() {
                assert(u[i] == t[i]);
            }
        }
    } else if s.len() > 0 {
        let u = s.push(c);
        assert forall|i: int, j: int| 0 <= i <= j < u.len() implies #[trigger] u[i].pixel_count >= #[trigger] u[j].pixel_count by {
            if j < s.len() {
                assert(u[i] == s[i] && u[j] == s[j]);
            } else if i < s.len() {
                assert(u[i] == s[i]);
                assert(s[s.len() - 1] == s.last());
            }
        }
    }
}

/// Ordering by count keeps the colours and orders them.
pub proof fn lemma_sort_by_count(s: Seq<Color>)
    ensures
        sorted_by_count(sort_by_count(s)),
        sort_by_count(s).to_multiset() == s.to_multiset(),
        sort_by_count(s).len() == s.len(),
        total_count(sort_by_count(s)) == total_count(s),
    decreases s.len(),
{
    broadcast use vstd::seq_lib::group_to_multiset_ensures;
    if s.len() > 0 {
        lemma_sort_by_count(s.drop_last());
        lemma_insert_by_count(sort_by_count(s.drop_last()), s.last());
        assert(s.drop_last().push(s.last()) =~= s);
        crate::color::lemma_total_count_push(s.drop_last(), s.last());
    }
}

/// Ordering a palette that is already ordered by count leaves it unchanged.
pub proof fn lemma_sort_sorted(s: Seq<Color>)
    requires
        sorted_by_count(s),
    ensures
        sort_by_count(s) == s,
    decreases s.len(),
{
    if s.len() > 0 {
        let d = s.drop_last();
        assert(sorted_by_count(d)) by {
            assert forall|i: int, j: int| 0 <= i <= j < d.len() implies #[trigger] d[i].pixel_count >= #[trigger] d[j].pixel_count by {
                assert(d[i] == s[i] && d[j] == s[j]);
            }
        }
        lemma_sort_sorted(d);
        if d.len() > 0 {
            assert(d.last() == s[s.len() - 2]);
            assert(s.last() == s[s.len() - 1]);
        }
        assert(d.push(s.last()) =~= s);
    }
}

/// Orders `palette` by pixel count, largest first, keeping the order of
/// colours with equal counts.
pub fn sort_palette(palette: &mut Vec<Color>)
    ensures
        final(palette)@ == sort_by_count(old(palette)@),
{
    let ghost s = palette@;
    let n = palette.len();
    let mut i: usize = 0;
    proof {
        assert(s.take(0) =~= Seq::<Color>::empty());
        assert(palette@ =~= sort_by_count(s.take(0)) + s.skip(0));
    }
    while i < n
        invariant
            n == s.len(),
            i <= n,
            palette@ == sort_by_count(s.take(i as int)) + s.skip(i as int),
        decreases n - i,
    {
        let ghost sorted = sort_by_count(s.take(i as int));
        let ghost x = s[i as int];
        proof {
            lemma_sort_by_count(s.take(i as int));
            assert(s.take(i + 1).drop_last() =~= s.take(i as int));
            assert(s.take(i + 1).last() == x);
        }
        proof {
            assert(sorted.take(i as int) =~= sorted);
            assert(sorted.skip(i as int) =~= Seq::<Color>::empty());
            assert(s.skip(i as int) =~= seq![x] + s.skip(i + 1));
            assert(palette@ =~= sorted.take(i as int).push(x) + sorted.skip(i as int) + s.skip(i + 1));
            assert(insert_by_count(sorted, x) =~= insert_by_count(sorted.take(i as int), x) + sorted.skip(i as int));
        }
        // Move the new colour left past the colours that cover fewer pixels.
        let mut j: usize = i;
        while j > 0 && palette[j - 1].pixel_count < palette[j].pixel_count
            invariant
                j <= i < n,
                n == s.len(),
                sorted.len() == i,
                palette@.len() == n,
                palette@ == sorted.take(j as int).push(x) + sorted.skip(j as int) + s.skip(i + 1),
                insert_by_count(sorted, x) == insert_by_count(sorted.take(j as int), x) + sorted.skip(j as int),
            decreases j,
        {
            let ghost before = palette@;
            proof {
                assert(before[j - 1] == sorted[j - 1]);
                assert(before[j as int] == x);
                let t = sorted.take(j as int);
                assert(t.drop_last() =~= sorted.take(j - 1));
                assert(t.last() == sorted[j - 1]);
                assert(insert_by_count(t, x) == insert_by_count(sorted.take(j - 1), x).push(sorted[j - 1]));
                assert(sorted.skip(j - 1) =~= seq![sorted[j - 1]] + sorted.skip(j as int));
                assert(insert_by_count(sorted.take(j - 1), x).push(sorted[j - 1]) + sorted.skip(j as int)
                    =~= insert_by_count(sorted.take(j - 1), x) + sorted.skip(j - 1));
            }
            let left = palette[j - 1];
            let right = palette[j];
            palette.set(j - 1, right);
            palette.set(j, left);
            proof {
                assert(palette@ =~= sorted.take(j - 1).push(x) + sorted.skip(j - 1) + s.skip(i + 1));
            }
            j = j - 1;
        }
        proof {
            let t = sorted.take(j as int);
            assert(palette@[j as int] == x);
            if j > 0 {
                assert(palette@[j - 1] == sorted[j - 1]);
                assert(t.last() == sorted[j - 1]);
            }
            assert(insert_by_count(t, x) == t.push(x));
            assert(sort_by_count(s.take(i + 1)) == insert_by_count(sorted, x));
            assert(palette@ =~= sort_by_count(s.take(i + 1)) + s.skip(i + 1));
        }
        i = i + 1;
    }
    proof {
        assert(s.take(n as int) =~= s);
        assert(s.skip(n as int) =~= Seq::<Color>::empty());
        assert(palette@ =~= sort_by_count(s));
    }
}

/// The colours of `s` that cover at least one pixel, in order.
pub open spec fn counted(s: Seq<Color>) -> Seq<Color>
    decreases s.len(),
{
    if s.len() == 0 {
        s
    } else if s.last().pixel_count > 0 {
        counted(s.drop_last()).push(s.last())
    } else {
        counted(s.drop_last())
    }
}

proof fn lemma_counted_all(s: Seq<Color>)
    requires
        forall|q: int| 0 <= q < s.len() ==> #[trigger] s[q].pixel_count > 0,
    ensures
        counted(s) == s,
    decreases s.len(),
{
    if s.len() > 0 {
        let d = s.drop_last();
        assert forall|q: int| 0 <= q < d.len() implies #[trigger] d[q].pixel_count > 0 by {
            assert(d[q] == s[q]);
        }
        lemma_counted_all(d);
        assert(s[s.len() - 1] == s.last());
        assert(d.push(s.last()) =~= s);
    }
}

/// Drops the colours that cover no pixel.
pub fn retain_counted(palette: Vec<Color>) -> (kept: Vec<Color>)
    ensures
        kept@ == counted(palette@),
{
    let mut kept: Vec<Color> = Vec::new();
    let mut i: usize = 0;
    while i < palette.len()
        invariant
            i <= palette@.len(),
            kept@ == counted(palette@.take(i as int)),
        decreases palette@.len() - i,
    {
        proof {
            let t = palette@.take(i + 1);
            assert(t.drop_last() =~= palette@.take(i as int));
            assert(t.last() == palette@[i as int]);
        }
        if palette[i].pixel_count > 0 {
            kept.push(palette[i]);
        }
        i = i + 1;
    }
    proof {
        assert(palette@.take(palette@.len() as int) =~= palette@);
    }
    kept
}

// ── Dispatch ─────────────────────────────────────────────────────────────────

/// What each algorithm promises of the palette it returns, before ordering:
/// the rounded mean colours of a split of the pixels into non-empty groups,
/// each standing for its group's pixels, and what is particular to it.
pub open spec fn algorithm_palette(algorithm: Algorithm, p: Seq<Color>, pixels: Seq<Pixel>, config: Config) -> bool {
    let n = pixels.len() as int;
    let k = if config.max_colors <= n { config.max_colors as int } else { n };
    &&& total_count(p) == n
    &&& forall|q: int| 0 <= q < p.len() ==> #[trigger] p[q].pixel_count > 0
    &&& 1 <= p.len()
    &&& is_partition_means(p, pixels)
    &&& match algorithm {
        Algorithm::KMeans => is_kmeans_palette(p, pixels, k) && p.len() <= k
            && is_kmeans_run_palette(p, pixels, k, config.kmeans_max_iterations as int,
                config.kmeans_convergence_sq_threshold as int),
        Algorithm::MedianCut => p.len() <= median_cut_count(config.max_colors as int, n)
            && is_median_cut_palette(p, pixels, median_cut_count(config.max_colors as int, n))
            && is_median_cut_run_palette(p, pixels, k),
        Algorithm::Octree => p.len() == octree_color_count(config.max_colors as int, pixels)
            && is_cell_partition_means(p, pixels) && p == octree_palette(pixels, config.max_colors as int),
    }
}

/// `p` is what `extract` gives: a palette of `algorithm` on `pixels`, ordered
/// by pixel count, largest first.
pub open spec fn extracted(algorithm: Algorithm, p: Seq<Color>, pixels: Seq<Pixel>, config: Config) -> bool {
    exists|q: Seq<Color>| #[trigger] algorithm_palette(algorithm, q, pixels, config) && p == sort_by_count(q)
}

/// A palette that an algorithm's own `extract` may give, ordered largest
/// share first, is one that the common `extract` may give for the same
/// algorithm, pixels and configuration; for median cut and octree it is the
/// only one.
pub proof fn lemma_extract_orders_module_palette(algorithm: Algorithm, q: Seq<Color>, p: Seq<Color>, pixels: Seq<Pixel>,
    config: Config)
    requires
        algorithm_palette(algorithm, q, pixels, config),
    ensures
        extracted(algorithm, sort_by_count(q), pixels, config),
        !(algorithm is KMeans) && extracted(algorithm, p, pixels, config) ==> p == sort_by_count(q),
{
    if !(algorithm is KMeans) && extracted(algorithm, p, pixels, config) {
        lemma_extract_deterministic(algorithm, p, sort_by_count(q), pixels, config, config);
    }
}

/// Median cut and octree are deterministic: for the same pixels and the same
/// number of colours requested, whatever the k-means settings, the common
/// `extract` gives one palette.  So `extract_all`, which states of each of its
/// palettes what `extract` states, gives for these two algorithms the very
/// palettes of separate `extract` calls.
pub proof fn lemma_extract_deterministic(algorithm: Algorithm, p1: Seq<Color>, p2: Seq<Color>, pixels: Seq<Pixel>,
    c1: Config, c2: Config)
    requires
        !(algorithm is KMeans),
        c1.max_colors == c2.max_colors,
        extracted(algorithm, p1, pixels, c1),
        extracted(algorithm, p2, pixels, c2),
    ensures
        p1 == p2,
{
    let q1 = choose|q: Seq<Color>| #[trigger] algorithm_palette(algorithm, q, pixels, c1) && p1 == sort_by_count(q);
    let q2 = choose|q: Seq<Color>| #[trigger] algorithm_palette(algorithm, q, pixels, c2) && p2 == sort_by_count(q);
    if algorithm is MedianCut {
        let n = pixels.len() as int;
        let k = if c1.max_colors <= n { c1.max_colors as int } else { n };
        median_cut::lemma_median_cut_deterministic(q1, q2, pixels, k);
    }
}

/// A palette of the common `extract` never holds more colours than were
/// requested.
pub proof fn lemma_extract_within_max_colors(algorithm: Algorithm, p: Seq<Color>, pixels: Seq<Pixel>, config: Config)
    requires
        extracted(algorithm, p, pixels, config),
        config.max_colors >= 1,
    ensures
        p.len() <= config.max_colors,
{
    let q = choose|q: Seq<Color>| #[trigger] algorithm_palette(algorithm, q, pixels, config) && p == sort_by_count(q);
    lemma_sort_by_count(q);
}

/// The inputs on which an algorithm itself reports an empty image: no
/// pixels, or, for k-means, no colours requested.
pub open spec fn reports_empty(algorithm: Algorithm, pixels: Seq<Pixel>, config: Config) -> bool {
    pixels.len() == 0 || (algorithm is KMeans && config.max_colors == 0)
}

/// Whatever the algorithm, an image of a single colour gives back that colour
/// as the one colour of the palette.
pub proof fn lemma_extract_single_color(algorithm: Algorithm, p: Seq<Color>, pixels: Seq<Pixel>, config: Config, v: Pixel)
    requires
        extracted(algorithm, p, pixels, config),
        all_of_color(pixels, v),
        pixels.len() > 0,
    ensures
        forall|i: int| 0 <= i < p.len() ==> (#[trigger] p[i]).r == v[0] && p[i].g == v[1] && p[i].b == v[2],
        p.len() == 1,
{
    broadcast use vstd::seq_lib::group_to_multiset_ensures;
    let q = choose|q: Seq<Color>| #[trigger] algorithm_palette(algorithm, q, pixels, config) && p == sort_by_count(q);
    lemma_single_color_partition(q, pixels, v);
    lemma_sort_by_count(q);
    assert forall|i: int| 0 <= i < p.len() implies (#[trigger] p[i]).r == v[0] && p[i].g == v[1] && p[i].b == v[2] by {
        assert(q.to_multiset().count(p[i]) > 0);
        let j = choose|j: int| 0 <= j < q.len() && q[j] == p[i];
    }
    assert(uniform(pixels)) by {
        assert forall|a: int, b: int| 0 <= a < pixels.len() && 0 <= b < pixels.len() implies #[trigger] pixels[a][0]
            == #[trigger] pixels[b][0] && pixels[a][1] == pixels[b][1] && pixels[a][2] == pixels[b][2] by {
            assert(pixels[a][0] == v[0]);
            assert(pixels[b][0] == v[0]);
        }
    }
    if algorithm is KMeans {
        let n = pixels.len() as int;
        let k = if config.max_colors <= n { config.max_colors as int } else { n };
        if k >= 1 {
            lemma_kmeans_single_color(q, pixels, k);
        } else {
            let cs = choose|cs: Seq<Pixel>| cs.len() == k
                && #[trigger] kmeans::cluster_palette(pixels, kmeans::assignment_of(pixels, cs), k) == q;
        }
    }
    if algorithm is Octree {
        // All pixels fall into the leaf cell of `v`.
        let cs = pixels.map_values(|x: Pixel| cell_of(x));
        assert(leaf_cells(pixels) =~= set![cell_of(v)]) by {
            assert forall|c: (u8, u8, u8)| leaf_cells(pixels).contains(c) implies c == cell_of(v) by {
                let r = choose|r: int| 0 <= r < cs.len() && cs[r] == c;
                assert(pixels[r][0] == v[0] && pixels[r][1] == v[1] && pixels[r][2] == v[2]);
            }
            assert(pixels[0][0] == v[0] && pixels[0][1] == v[1] && pixels[0][2] == v[2]);
            assert(cs[0] == cell_of(v));
            assert(leaf_cells(pixels).contains(cell_of(v)));
        }
        assert(set![cell_of(v)].len() == 1);
    }
    assert(q.len() == p.len());
}

/// Extracts the dominant colours of `pixels` with `algorithm`, ordered by the
/// share of the pixels they cover, largest first.  No pixels, or no colours
/// requested, give `EmptyImage` whatever the algorithm.
pub fn extract(pixels: &[Pixel], algorithm: Algorithm, config: &Config) -> (res: Result<Vec<Color>, DominantColorError>)
    requires
        pixels@.len() <= MAX_PIXELS,
    ensures
        (pixels@.len() == 0 || config.max_colors == 0) <==> res matches Err(DominantColorError::EmptyImage),
        res is Ok || res matches Err(DominantColorError::EmptyImage),
        res matches Ok(p) ==> {
            &&& extracted(algorithm, p@, pixels@, *config)
            &&& sorted_by_count(p@)
            &&& total_count(p@) == pixels@.len()
            &&& forall|q: int| 0 <= q < p@.len() ==> #[trigger] p@[q].pixel_count > 0
            &&& 1 <= p@.len()
        },
{
    // The common checks: no pixels, or no colours requested.
    if pixels.len() == 0 || config.max_colors == 0 {
        return Err(DominantColorError::EmptyImage);
    }
    let palette = match algorithm {
        Algorithm::KMeans => match kmeans::extract(pixels, config) {
            Ok(p) => p,
            Err(e) => return Err(e),
        },
        Algorithm::MedianCut => match median_cut::extract(pixels, config) {
            Ok(p) => p,
            Err(e) => return Err(e),
        },
        Algorithm::Octree => match octree::extract(pixels, config) {
            Ok(p) => p,
            Err(e) => return Err(e),
        },
    };
    let ghost q = palette@;
    assert(algorithm_palette(algorithm, q, pixels@, *config));
    let mut palette = retain_counted(palette);
    sort_palette(&mut palette);
    proof {
        lemma_counted_all(q);
        lemma_sort_by_count(q);
        assert forall|i: int| 0 <= i < palette@.len() implies #[trigger] palette@[i].pixel_count > 0 by {
            broadcast use vstd::seq_lib::group_to_multiset_ensures;
            assert(q.to_multiset().count(palette@[i]) > 0);
            let j = choose|j: int| 0 <= j < q.len() && q[j] == palette@[i];
        }
    }
    Ok(palette)
}

/// Runs all three algorithms on the same pixels, in the order k-means, median
/// cut, octree; the first error ends the run.
pub fn extract_all(pixels: &[Pixel], config: &Config) -> (res: Result<Vec<(Algorithm, Vec<Color>)>, DominantColorError>)
    requires
        pixels@.len() <= MAX_PIXELS,
    ensures
        (pixels@.len() == 0 || config.max_colors == 0) <==> res matches Err(DominantColorError::EmptyImage),
        res is Ok || res matches Err(DominantColorError::EmptyImage),
        res matches Ok(v) ==> {
            &&& v@.len() == 3
            &&& v@[0].0 == Algorithm::KMeans
            &&& v@[1].0 == Algorithm::MedianCut
            &&& v@[2].0 == Algorithm::Octree
            &&& forall|i: int| 0 <= i < 3 ==> {
                &&& extracted(v@[i].0, (#[trigger] v@[i]).1@, pixels@, *config)
                &&& sorted_by_count(v@[i].1@)
                &&& total_count(v@[i].1@) == pixels@.len()
            }
        },
{
    let algorithms: [Algorithm; 3] = [Algorithm::KMeans, Algorithm::MedianCut, Algorithm::Octree];
    let mut results: Vec<(Algorithm, Vec<Color>)> = Vec::new();
    let mut i: usize = 0;
    while i < 3
        invariant
            i <= 3,
            pixels@.len() <= MAX_PIXELS,
            algorithms@ == seq![Algorithm::KMeans, Algorithm::MedianCut, Algorithm::Octree],
            i > 0 ==> !(pixels@.len() == 0 || config.max_colors == 0),
            results@.len() == i,
            forall|j: int| 0 <= j < i ==> (#[trigger] results@[j]).0 == algorithms@[j],
            forall|j: int| 0 <= j < i ==> {
                &&& extracted((#[trigger] results@[j]).0, results@[j].1@, pixels@, *config)
                &&& sorted_by_count(results@[j].1@)
                &&& total_count(results@[j].1@) == pixels@.len()
            },
        decreases 3 - i,
    {
        let alg = algorithms[i];
        match extract(pixels, alg, config) {
            Ok(palette) => results.push((alg, palette)),
            Err(e) => return Err(e),
        }
        i = i + 1;
    }
    Ok(results)
}

} // verus!
