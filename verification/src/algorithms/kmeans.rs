//! K-means clustering.
//!
//! 1. Initialisation: k-means++ picks `k` centroids, each next one drawn with
//!    a weight equal to the squared distance of a pixel to its nearest
//!    centroid so far.
//! 2. Assignment: every pixel goes to its nearest centroid.
//! 3. Update: every centroid moves to the mean of its pixels; a centroid that
//!    lost all its pixels takes a random pixel of the largest cluster.
//! 4. Steps 2 and 3 repeat until the iteration limit, or until no centroid
//!    moved by a squared distance of the convergence bound or more.
//! 5. The palette holds the mean colour of every non-empty final cluster.

use rand::rngs::SmallRng;
use rand::{Rng, SeedableRng};
use vstd::multiset::Multiset;
use vstd::prelude::*;

use crate::color::{
    channel_sum, is_partition_means, lemma_channel_sum_bounds, lemma_channel_sum_push, lemma_parts_multiset_push,
    lemma_total_count_parts, lemma_total_count_push, mean_color, mean_color_of, means_of_partition, parts_multiset,
    sq_dist, total_count, Color, Pixel, MAX_PIXELS,
};
use crate::error::DominantColorError;
use crate::Config;
use super::median_cut::uniform;

verus! {

#[verifier::external_type_specification]
#[verifier::external_body]
pub struct ExSmallRng(SmallRng);

/// A random number generator seeded with `seed`.
///
/// Trusted: calls `SeedableRng::seed_from_u64` of `rand`'s `SmallRng`.  Nothing
/// is stated of the generator's state.
#[verifier::external_body]
fn seeded_rng(seed: u64) -> SmallRng {
    SmallRng::seed_from_u64(seed)
}

/// A random number in `0..n`.
///
/// Trusted: calls `Rng::gen_range(0..n)` of `rand`, which samples the range
/// and panics only on an empty range.  Which number comes is not stated.
#[verifier::external_body]
fn random_below(rng: &mut SmallRng, n: u128) -> (r: u128)
    requires
        n > 0,
    ensures
        r < n,
{
    rng.gen_range(0..n)
}

// ── Specifications ───────────────────────────────────────────────────────────

/// The index of the centroid nearest to `p`, the first of equally near ones;
/// 0 when there are no centroids.
pub open spec fn nearest(p: Pixel, cs: Seq<Pixel>) -> int
    decreases cs.len(),
{
    if cs.len() <= 1 {
        0
    } else {
        let b = nearest(p, cs.drop_last());
        if sq_dist(p, cs.last()) < sq_dist(p, cs[b]) {
            cs.len() - 1
        } else {
            b
        }
    }
}

/// Every pixel of `pixels` assigned to its nearest centroid of `cs`.
pub open spec fn assignment_of(pixels: Seq<Pixel>, cs: Seq<Pixel>) -> Seq<usize> {
    Seq::new(pixels.len(), |i: int| nearest(pixels[i], cs) as usize)
}

/// The pixels among the first `n` of `pixels` that `a` assigns to cluster `i`, in order.
pub open spec fn cluster_upto(pixels: Seq<Pixel>, a: Seq<usize>, i: int, n: int) -> Seq<Pixel>
    decreases n,
{
    if n <= 0 {
        Seq::empty()
    } else if a[n - 1] == i {
        cluster_upto(pixels, a, i, n - 1).push(pixels[n - 1])
    } else {
        cluster_upto(pixels, a, i, n - 1)
    }
}

/// The pixels that `a` assigns to cluster `i`, in order.
pub open spec fn cluster(pixels: Seq<Pixel>, a: Seq<usize>, i: int) -> Seq<Pixel> {
    cluster_upto(pixels, a, i, pixels.len() as int)
}

/// The mean colours of the non-empty clusters among the first `j`, in cluster order.
pub open spec fn cluster_palette(pixels: Seq<Pixel>, a: Seq<usize>, j: int) -> Seq<Color>
    decreases j,
{
    if j <= 0 {
        Seq::empty()
    } else if cluster(pixels, a, j - 1).len() > 0 {
        cluster_palette(pixels, a, j - 1).push(mean_color_of(cluster(pixels, a, j - 1)))
    } else {
        cluster_palette(pixels, a, j - 1)
    }
}

/// The non-empty clusters among the first `j`, in cluster order.
pub open spec fn nonempty_clusters(pixels: Seq<Pixel>, a: Seq<usize>, j: int) -> Seq<Seq<Pixel>>
    decreases j,
{
    if j <= 0 {
        Seq::empty()
    } else if cluster(pixels, a, j - 1).len() > 0 {
        nonempty_clusters(pixels, a, j - 1).push(cluster(pixels, a, j - 1))
    } else {
        nonempty_clusters(pixels, a, j - 1)
    }
}

/// The largest of the first `j` clusters, the last of equally large ones.
pub open spec fn largest_cluster(pixels: Seq<Pixel>, a: Seq<usize>, j: int) -> int
    decreases j,
{
    if j <= 1 {
        0
    } else {
        let b = largest_cluster(pixels, a, j - 1);
        if cluster(pixels, a, j - 1).len() >= cluster(pixels, a, b).len() {
            j - 1
        } else {
            b
        }
    }
}

/// A centroid after an update: the channel means of its cluster, rounded
/// down, when the cluster holds pixels; a pixel of the largest cluster when it
/// is empty; mid grey when there are no pixels at all.
pub open spec fn updated_centroid(pixels: Seq<Pixel>, a: Seq<usize>, k: int, i: int, c: Pixel) -> bool {
    let cl = cluster(pixels, a, i);
    if cl.len() > 0 {
        forall|ch: int| 0 <= ch < 3 ==> c[ch] as int == #[trigger] channel_sum(cl, ch) / cl.len() as int
    } else if pixels.len() > 0 {
        cluster(pixels, a, largest_cluster(pixels, a, k)).contains(c)
    } else {
        c[0] == 128 && c[1] == 128 && c[2] == 128
    }
}

/// `counts` and `sums` hold the sizes and channel sums of the first `k`
/// clusters among the first `n` pixels.
spec fn stats_upto(counts: Seq<usize>, sums: Seq<[u64; 3]>, pixels: Seq<Pixel>, a: Seq<usize>, k: int, n: int) -> bool {
    forall|c: int| 0 <= c < k ==> {
        &&& (#[trigger] counts[c]) == cluster_upto(pixels, a, c, n).len()
        &&& sums[c][0] == channel_sum(cluster_upto(pixels, a, c, n), 0)
        &&& sums[c][1] == channel_sum(cluster_upto(pixels, a, c, n), 1)
        &&& sums[c][2] == channel_sum(cluster_upto(pixels, a, c, n), 2)
    }
}

/// Every assigned cluster index lies below `k`.
pub open spec fn assignment_below(a: Seq<usize>, k: int) -> bool {
    forall|q: int| 0 <= q < a.len() ==> #[trigger] a[q] < k
}

/// The smallest squared distance from `p` to a centroid of `cs`.
pub open spec fn min_sq_dist(p: Pixel, cs: Seq<Pixel>) -> int
    decreases cs.len(),
{
    if cs.len() == 0 {
        195075
    } else if sq_dist(p, cs.last()) < min_sq_dist(p, cs.drop_last()) {
        sq_dist(p, cs.last())
    } else {
        min_sq_dist(p, cs.drop_last())
    }
}

/// `a` and `b` agree in every channel.
pub open spec fn same_color(a: Pixel, b: Pixel) -> bool {
    a[0] == b[0] && a[1] == b[1] && a[2] == b[2]
}

/// `p` is none of the centroids of `cs`.
pub open spec fn new_color(p: Pixel, cs: Seq<Pixel>) -> bool {
    forall|j: int| 0 <= j < cs.len() ==> !same_color(#[trigger] cs[j], p)
}

/// The sum of the first `i` weights.
pub open spec fn wsum(w: Seq<u32>, i: int) -> int
    decreases i,
{
    if i <= 0 {
        0
    } else {
        wsum(w, i - 1) + w[i - 1]
    }
}

/// Centroid `j` of `cs` is a new colour whenever some pixel still was one:
/// k-means++ picks a colour not yet chosen while there is such a colour.
pub open spec fn spread_at(pixels: Seq<Pixel>, cs: Seq<Pixel>, j: int) -> bool {
    (exists|q: int| 0 <= q < pixels.len() && new_color(#[trigger] pixels[q], cs.take(j))) ==> new_color(cs[j], cs.take(j))
}

/// The squared distance of every pixel to its nearest centroid of `cs`: the
/// weights of the k-means++ draw.
pub open spec fn d2_weights(pixels: Seq<Pixel>, cs: Seq<Pixel>) -> Seq<u32> {
    Seq::new(pixels.len(), |q: int| min_sq_dist(pixels[q], cs) as u32)
}

/// Centroid `j` of `cs` was drawn the k-means++ way: when some pixel lies
/// away from the earlier centroids, it is the pixel that the roulette picks
/// for some dart below the sum of the squared-distance weights.
pub open spec fn drawn_at(pixels: Seq<Pixel>, cs: Seq<Pixel>, j: int) -> bool {
    let w = d2_weights(pixels, cs.take(j));
    let total = wsum(w, pixels.len() as int);
    total > 0 ==> exists|dart: int, r: int|
        0 <= dart < total && 0 <= r < pixels.len() && #[trigger] roulette_picks(w, dart, r) && pixels[r] == cs[j]
}

/// The roulette draw `dart` picks index `r` of `w`: the running sum of the
/// weights passes the dart first at `r`.
pub open spec fn roulette_picks(w: Seq<u32>, dart: int, r: int) -> bool {
    wsum(w, r) <= dart < wsum(w, r + 1)
}

/// `palette` holds the mean colours of the non-empty clusters that some `k`
/// centroids give when every pixel goes to its nearest centroid.
pub open spec fn is_kmeans_palette(palette: Seq<Color>, pixels: Seq<Pixel>, k: int) -> bool {
    exists|cs: Seq<Pixel>| cs.len() == k && #[trigger] cluster_palette(pixels, assignment_of(pixels, cs), k) == palette
}

/// `cs` can begin a k-means run on `pixels`: `k` pixels of the image, each
/// after the first drawn by the squared-distance roulette of k-means++, and
/// so a colour not chosen before while such a colour remains.
pub open spec fn initial_centroids(pixels: Seq<Pixel>, cs: Seq<Pixel>, k: int) -> bool {
    &&& cs.len() == k
    &&& forall|j: int| 0 <= j < k ==> pixels.contains(#[trigger] cs[j])
    &&& forall|j: int| 1 <= j < k ==> #[trigger] spread_at(pixels, cs, j)
    &&& forall|j: int| 1 <= j < k ==> #[trigger] drawn_at(pixels, cs, j)
}

/// `next` is what one step gives from `cs`: every pixel goes to its nearest
/// centroid, then every centroid is updated from its cluster.
pub open spec fn update_step(pixels: Seq<Pixel>, cs: Seq<Pixel>, next: Seq<Pixel>, k: int) -> bool {
    &&& next.len() == k
    &&& forall|i: int| 0 <= i < k ==> #[trigger] updated_centroid(pixels, assignment_of(pixels, cs), k, i, next[i])
}

/// The largest squared distance between the first `j` centroids of `cs` and
/// their counterparts in `next`.
pub open spec fn max_move(cs: Seq<Pixel>, next: Seq<Pixel>, j: int) -> int
    decreases j,
{
    if j <= 0 {
        0
    } else {
        let m = max_move(cs, next, j - 1);
        let d = sq_dist(cs[j - 1], next[j - 1]);
        if d > m {
            d
        } else {
            m
        }
    }
}

/// `trace` is a run of k-means: initial centroids, then one step after
/// another, at most `max_iter` of them; every step before the last moved some
/// centroid by a squared distance of `threshold` or more, and a run that
/// stopped before `max_iter` steps did so at the first step that moved none
/// that far.
pub open spec fn kmeans_run(pixels: Seq<Pixel>, trace: Seq<Seq<Pixel>>, k: int, max_iter: int, threshold: int) -> bool {
    let steps = trace.len() - 1;
    &&& trace.len() >= 1
    &&& initial_centroids(pixels, trace[0], k)
    &&& forall|t: int| 0 <= t < steps ==> #[trigger] update_step(pixels, trace[t], trace[t + 1], k)
    &&& steps <= max_iter
    &&& forall|t: int| 0 <= t < steps - 1 ==> #[trigger] max_move(trace[t], trace[t + 1], k) >= threshold
    &&& steps < max_iter ==> steps >= 1 && max_move(trace[steps - 1], trace[steps], k) < threshold
}

/// `palette` holds the mean colours of the non-empty clusters at the end of a
/// run of k-means with `k` centroids.
pub open spec fn is_kmeans_run_palette(palette: Seq<Color>, pixels: Seq<Pixel>, k: int, max_iter: int, threshold: int) -> bool {
    exists|trace: Seq<Seq<Pixel>>|
        #[trigger] kmeans_run(pixels, trace, k, max_iter, threshold)
            && palette == cluster_palette(pixels, assignment_of(pixels, trace.last()), k)
}

// ── Lemmas ───────────────────────────────────────────────────────────────────

/// Pixels with equal channels have the same nearest centroid.
proof fn lemma_nearest_same(p: Pixel, q: Pixel, cs: Seq<Pixel>)
    requires
        same_color(p, q),
    ensures
        nearest(p, cs) == nearest(q, cs),
    decreases cs.len(),
{
    if cs.len() > 1 {
        lemma_nearest_same(p, q, cs.drop_last());
        let b = nearest(p, cs.drop_last());
        assert(sq_dist(p, cs.last()) == sq_dist(q, cs.last()));
        assert(sq_dist(p, cs[b]) == sq_dist(q, cs[b]));
    }
}

/// When every pixel goes to cluster `i0`, that cluster holds all of them and
/// the others none.
proof fn lemma_cluster_upto_single(pixels: Seq<Pixel>, a: Seq<usize>, i0: int, i: int, n: int)
    requires
        0 <= n <= pixels.len(),
        n <= a.len(),
        forall|q: int| 0 <= q < n ==> #[trigger] a[q] == i0,
    ensures
        cluster_upto(pixels, a, i, n).len() == if i == i0 { n } else { 0 },
    decreases n,
{
    if n > 0 {
        lemma_cluster_upto_single(pixels, a, i0, i, n - 1);
        assert(a[n - 1] == i0);
    }
}

/// When every pixel goes to cluster `i0`, the palette of the first `j`
/// clusters has one colour if `i0` is among them and none otherwise.
proof fn lemma_cluster_palette_single(pixels: Seq<Pixel>, a: Seq<usize>, i0: int, j: int)
    requires
        pixels.len() > 0,
        a.len() == pixels.len(),
        i0 >= 0,
        forall|q: int| 0 <= q < pixels.len() ==> #[trigger] a[q] == i0,
    ensures
        cluster_palette(pixels, a, j).len() == if 0 <= i0 < j { 1int } else { 0int },
    decreases j,
{
    if j > 0 {
        lemma_cluster_palette_single(pixels, a, i0, j - 1);
        lemma_cluster_upto_single(pixels, a, i0, j - 1, pixels.len() as int);
    }
}

/// K-means gives an image of a single colour back as one colour: all its
/// pixels go to the same centroid.
pub proof fn lemma_kmeans_single_color(palette: Seq<Color>, pixels: Seq<Pixel>, k: int)
    requires
        is_kmeans_palette(palette, pixels, k),
        uniform(pixels),
        pixels.len() > 0,
        1 <= k <= usize::MAX,
    ensures
        palette.len() == 1,
{
    let cs = choose|cs: Seq<Pixel>| cs.len() == k && #[trigger] cluster_palette(pixels, assignment_of(pixels, cs), k) == palette;
    let a = assignment_of(pixels, cs);
    let i0 = nearest(pixels[0], cs);
    lemma_nearest_bounds(pixels[0], cs);
    assert forall|q: int| 0 <= q < pixels.len() implies #[trigger] a[q] == i0 by {
        assert(pixels[q][0] == pixels[0][0]);
        assert(pixels[q][1] == pixels[0][1]);
        assert(pixels[q][2] == pixels[0][2]);
        assert(same_color(pixels[q], pixels[0]));
        lemma_nearest_same(pixels[q], pixels[0], cs);
        assert(a[q] == nearest(pixels[q], cs) as usize);
    }
    lemma_cluster_palette_single(pixels, a, i0, k);
}

proof fn lemma_sq_dist_zero(p: Pixel, c: Pixel)
    ensures
        sq_dist(p, c) >= 0,
        sq_dist(p, c) <= 195075,
        sq_dist(p, c) == 0 <==> same_color(c, p),
{
    let dr = p[0] - c[0];
    let dg = p[1] - c[1];
    let db = p[2] - c[2];
    if same_color(c, p) {
        assert(dr == 0 && dg == 0 && db == 0);
        assert(dr * dr == 0 && dg * dg == 0 && db * db == 0) by (nonlinear_arith)
            requires dr == 0 && dg == 0 && db == 0;
    }
    assert(dr * dr >= 0 && dg * dg >= 0 && db * db >= 0) by (nonlinear_arith);
    assert(dr * dr <= 65025 && dg * dg <= 65025 && db * db <= 65025) by (nonlinear_arith)
        requires -255 <= dr <= 255, -255 <= dg <= 255, -255 <= db <= 255;
    if sq_dist(p, c) == 0 {
        assert(dr * dr == 0 && dg * dg == 0 && db * db == 0);
        assert(dr == 0) by (nonlinear_arith) requires dr * dr == 0;
        assert(dg == 0) by (nonlinear_arith) requires dg * dg == 0;
        assert(db == 0) by (nonlinear_arith) requires db * db == 0;
    }
}

proof fn lemma_nearest_bounds(p: Pixel, cs: Seq<Pixel>)
    ensures
        cs.len() > 0 ==> 0 <= nearest(p, cs) < cs.len(),
        nearest(p, cs) >= 0,
    decreases cs.len(),
{
    if cs.len() > 1 {
        lemma_nearest_bounds(p, cs.drop_last());
    }
}

/// The centroid that a pixel is assigned to is no farther from it than any
/// other centroid.
pub proof fn lemma_nearest_is_nearest(p: Pixel, cs: Seq<Pixel>, j: int)
    requires
        0 <= j < cs.len(),
    ensures
        0 <= nearest(p, cs) < cs.len(),
        sq_dist(p, cs[nearest(p, cs)]) <= sq_dist(p, cs[j]),
    decreases cs.len(),
{
    lemma_nearest_bounds(p, cs);
    if cs.len() > 1 {
        lemma_nearest_bounds(p, cs.drop_last());
        if j < cs.len() - 1 {
            lemma_nearest_is_nearest(p, cs.drop_last(), j);
        } else {
            let b = nearest(p, cs.drop_last());
            assert(cs.drop_last()[b] == cs[b]);
        }
        let b = nearest(p, cs.drop_last());
        assert(cs.drop_last()[b] == cs[b]);
        if j < cs.len() - 1 {
            assert(cs.drop_last()[j] == cs[j]);
        }
    }
}

proof fn lemma_min_sq_dist(p: Pixel, cs: Seq<Pixel>)
    requires
        cs.len() > 0,
    ensures
        0 <= min_sq_dist(p, cs) <= 195075,
        min_sq_dist(p, cs) == 0 <==> !new_color(p, cs),
    decreases cs.len(),
{
    lemma_sq_dist_zero(p, cs.last());
    let d = cs.drop_last();
    let m = min_sq_dist(p, cs);
    let sl = sq_dist(p, cs.last());
    assert(cs.last() == cs[cs.len() - 1]);
    assert forall|j: int| 0 <= j < d.len() implies #[trigger] d[j] == cs[j] by {}
    if cs.len() > 1 {
        lemma_min_sq_dist(p, d);
        let md = min_sq_dist(p, d);
        assert(m == if sl < md { sl } else { md });
        if new_color(p, cs) {
            assert(new_color(p, d));
            assert(!same_color(cs[cs.len() - 1], p));
            assert(md > 0 && sl > 0);
        } else {
            let j = choose|j: int| 0 <= j < cs.len() && same_color(#[trigger] cs[j], p);
            if j < d.len() {
                assert(same_color(d[j], p));
                assert(md == 0);
            } else {
                assert(sl == 0);
            }
        }
    } else {
        assert(min_sq_dist(p, d) == 195075);
        if new_color(p, cs) {
            assert(!same_color(cs[0], p));
        } else {
            let j = choose|j: int| 0 <= j < cs.len() && same_color(#[trigger] cs[j], p);
            assert(j == 0);
        }
    }
}

proof fn lemma_wsum_push(w: Seq<u32>, x: u32, i: int)
    requires
        0 <= i == w.len(),
    ensures
        wsum(w.push(x), i + 1) == wsum(w, i) + x,
        wsum(w.push(x), i) == wsum(w, i),
{
    lemma_wsum_prefix(w.push(x), w, i);
}

/// Weights that agree on the first `i` sum alike there.
proof fn lemma_wsum_prefix(w: Seq<u32>, v: Seq<u32>, i: int)
    requires
        0 <= i <= w.len(),
        i <= v.len(),
        forall|q: int| 0 <= q < i ==> w[q] == v[q],
    ensures
        wsum(w, i) == wsum(v, i),
    decreases i,
{
    if i > 0 {
        lemma_wsum_prefix(w, v, i - 1);
    }
}

proof fn lemma_wsum_bounds(w: Seq<u32>, i: int)
    requires
        0 <= i <= w.len(),
        forall|q: int| 0 <= q < w.len() ==> #[trigger] w[q] <= 195075,
    ensures
        0 <= wsum(w, i) <= 195075 * i,
    decreases i,
{
    if i > 0 {
        lemma_wsum_bounds(w, i - 1);
    }
}

/// Weights that fit in `u32` sum to less than `2^32` each.
proof fn lemma_wsum_u32(w: Seq<u32>, i: int)
    requires
        0 <= i <= w.len(),
    ensures
        0 <= wsum(w, i) <= 0x1_0000_0000 * i,
    decreases i,
{
    if i > 0 {
        lemma_wsum_u32(w, i - 1);
    }
}

proof fn lemma_wsum_mono(w: Seq<u32>, i: int, j: int)
    requires
        0 <= i <= j <= w.len(),
    ensures
        wsum(w, i) <= wsum(w, j),
    decreases j - i,
{
    if i < j {
        lemma_wsum_mono(w, i, j - 1);
    }
}

/// All weights vanish when their sum does.
proof fn lemma_wsum_zero(w: Seq<u32>, i: int, q: int)
    requires
        0 <= q < i <= w.len(),
        wsum(w, i) == 0,
    ensures
        w[q] == 0,
    decreases i,
{
    lemma_wsum_mono(w, 0, i - 1);
    if q < i - 1 {
        lemma_wsum_zero(w, i - 1, q);
    }
}

proof fn lemma_cluster_upto_len(pixels: Seq<Pixel>, a: Seq<usize>, i: int, n: int)
    ensures
        cluster_upto(pixels, a, i, n).len() <= if n >= 0 { n } else { 0 },
    decreases n,
{
    if n > 0 {
        lemma_cluster_upto_len(pixels, a, i, n - 1);
    }
}

/// The multiset of the first `j` clusters of the first `n` pixels.
spec fn clusters_ms(pixels: Seq<Pixel>, a: Seq<usize>, j: int, n: int) -> Multiset<Pixel>
    decreases j,
{
    if j <= 0 {
        Multiset::empty()
    } else {
        clusters_ms(pixels, a, j - 1, n).add(cluster_upto(pixels, a, j - 1, n).to_multiset())
    }
}

/// Adding pixel `n - 1` adds it to exactly the cluster it is assigned to.
proof fn lemma_clusters_ms_step(pixels: Seq<Pixel>, a: Seq<usize>, j: int, n: int)
    requires
        1 <= n <= pixels.len(),
        n <= a.len(),
        0 <= j,
    ensures
        clusters_ms(pixels, a, j, n) == if a[n - 1] < j {
            clusters_ms(pixels, a, j, n - 1).insert(pixels[n - 1])
        } else {
            clusters_ms(pixels, a, j, n - 1)
        },
    decreases j,
{
    broadcast use vstd::multiset::group_multiset_axioms;
    broadcast use vstd::seq_lib::group_to_multiset_ensures;
    if j > 0 {
        lemma_clusters_ms_step(pixels, a, j - 1, n);
        let c = cluster_upto(pixels, a, j - 1, n - 1);
        if a[n - 1] == j - 1 {
            assert(cluster_upto(pixels, a, j - 1, n).to_multiset() =~= c.to_multiset().insert(pixels[n - 1]));
            assert(clusters_ms(pixels, a, j, n) =~= clusters_ms(pixels, a, j, n - 1).insert(pixels[n - 1]));
        } else if a[n - 1] < j - 1 {
            assert(clusters_ms(pixels, a, j, n) =~= clusters_ms(pixels, a, j, n - 1).insert(pixels[n - 1]));
        } else {
            assert(clusters_ms(pixels, a, j, n) =~= clusters_ms(pixels, a, j, n - 1));
        }
    }
}

/// The clusters split the pixels.
proof fn lemma_clusters_ms(pixels: Seq<Pixel>, a: Seq<usize>, k: int, n: int)
    requires
        0 <= n <= pixels.len(),
        a.len() == pixels.len(),
        assignment_below(a, k),
        0 <= k,
    ensures
        clusters_ms(pixels, a, k, n) == pixels.take(n).to_multiset(),
    decreases n,
{
    broadcast use vstd::multiset::group_multiset_axioms;
    broadcast use vstd::seq_lib::group_to_multiset_ensures;
    if n == 0 {
        lemma_clusters_ms_empty(pixels, a, k);
        assert(pixels.take(0) =~= Seq::<Pixel>::empty());
    } else {
        lemma_clusters_ms(pixels, a, k, n - 1);
        lemma_clusters_ms_step(pixels, a, k, n);
        assert(pixels.take(n) =~= pixels.take(n - 1).push(pixels[n - 1]));
    }
}

proof fn lemma_clusters_ms_empty(pixels: Seq<Pixel>, a: Seq<usize>, j: int)
    ensures
        clusters_ms(pixels, a, j, 0) == Multiset::<Pixel>::empty(),
    decreases j,
{
    broadcast use vstd::multiset::group_multiset_axioms;
    broadcast use vstd::seq_lib::group_to_multiset_ensures;
    if j > 0 {
        lemma_clusters_ms_empty(pixels, a, j - 1);
        assert(cluster_upto(pixels, a, j - 1, 0).to_multiset() =~= Multiset::<Pixel>::empty());
        assert(clusters_ms(pixels, a, j, 0) =~= Multiset::<Pixel>::empty());
    }
}

/// The palette of cluster means is the palette of a partition of the pixels.
proof fn lemma_cluster_palette(pixels: Seq<Pixel>, a: Seq<usize>, j: int)
    requires
        0 <= j,
    ensures
        means_of_partition_or_empty(cluster_palette(pixels, a, j), nonempty_clusters(pixels, a, j)),
        parts_multiset(nonempty_clusters(pixels, a, j)) == clusters_ms(pixels, a, j, pixels.len() as int),
        cluster_palette(pixels, a, j).len() <= j,
        forall|q: int| 0 <= q < nonempty_clusters(pixels, a, j).len()
            ==> (#[trigger] nonempty_clusters(pixels, a, j)[q]).len() <= pixels.len(),
    decreases j,
{
    broadcast use vstd::multiset::group_multiset_axioms;
    broadcast use vstd::seq_lib::group_to_multiset_ensures;
    if j > 0 {
        lemma_cluster_palette(pixels, a, j - 1);
        let c = cluster(pixels, a, j - 1);
        let p = cluster_palette(pixels, a, j - 1);
        let ps = nonempty_clusters(pixels, a, j - 1);
        lemma_cluster_upto_len(pixels, a, j - 1, pixels.len() as int);
        if c.len() > 0 {
            lemma_parts_multiset_push(ps, c);
            assert forall|q: int| 0 <= q < ps.len() + 1 implies (#[trigger] ps.push(c)[q]).len() <= pixels.len() by {
                if q < ps.len() {
                    assert(ps.push(c)[q] == ps[q]);
                }
            }
            assert forall|i: int| 0 <= i < ps.len() + 1 implies (#[trigger] ps.push(c)[i]).len() > 0
                && p.push(mean_color_of(c))[i] == mean_color_of(ps.push(c)[i]) by {
                if i < ps.len() {
                    assert(ps.push(c)[i] == ps[i]);
                    assert(p.push(mean_color_of(c))[i] == p[i]);
                }
            }
        } else {
            assert(c.to_multiset() =~= Multiset::<Pixel>::empty());
            assert(clusters_ms(pixels, a, j, pixels.len() as int) =~= clusters_ms(pixels, a, j - 1, pixels.len() as int));
        }
    }
}

/// The palette lists, in order, the mean colour of each group.
spec fn means_of_partition_or_empty(palette: Seq<Color>, parts: Seq<Seq<Pixel>>) -> bool {
    &&& palette.len() == parts.len()
    &&& forall|i: int| 0 <= i < parts.len() ==> (#[trigger] parts[i]).len() > 0 && palette[i] == mean_color_of(parts[i])
}

/// A cluster that holds one of the first `n` pixels is not empty.
proof fn lemma_cluster_nonempty(pixels: Seq<Pixel>, a: Seq<usize>, i: int, n: int)
    requires
        1 <= n,
        a[0] == i,
    ensures
        cluster_upto(pixels, a, i, n).len() > 0,
    decreases n,
{
    if n > 1 {
        lemma_cluster_nonempty(pixels, a, i, n - 1);
    }
}

/// The largest cluster is no smaller than any other.
proof fn lemma_largest_cluster(pixels: Seq<Pixel>, a: Seq<usize>, j: int, c: int)
    requires
        0 <= c < j,
    ensures
        cluster(pixels, a, largest_cluster(pixels, a, j)).len() >= cluster(pixels, a, c).len(),
        0 <= largest_cluster(pixels, a, j) < j,
    decreases j,
{
    if j > 1 {
        if c < j - 1 {
            lemma_largest_cluster(pixels, a, j - 1, c);
        } else {
            lemma_largest_cluster(pixels, a, j - 1, 0);
        }
    }
}

proof fn lemma_div_le_255(s: int, n: int)
    requires
        n > 0,
        0 <= s <= 255 * n,
    ensures
        0 <= s / n <= 255,
{
    vstd::arithmetic::div_mod::lemma_div_is_ordered(s, 255 * n, n);
    vstd::arithmetic::div_mod::lemma_div_by_multiple(255, n);
    vstd::arithmetic::div_mod::lemma_div_pos_is_pos(s, n);
}

/// Some non-empty cluster below `j` gives the palette a colour.
proof fn lemma_cluster_palette_nonempty(pixels: Seq<Pixel>, a: Seq<usize>, j: int, c: int)
    requires
        0 <= c < j,
        cluster(pixels, a, c).len() > 0,
    ensures
        cluster_palette(pixels, a, j).len() > 0,
    decreases j,
{
    if c < j - 1 {
        lemma_cluster_palette_nonempty(pixels, a, j - 1, c);
        if cluster(pixels, a, j - 1).len() > 0 {
        }
    }
}

/// A palette of cluster means splits the pixels and counts each of them once.
proof fn lemma_kmeans_palette(pixels: Seq<Pixel>, a: Seq<usize>, k: int)
    requires
        pixels.len() <= usize::MAX,
        a.len() == pixels.len(),
        assignment_below(a, k),
        0 <= k,
    ensures
        is_partition_means(cluster_palette(pixels, a, k), pixels),
        total_count(cluster_palette(pixels, a, k)) == pixels.len(),
        cluster_palette(pixels, a, k).len() <= k,
        forall|q: int| 0 <= q < cluster_palette(pixels, a, k).len()
            ==> #[trigger] cluster_palette(pixels, a, k)[q].pixel_count > 0,
{
    broadcast use vstd::seq_lib::group_to_multiset_ensures;
    let p = cluster_palette(pixels, a, k);
    let parts = nonempty_clusters(pixels, a, k);
    lemma_cluster_palette(pixels, a, k);
    lemma_clusters_ms(pixels, a, k, pixels.len() as int);
    assert(pixels.take(pixels.len() as int) =~= pixels);
    assert(means_of_partition(p, parts, pixels));
    assert forall|i: int| 0 <= i < parts.len() implies (#[trigger] p[i]).pixel_count == parts[i].len() by {
        assert(parts[i].len() <= pixels.len());
    }
    assert forall|q: int| 0 <= q < p.len() implies #[trigger] p[q].pixel_count > 0 by {
        assert(parts[q].len() > 0);
    }
    lemma_total_count_parts(p, parts);
}

// ── Code ─────────────────────────────────────────────────────────────────────

/// Assigns every pixel to the index of its nearest centroid, by squared
/// Euclidean distance; the first of equally near centroids wins.
pub fn assign_pixels(pixels: &[Pixel], centroids: &[Pixel]) -> (a: Vec<usize>)
    ensures
        a@ == assignment_of(pixels@, centroids@),
        centroids@.len() > 0 ==> assignment_below(a@, centroids@.len() as int),
{
    let mut a: Vec<usize> = Vec::new();
    let mut i: usize = 0;
    while i < pixels.len()
        invariant
            i <= pixels@.len(),
            a@.len() == i,
            forall|q: int| 0 <= q < i ==> #[trigger] a@[q] == nearest(pixels@[q], centroids@) as usize,
            forall|q: int| 0 <= q < i ==> 0 <= #[trigger] nearest(pixels@[q], centroids@),
            centroids@.len() > 0 ==> forall|q: int| 0 <= q < i ==> #[trigger] a@[q] < centroids@.len(),
        decreases pixels@.len() - i,
    {
        let p = pixels[i];
        let mut best: usize = 0;
        let mut best_d: u32 = 0;
        if centroids.len() > 0 {
            best_d = Color::sq_distance_rgb(&p, &centroids[0]);
        }
        let mut j: usize = 1;
        proof {
            assert(centroids@.take(1).len() <= 1 ==> nearest(p, centroids@.take(1)) == 0);
        }
        while j < centroids.len()
            invariant
                1 <= j,
                centroids@.len() > 0 ==> j <= centroids@.len(),
                centroids@.len() > 0 ==> best < j,
                centroids@.len() > 0 ==> best as int == nearest(p, centroids@.take(j as int)),
                centroids@.len() > 0 ==> best_d == sq_dist(p, centroids@[best as int]),
                centroids@.len() == 0 ==> best == 0,
            decreases centroids@.len() - j,
        {
            let d = Color::sq_distance_rgb(&p, &centroids[j]);
            proof {
                let t = centroids@.take(j + 1);
                assert(t.drop_last() =~= centroids@.take(j as int));
                assert(t.last() == centroids@[j as int]);
                assert(t[best as int] == centroids@[best as int]);
            }
            if d < best_d {
                best = j;
                best_d = d;
            }
            j = j + 1;
        }
        proof {
            if centroids@.len() > 0 {
                assert(j == centroids@.len());
                assert(best as int == nearest(p, centroids@.take(j as int)));
                assert(centroids@.take(j as int) =~= centroids@);
                assert(best as int == nearest(p, centroids@));
            } else {
                assert(nearest(p, centroids@) == 0);
                assert(best == 0);
            }
            lemma_nearest_bounds(p, centroids@);
        }
        a.push(best);
        proof {
            assert(a@[i as int] == best);
            assert(pixels@[i as int] == p);
            assert(best as int == nearest(p, centroids@));
        }
        i = i + 1;
    }
    proof {
        assert(a@ =~= assignment_of(pixels@, centroids@));
    }
    a
}

/// Moves every centroid to the channel means (rounded down) of the pixels
/// assigned to it.  A centroid left without pixels takes a random pixel of
/// the largest cluster (the last of equally large ones); with no pixels at all
/// it becomes mid grey.
pub fn update_centroids(pixels: &[Pixel], assignments: &[usize], k: usize, rng: &mut SmallRng) -> (cs: Vec<Pixel>)
    requires
        assignments@.len() == pixels@.len(),
        pixels@.len() <= MAX_PIXELS,
        assignment_below(assignments@, k as int),
    ensures
        cs@.len() == k,
        forall|i: int| 0 <= i < k ==> #[trigger] updated_centroid(pixels@, assignments@, k as int, i, cs@[i]),
{
    let ghost ps = pixels@;
    let ghost asg = assignments@;
    // Channel sums and pixel counts of every cluster.
    let mut sums: Vec<[u64; 3]> = Vec::new();
    let mut counts: Vec<usize> = Vec::new();
    let mut i: usize = 0;
    while i < k
        invariant
            i <= k,
            sums@.len() == i,
            counts@.len() == i,
            forall|q: int| 0 <= q < i ==> #[trigger] counts@[q] == 0 && sums@[q][0] == 0 && sums@[q][1] == 0 && sums@[q][2] == 0,
        decreases k - i,
    {
        sums.push([0u64, 0u64, 0u64]);
        counts.push(0);
        i = i + 1;
    }
    let mut q: usize = 0;
    proof {
        assert forall|c: int| 0 <= c < k implies {
            &&& (#[trigger] counts@[c]) == cluster_upto(ps, asg, c, q as int).len()
            &&& sums@[c][0] == channel_sum(cluster_upto(ps, asg, c, q as int), 0)
            &&& sums@[c][1] == channel_sum(cluster_upto(ps, asg, c, q as int), 1)
            &&& sums@[c][2] == channel_sum(cluster_upto(ps, asg, c, q as int), 2)
        } by {
            assert(counts@[c] == 0);
            assert(cluster_upto(ps, asg, c, 0) =~= Seq::<Pixel>::empty());
            assert(sums@[c][0] == 0 && sums@[c][1] == 0 && sums@[c][2] == 0);
        }
        assert(stats_upto(counts@, sums@, ps, asg, k as int, q as int));
    }
    while q < pixels.len()
        invariant
            q <= pixels@.len(),
            ps == pixels@,
            asg == assignments@,
            assignments@.len() == pixels@.len(),
            pixels@.len() <= MAX_PIXELS,
            assignment_below(asg, k as int),
            sums@.len() == k,
            counts@.len() == k,
            stats_upto(counts@, sums@, ps, asg, k as int, q as int),
        decreases pixels@.len() - q,
    {
        let p = pixels[q];
        let idx = assignments[q];
        proof {
            assert(asg[q as int] < k);
            let cl = cluster_upto(ps, asg, idx as int, q as int);
            assert(counts@[idx as int] == cl.len());
            assert(sums@[idx as int][0] == channel_sum(cl, 0));
            lemma_cluster_upto_len(ps, asg, idx as int, q as int);
            lemma_channel_sum_bounds(cl, 0);
            lemma_channel_sum_bounds(cl, 1);
            lemma_channel_sum_bounds(cl, 2);
            lemma_channel_sum_push(cl, p, 0);
            lemma_channel_sum_push(cl, p, 1);
            lemma_channel_sum_push(cl, p, 2);
            assert(255 * (cl.len() + 1) <= 255 * MAX_PIXELS);
        }
        let s = sums[idx];
        let ghost old_sums = sums@;
        let ghost old_counts = counts@;
        let new_s: [u64; 3] = [s[0] + p[0] as u64, s[1] + p[1] as u64, s[2] + p[2] as u64];
        sums.set(idx, new_s);
        counts.set(idx, counts[idx] + 1);
        proof {
            assert forall|c: int| 0 <= c < k implies {
                &&& (#[trigger] counts@[c]) == cluster_upto(ps, asg, c, q + 1).len()
                &&& sums@[c][0] == channel_sum(cluster_upto(ps, asg, c, q + 1), 0)
                &&& sums@[c][1] == channel_sum(cluster_upto(ps, asg, c, q + 1), 1)
                &&& sums@[c][2] == channel_sum(cluster_upto(ps, asg, c, q + 1), 2)
            } by {
                assert(ps[q as int] == p);
                assert(old_counts[c] == cluster_upto(ps, asg, c, q as int).len());
                assert(old_sums[c][0] == channel_sum(cluster_upto(ps, asg, c, q as int), 0));
                if c == idx {
                    assert(cluster_upto(ps, asg, c, q + 1) == cluster_upto(ps, asg, c, q as int).push(p));
                } else {
                    assert(cluster_upto(ps, asg, c, q + 1) == cluster_upto(ps, asg, c, q as int));
                    assert(sums@[c] == old_sums[c]);
                }
            }
            assert(stats_upto(counts@, sums@, ps, asg, k as int, q + 1));
        }
        q = q + 1;
    }
    proof {
        assert forall|c: int| 0 <= c < k implies {
            &&& (#[trigger] counts@[c]) == cluster(ps, asg, c).len()
            &&& sums@[c][0] == channel_sum(cluster(ps, asg, c), 0)
            &&& sums@[c][1] == channel_sum(cluster(ps, asg, c), 1)
            &&& sums@[c][2] == channel_sum(cluster(ps, asg, c), 2)
        } by {
            assert(cluster(ps, asg, c) == cluster_upto(ps, asg, c, q as int));
        }
    }
    // The largest cluster, the last of equally large ones.
    let mut largest: usize = 0;
    let mut j: usize = 1;
    while j < k
        invariant
            1 <= j,
            k > 0 ==> j <= k,
            k > 0 ==> largest < j,
            counts@.len() == k,
            forall|c: int| 0 <= c < k ==> (#[trigger] counts@[c]) == cluster(ps, asg, c).len(),
            k > 0 ==> largest as int == largest_cluster(ps, asg, j as int),
        decreases k - j,
    {
        if counts[j] >= counts[largest] {
            largest = j;
        }
        j = j + 1;
    }
    let mut cs: Vec<Pixel> = Vec::new();
    let mut i: usize = 0;
    while i < k
        invariant
            i <= k,
            cs@.len() == i,
            ps == pixels@,
            asg == assignments@,
            assignments@.len() == pixels@.len(),
            sums@.len() == k,
            counts@.len() == k,
            k > 0 ==> largest < k,
            k > 0 ==> largest as int == largest_cluster(ps, asg, k as int),
            assignment_below(asg, k as int),
            forall|c: int| 0 <= c < k ==> {
                &&& (#[trigger] counts@[c]) == cluster(ps, asg, c).len()
                &&& sums@[c][0] == channel_sum(cluster(ps, asg, c), 0)
                &&& sums@[c][1] == channel_sum(cluster(ps, asg, c), 1)
                &&& sums@[c][2] == channel_sum(cluster(ps, asg, c), 2)
            },
            forall|c: int| 0 <= c < i ==> #[trigger] updated_centroid(ps, asg, k as int, c, cs@[c]),
        decreases k - i,
    {
        let ghost before = cs@;
        if counts[i] == 0 {
            // Revive the empty cluster with a random pixel of the largest one.
            let mut candidates: Vec<Pixel> = Vec::new();
            let mut q: usize = 0;
            while q < pixels.len()
                invariant
                    q <= pixels@.len(),
                    ps == pixels@,
                    asg == assignments@,
                    assignments@.len() == pixels@.len(),
                    candidates@ == cluster_upto(ps, asg, largest as int, q as int),
                decreases pixels@.len() - q,
            {
                if assignments[q] == largest {
                    candidates.push(pixels[q]);
                }
                q = q + 1;
            }
            let c = if candidates.len() == 0 {
                [128u8, 128u8, 128u8]
            } else {
                let r = random_below(rng, candidates.len() as u128);
                proof {
                    let cl = cluster(ps, asg, largest as int);
                    assert(candidates@ == cluster_upto(ps, asg, largest as int, ps.len() as int));
                    assert(cl[r as int] == candidates@[r as int]);
                    assert(cl.contains(candidates@[r as int]));
                }
                candidates[r as usize]
            };
            proof {
                let cl = cluster(ps, asg, largest as int);
                if candidates@.len() > 0 {
                } else if ps.len() > 0 {
                    // Some cluster holds the first pixel, so the largest is not empty.
                    let c0 = asg[0] as int;
                    assert(asg[0] < k);
                    assert(0 < cluster(ps, asg, c0).len()) by {
                        lemma_cluster_nonempty(ps, asg, c0, ps.len() as int);
                    }
                    lemma_largest_cluster(ps, asg, k as int, c0);
                }
            }
            cs.push(c);
        } else {
            let n = counts[i] as u64;
            let s = sums[i];
            proof {
                let cl = cluster(ps, asg, i as int);
                lemma_channel_sum_bounds(cl, 0);
                lemma_channel_sum_bounds(cl, 1);
                lemma_channel_sum_bounds(cl, 2);
                lemma_div_le_255(s[0] as int, n as int);
                lemma_div_le_255(s[1] as int, n as int);
                lemma_div_le_255(s[2] as int, n as int);
            }
            let c: Pixel = [(s[0] / n) as u8, (s[1] / n) as u8, (s[2] / n) as u8];
            proof {
                let cl = cluster(ps, asg, i as int);
                assert forall|ch: int| 0 <= ch < 3 implies c[ch] as int == #[trigger] channel_sum(cl, ch) / cl.len() as int by {
                    if ch == 0 {
                    } else if ch == 1 {
                    } else {
                    }
                }
            }
            cs.push(c);
        }
        proof {
            assert forall|c: int| 0 <= c < i + 1 implies #[trigger] updated_centroid(ps, asg, k as int, c, cs@[c]) by {
                if c < i {
                    assert(cs@[c] == before[c]);
                }
            }
        }
        i = i + 1;
    }
    cs
}

/// K-means++ initialisation: the first centroid is a random pixel; every next
/// one is a pixel drawn with a weight equal to its squared distance to the
/// nearest centroid chosen so far (uniformly when all weights are zero).
pub fn kmeans_plus_plus_init(pixels: &[Pixel], k: usize, rng: &mut SmallRng) -> (cs: Vec<Pixel>)
    requires
        pixels@.len() > 0,
    ensures
        cs@.len() == if k == 0 { 1 } else { k as int },
        forall|j: int| 0 <= j < cs@.len() ==> pixels@.contains(#[trigger] cs@[j]),
        forall|j: int| 1 <= j < cs@.len() ==> #[trigger] spread_at(pixels@, cs@, j),
        forall|j: int| 1 <= j < cs@.len() ==> #[trigger] drawn_at(pixels@, cs@, j),
{
    let n = pixels.len();
    let mut centroids: Vec<Pixel> = Vec::new();
    let r0 = random_below(rng, n as u128);
    centroids.push(pixels[r0 as usize]);
    proof {
        assert(pixels@[r0 as int] == centroids@[0]);
    }
    let mut m: usize = 1;
    while m < k
        invariant
            n == pixels@.len(),
            n > 0,
            1 <= m,
            m <= k || m == 1,
            centroids@.len() == m,
            forall|j: int| 0 <= j < m ==> pixels@.contains(#[trigger] centroids@[j]),
            forall|j: int| 1 <= j < m ==> #[trigger] spread_at(pixels@, centroids@, j),
            forall|j: int| 1 <= j < m ==> #[trigger] drawn_at(pixels@, centroids@, j),
        decreases k - m,
    {
        // The squared distance of every pixel to its nearest centroid.
        let mut weights: Vec<u32> = Vec::new();
        let mut total: u128 = 0;
        let mut i: usize = 0;
        while i < n
            invariant
                n == pixels@.len(),
                i <= n,
                centroids@.len() == m,
                m >= 1,
                weights@.len() == i,
                forall|q: int| 0 <= q < i ==> #[trigger] weights@[q] == min_sq_dist(pixels@[q], centroids@),
                forall|q: int| 0 <= q < i ==> #[trigger] weights@[q] <= 195075,
                total == wsum(weights@, i as int),
                total <= 195075 * i,
            decreases n - i,
        {
            let p = pixels[i];
            let mut w: u32 = 195075;
            let mut j: usize = 0;
            while j < m
                invariant
                    j <= m,
                    centroids@.len() == m,
                    w == min_sq_dist(p, centroids@.take(j as int)),
                    w <= 195075,
                decreases m - j,
            {
                let d = Color::sq_distance_rgb(&p, &centroids[j]);
                proof {
                    let t = centroids@.take(j + 1);
                    assert(t.drop_last() =~= centroids@.take(j as int));
                    assert(t.last() == centroids@[j as int]);
                }
                if d < w {
                    w = d;
                }
                j = j + 1;
            }
            proof {
                assert(centroids@.take(m as int) =~= centroids@);
                assert(pixels@[i as int] == p);
                assert(weights@.push(w).take(i as int) =~= weights@.take(i as int));
                lemma_wsum_push(weights@, w, i as int);
            }
            weights.push(w);
            total = total + w as u128;
            i = i + 1;
        }
        let ghost cs0 = centroids@;
        proof {
            assert(weights@ =~= d2_weights(pixels@, cs0));
        }
        if total == 0 {
            // Every pixel is a centroid already; any pixel will do.
            let r = random_below(rng, n as u128);
            centroids.push(pixels[r as usize]);
            proof {
                assert forall|q: int| 0 <= q < n implies !new_color(#[trigger] pixels@[q], cs0) by {
                    lemma_wsum_zero(weights@, n as int, q);
                    lemma_min_sq_dist(pixels@[q], cs0);
                }
                assert(pixels@[r as int] == centroids@[m as int]);
            }
        } else {
            // Roulette: the first pixel whose running weight passes the dart.
            let dart = random_below(rng, total);
            let chosen = roulette_pick(weights.as_slice(), dart);
            proof {
                assert(wsum(weights@, chosen + 1) == wsum(weights@, chosen as int) + weights@[chosen as int]);
            }
            centroids.push(pixels[chosen]);
            proof {
                assert(centroids@.take(m as int) =~= cs0);
                assert(pixels@[chosen as int] == centroids@[m as int]);
                assert(roulette_picks(d2_weights(pixels@, cs0), dart as int, chosen as int));
                assert(drawn_at(pixels@, centroids@, m as int));
            }
            proof {
                lemma_min_sq_dist(pixels@[chosen as int], cs0);
                assert(pixels@[chosen as int] == centroids@[m as int]);
            }
        }
        proof {
            assert(centroids@.take(m as int) =~= cs0);
            assert forall|j: int| 0 <= j < m + 1 implies pixels@.contains(#[trigger] centroids@[j]) by {
                if j < m {
                    assert(centroids@[j] == cs0[j]);
                }
            }
            assert forall|j: int| 1 <= j < m + 1 implies #[trigger] drawn_at(pixels@, centroids@, j) by {
                if j < m {
                    assert(centroids@.take(j) =~= cs0.take(j));
                    assert(centroids@[j] == cs0[j]);
                    assert(drawn_at(pixels@, cs0, j));
                } else if j == m {
                    assert(centroids@.take(m as int) =~= cs0);
                }
            }
            assert forall|j: int| 1 <= j < m + 1 implies #[trigger] spread_at(pixels@, centroids@, j) by {
                if j < m {
                    assert(centroids@.take(j) =~= cs0.take(j));
                    assert(centroids@[j] == cs0[j]);
                    assert(spread_at(pixels@, cs0, j));
                }
            }
        }
        m = m + 1;
    }
    centroids
}

/// The index that the roulette draw `dart` picks from `weights`: the first
/// whose running sum of weights passes the dart, so that each index is picked
/// by as many darts as its weight.
pub fn roulette_pick(weights: &[u32], dart: u128) -> (r: usize)
    requires
        dart < wsum(weights@, weights@.len() as int),
    ensures
        r < weights@.len(),
        roulette_picks(weights@, dart as int, r as int),
{
    let n = weights.len();
    let mut acc: u128 = 0;
    let mut i: usize = 0;
    while i < n
        invariant
            i <= n,
            n == weights@.len(),
            dart < wsum(weights@, n as int),
            acc <= dart,
            acc == wsum(weights@, i as int),
        decreases n - i,
    {
        proof {
            lemma_wsum_mono(weights@, i + 1, n as int);
            lemma_wsum_u32(weights@, n as int);
        }
        acc = acc + weights[i] as u128;
        if acc > dart {
            return i;
        }
        i = i + 1;
    }
    proof {
        assert(false);
    }
    0
}

/// The mean colour of every non-empty cluster, in cluster order.
pub fn cluster_means(pixels: &[Pixel], assignments: &[usize], k: usize) -> (p: Vec<Color>)
    requires
        assignments@.len() == pixels@.len(),
        assignment_below(assignments@, k as int),
    ensures
        p@ == cluster_palette(pixels@, assignments@, k as int),
{
    let ghost ps = pixels@;
    let ghost asg = assignments@;
    let mut counts: Vec<usize> = Vec::new();
    let mut i: usize = 0;
    while i < k
        invariant
            i <= k,
            counts@.len() == i,
            forall|q: int| 0 <= q < i ==> #[trigger] counts@[q] == 0,
        decreases k - i,
    {
        counts.push(0);
        i = i + 1;
    }
    let mut q: usize = 0;
    proof {
        assert forall|c: int| 0 <= c < k implies #[trigger] counts@[c] == cluster_upto(ps, asg, c, q as int).len() by {}
    }
    while q < pixels.len()
        invariant
            q <= pixels@.len(),
            ps == pixels@,
            asg == assignments@,
            assignments@.len() == pixels@.len(),
            assignment_below(asg, k as int),
            counts@.len() == k,
            forall|c: int| 0 <= c < k ==> #[trigger] counts@[c] == cluster_upto(ps, asg, c, q as int).len(),
        decreases pixels@.len() - q,
    {
        let idx = assignments[q];
        let ghost old_counts = counts@;
        proof {
            assert(asg[q as int] < k);
            assert(counts@[idx as int] == cluster_upto(ps, asg, idx as int, q as int).len());
            lemma_cluster_upto_len(ps, asg, idx as int, q as int);
        }
        counts.set(idx, counts[idx] + 1);
        proof {
            assert forall|c: int| 0 <= c < k implies #[trigger] counts@[c] == cluster_upto(ps, asg, c, q + 1).len() by {
                assert(old_counts[c] == cluster_upto(ps, asg, c, q as int).len());
            }
        }
        q = q + 1;
    }
    let mut palette: Vec<Color> = Vec::new();
    let mut i: usize = 0;
    while i < k
        invariant
            i <= k,
            ps == pixels@,
            asg == assignments@,
            assignments@.len() == pixels@.len(),
            counts@.len() == k,
            forall|c: int| 0 <= c < k ==> #[trigger] counts@[c] == cluster(ps, asg, c).len(),
            palette@ == cluster_palette(ps, asg, i as int),
        decreases k - i,
    {
        if counts[i] > 0 {
            let mut members: Vec<Pixel> = Vec::new();
            let mut q: usize = 0;
            while q < pixels.len()
                invariant
                    q <= pixels@.len(),
                    ps == pixels@,
                    asg == assignments@,
                    assignments@.len() == pixels@.len(),
                    members@ == cluster_upto(ps, asg, i as int, q as int),
                decreases pixels@.len() - q,
            {
                if assignments[q] == i {
                    members.push(pixels[q]);
                }
                q = q + 1;
            }
            if let Some(c) = mean_color(members.as_slice()) {
                palette.push(c);
            }
        }
        i = i + 1;
    }
    palette
}

/// Extracts the dominant colours with k-means clustering.
///
/// With `k` the smaller of `max_colors` and the number of pixels, k-means++
/// picks `k` centroids, then steps of assignment and update follow until
/// `kmeans_max_iterations` steps are done or a step moves no centroid by a
/// squared distance of `kmeans_convergence_sq_threshold` or more.  The colours
/// are the rounded means of the non-empty clusters of the last centroids.
/// Which pixels the random draws pick depends on the seed.
pub fn extract(pixels: &[Pixel], config: &Config) -> (res: Result<Vec<Color>, DominantColorError>)
    requires
        pixels@.len() <= MAX_PIXELS,
    ensures
        (pixels@.len() == 0 || config.max_colors == 0) <==> res matches Err(DominantColorError::EmptyImage),
        res is Ok || res matches Err(DominantColorError::EmptyImage),
        res matches Ok(p) ==> {
            let k = if config.max_colors <= pixels@.len() { config.max_colors as int } else { pixels@.len() as int };
            &&& is_kmeans_run_palette(p@, pixels@, k, config.kmeans_max_iterations as int,
                config.kmeans_convergence_sq_threshold as int)
            &&& is_kmeans_palette(p@, pixels@, k)
            &&& is_partition_means(p@, pixels@)
            &&& total_count(p@) == pixels@.len()
            &&& forall|q: int| 0 <= q < p@.len() ==> #[trigger] p@[q].pixel_count > 0
            &&& 1 <= p@.len() <= k
        },
{
    let k = config.max_colors.min(pixels.len());
    if k == 0 {
        return Err(DominantColorError::EmptyImage);
    }
    let mut rng = seeded_rng(config.kmeans_seed);
    let mut centroids = kmeans_plus_plus_init(pixels, k, &mut rng);
    let ghost threshold = config.kmeans_convergence_sq_threshold as int;
    let ghost mut trace: Seq<Seq<Pixel>> = seq![centroids@];
    let mut iteration: usize = 0;
    let mut converged = false;
    while iteration < config.kmeans_max_iterations && !converged
        invariant
            centroids@.len() == k,
            k >= 1,
            pixels@.len() <= MAX_PIXELS,
            threshold == config.kmeans_convergence_sq_threshold as int,
            iteration <= config.kmeans_max_iterations,
            trace.len() == iteration + 1,
            trace.last() == centroids@,
            initial_centroids(pixels@, trace[0], k as int),
            forall|t: int| 0 <= t < iteration ==> #[trigger] update_step(pixels@, trace[t], trace[t + 1], k as int),
            forall|t: int| 0 <= t < iteration - 1 ==> #[trigger] max_move(trace[t], trace[t + 1], k as int) >= threshold,
            converged ==> iteration >= 1 && max_move(trace[iteration - 1], trace[iteration as int], k as int) < threshold,
            !converged && iteration >= 1 ==> max_move(trace[iteration - 1], trace[iteration as int], k as int) >= threshold,
        decreases config.kmeans_max_iterations - iteration,
    {
        let ghost prev = trace;
        let assignments = assign_pixels(pixels, &centroids);
        let new_centroids = update_centroids(pixels, &assignments, k, &mut rng);
        // The largest squared move of a centroid.
        let mut max_shift: u32 = 0;
        let mut j: usize = 0;
        while j < k
            invariant
                j <= k,
                centroids@.len() == k,
                new_centroids@.len() == k,
                max_shift == max_move(centroids@, new_centroids@, j as int),
            decreases k - j,
        {
            let d = Color::sq_distance_rgb(&centroids[j], &new_centroids[j]);
            if d > max_shift {
                max_shift = d;
            }
            j = j + 1;
        }
        proof {
            trace = trace.push(new_centroids@);
            assert(update_step(pixels@, prev.last(), new_centroids@, k as int));
            assert forall|t: int| 0 <= t < iteration + 1 implies #[trigger] update_step(pixels@, trace[t], trace[t + 1], k as int) by {
                if t < iteration {
                    assert(trace[t] == prev[t] && trace[t + 1] == prev[t + 1]);
                } else {
                    assert(trace[t] == prev.last());
                }
            }
            assert forall|t: int| 0 <= t < iteration implies #[trigger] max_move(trace[t], trace[t + 1], k as int) >= threshold by {
                assert(trace[t] == prev[t] && trace[t + 1] == prev[t + 1]);
            }
        }
        centroids = new_centroids;
        if (max_shift as u64) < config.kmeans_convergence_sq_threshold {
            converged = true;
        }
        iteration = iteration + 1;
    }
    let assignments = assign_pixels(pixels, &centroids);
    let palette = cluster_means(pixels, &assignments, k);
    proof {
        assert(kmeans_run(pixels@, trace, k as int, config.kmeans_max_iterations as int, threshold));
        assert(is_kmeans_run_palette(palette@, pixels@, k as int, config.kmeans_max_iterations as int, threshold));
        let a = assignment_of(pixels@, centroids@);
        lemma_kmeans_palette(pixels@, a, k as int);
        let c0 = a[0] as int;
        assert(a[0] < k);
        lemma_cluster_nonempty(pixels@, a, c0, pixels@.len() as int);
        lemma_cluster_palette_nonempty(pixels@, a, k as int, c0);
        assert(is_kmeans_palette(palette@, pixels@, k as int));
    }
    if palette.len() == 0 {
        return Err(DominantColorError::internal("收敛后所有簇均为空"));
    }
    Ok(palette)
}

} // verus!
