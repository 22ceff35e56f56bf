//! Median cut.
//!
//! All pixels start in one bucket.  While there are fewer buckets than
//! colours requested, the largest bucket is sorted along the channel with the
//! widest range and cut at its median into two.  Each bucket then gives its
//! mean colour.

use vstd::multiset::Multiset;
use vstd::prelude::*;

use crate::color::{
    lemma_part_len_le, lemma_parts_multiset_len, lemma_parts_multiset_push, lemma_parts_multiset_remove, lemma_total_count_parts,
    all_of_color, is_partition_means, lemma_partition_covers_pixels, lemma_single_color_partition, mean_color,
    mean_color_of, means_of_partition, parts_multiset, total_count, Color, Pixel,
};
use crate::error::DominantColorError;
use crate::Config;

verus! {

/// Index of the red channel.
pub const R: usize = 0;

/// Index of the green channel.
pub const G: usize = 1;

/// Index of the blue channel.
pub const B: usize = 2;

/// The largest value of channel `c` over `s` (0 for no pixels).
pub open spec fn ch_max(s: Seq<Pixel>, c: int) -> int
    decreases s.len(),
{
    if s.len() == 0 {
        0
    } else if ch_max(s.drop_last(), c) >= s.last()[c] as int {
        ch_max(s.drop_last(), c)
    } else {
        s.last()[c] as int
    }
}

/// The smallest value of channel `c` over `s` (255 for no pixels).
pub open spec fn ch_min(s: Seq<Pixel>, c: int) -> int
    decreases s.len(),
{
    if s.len() == 0 {
        255
    } else if ch_min(s.drop_last(), c) <= s.last()[c] as int {
        ch_min(s.drop_last(), c)
    } else {
        s.last()[c] as int
    }
}

/// The range of channel `c` over `s`: largest minus smallest value, 0 for no pixels.
pub open spec fn ch_range(s: Seq<Pixel>, c: int) -> int {
    if ch_max(s, c) >= ch_min(s, c) {
        ch_max(s, c) - ch_min(s, c)
    } else {
        0
    }
}

/// The channel with the widest range; among equal ranges the earlier channel
/// (red before green before blue).
pub open spec fn longest_axis_of(s: Seq<Pixel>) -> int {
    let r = ch_range(s, 0);
    let g = ch_range(s, 1);
    let b = ch_range(s, 2);
    if r >= g && r >= b {
        0
    } else if g >= b {
        1
    } else {
        2
    }
}

/// `s` is in ascending order of channel `axis`.
pub open spec fn sorted_by_channel(s: Seq<Pixel>, axis: int) -> bool {
    forall|i: int, j: int| 0 <= i <= j < s.len() ==> #[trigger] s[i][axis] <= #[trigger] s[j][axis]
}

/// The index of the channel whose values spread widest over `pixels`
/// ([`R`], [`G`] or [`B`]); on a tie the earlier channel wins.
pub fn longest_axis(pixels: &[Pixel]) -> (axis: usize)
    ensures
        axis == longest_axis_of(pixels@),
        axis < 3,
{
    let mut r_min: u8 = u8::MAX;
    let mut r_max: u8 = u8::MIN;
    let mut g_min: u8 = u8::MAX;
    let mut g_max: u8 = u8::MIN;
    let mut b_min: u8 = u8::MAX;
    let mut b_max: u8 = u8::MIN;
    let mut i: usize = 0;
    while i < pixels.len()
        invariant
            i <= pixels@.len(),
            r_min == ch_min(pixels@.take(i as int), 0),
            r_max == ch_max(pixels@.take(i as int), 0),
            g_min == ch_min(pixels@.take(i as int), 1),
            g_max == ch_max(pixels@.take(i as int), 1),
            b_min == ch_min(pixels@.take(i as int), 2),
            b_max == ch_max(pixels@.take(i as int), 2),
        decreases pixels@.len() - i,
    {
        let p = pixels[i];
        proof {
            let t = pixels@.take(i + 1);
            assert(t.drop_last() =~= pixels@.take(i as int));
            assert(t.last() == p);
        }
        r_min = r_min.min(p[R]);
        r_max = r_max.max(p[R]);
        g_min = g_min.min(p[G]);
        g_max = g_max.max(p[G]);
        b_min = b_min.min(p[B]);
        b_max = b_max.max(p[B]);
        i = i + 1;
    }
    proof {
        assert(pixels@.take(pixels@.len() as int) =~= pixels@);
    }
    let ranges: [u8; 3] = [
        r_max.saturating_sub(r_min),
        g_max.saturating_sub(g_min),
        b_max.saturating_sub(b_min),
    ];
    // The first of the largest ranges wins.
    let mut best: usize = R;
    let mut c: usize = 1;
    while c < 3
        invariant
            1 <= c <= 3,
            best < c,
            forall|q: int| 0 <= q < c ==> ranges[q] <= ranges[best as int],
            forall|q: int| 0 <= q < best ==> ranges[q] < ranges[best as int],
        decreases 3 - c,
    {
        if ranges[c] > ranges[best] {
            best = c;
        }
        c = c + 1;
    }
    best
}

/// What the standard library's unstable sort by channel `axis` makes of `s`.
pub uninterp spec fn channel_sorted(s: Seq<Pixel>, axis: int) -> Seq<Pixel>;

/// Sorts `pixels` by channel `axis`, smallest first, with the standard
/// library's unstable sort.
///
/// Trusted: `slice::sort_unstable_by_key` is documented to sort the slice in
/// place by the key, so the result holds the same pixels in ascending order of
/// the key; it draws on no random source, so the order it leaves is a function
/// of the pixels and the channel, named `channel_sorted`.  Which of two pixels
/// with equal keys comes first is not stated.
#[verifier::external_body]
fn sort_by_channel(pixels: &mut Vec<Pixel>, axis: usize)
    requires
        axis < 3,
    ensures
        final(pixels)@.to_multiset() == old(pixels)@.to_multiset(),
        final(pixels)@.len() == old(pixels)@.len(),
        sorted_by_channel(final(pixels)@, axis as int),
        final(pixels)@ == channel_sorted(old(pixels)@, axis as int),
{
    pixels.sort_unstable_by_key(|p| p[axis]);
}

/// Sorts a bucket along its longest axis and cuts it at the median: the first
/// half goes left, the rest right.
pub fn split_bucket(pixels: Vec<Pixel>) -> (halves: (Vec<Pixel>, Vec<Pixel>))
    ensures
        halves.0@.len() == pixels@.len() / 2,
        halves.1@.len() == pixels@.len() - pixels@.len() / 2,
        (halves.0@ + halves.1@).to_multiset() == pixels@.to_multiset(),
        sorted_by_channel(halves.0@ + halves.1@, longest_axis_of(pixels@)),
        halves.0@ + halves.1@ == channel_sorted(pixels@, longest_axis_of(pixels@)),
{
    let mut pixels = pixels;
    let axis = longest_axis(&pixels);
    let ghost original = pixels@;
    sort_by_channel(&mut pixels, axis);
    let ghost sorted = pixels@;
    let mid = pixels.len() / 2;
    let right = pixels.split_off(mid);
    proof {
        assert(pixels@ + right@ =~= sorted);
    }
    (pixels, right)
}

/// Every pixel of `s` has the same colour.
pub open spec fn uniform(s: Seq<Pixel>) -> bool {
    forall|i: int, j: int| 0 <= i < s.len() && 0 <= j < s.len() ==> #[trigger] s[i][0] == #[trigger] s[j][0]
        && s[i][1] == s[j][1] && s[i][2] == s[j][2]
}

/// `a` and `b` agree in every channel.
spec fn same_pixel(a: Pixel, b: Pixel) -> bool {
    a[0] == b[0] && a[1] == b[1] && a[2] == b[2]
}

/// Whether every pixel of `pixels` has the same colour.
fn is_uniform(pixels: &[Pixel]) -> (u: bool)
    ensures
        u == uniform(pixels@),
{
    if pixels.len() == 0 {
        return true;
    }
    let first = pixels[0];
    let mut i: usize = 1;
    while i < pixels.len()
        invariant
            1 <= i <= pixels@.len(),
            first == pixels@[0],
            forall|q: int| 0 <= q < i ==> same_pixel(#[trigger] pixels@[q], first),
        decreases pixels@.len() - i,
    {
        let p = pixels[i];
        proof {
            assert(pixels@[i as int] == p);
        }
        if p[0] != first[0] || p[1] != first[1] || p[2] != first[2] {
            proof {
                assert(!(pixels@[i as int][0] == pixels@[0][0] && pixels@[i as int][1] == pixels@[0][1]
                    && pixels@[i as int][2] == pixels@[0][2]));
            }
            return false;
        }
        proof {
            assert(same_pixel(pixels@[i as int], first));
        }
        i = i + 1;
    }
    proof {
        assert forall|a: int, b: int| 0 <= a < pixels@.len() && 0 <= b < pixels@.len() implies #[trigger] pixels@[a][0]
            == #[trigger] pixels@[b][0] && pixels@[a][1] == pixels@[b][1] && pixels@[a][2] == pixels@[b][2] by {
            assert(same_pixel(pixels@[a], first));
            assert(same_pixel(pixels@[b], first));
        }
    }
    true
}

/// A group of more than one colour holds at least two pixels.
proof fn lemma_not_uniform_len(s: Seq<Pixel>)
    requires
        !uniform(s),
    ensures
        s.len() >= 2,
{
}

/// `palette` holds the mean colours of a split of `pixels` into non-empty
/// groups; when it has fewer than `count` colours, every group is of a
/// single colour; and pixels of a single colour are not split at all.
pub open spec fn is_median_cut_palette(palette: Seq<Color>, pixels: Seq<Pixel>, count: int) -> bool {
    &&& exists|parts: Seq<Seq<Pixel>>|
        #[trigger] means_of_partition(palette, parts, pixels) && (palette.len() < count ==> forall|i: int|
            0 <= i < parts.len() ==> uniform(#[trigger] parts[i]))
    &&& uniform(pixels) ==> palette.len() == 1
}

/// The bucket among the first `j` of `bs` that median cut splits: the largest
/// that holds more than one colour, the last of equally large ones; -1 when
/// each holds a single colour.
pub open spec fn split_choice(bs: Seq<Seq<Pixel>>, j: int) -> int
    decreases j,
{
    if j <= 0 {
        -1
    } else {
        let c = split_choice(bs, j - 1);
        if !uniform(bs[j - 1]) && (c == -1 || bs[j - 1].len() >= bs[c].len()) {
            j - 1
        } else {
            c
        }
    }
}

/// `left` and `right` are `b` ordered along its widest channel and cut in the
/// middle, the smaller half first.
pub open spec fn halves_of(b: Seq<Pixel>, left: Seq<Pixel>, right: Seq<Pixel>) -> bool {
    &&& left.len() == b.len() / 2
    &&& (left + right).to_multiset() == b.to_multiset()
    &&& sorted_by_channel(left + right, longest_axis_of(b))
    &&& left + right == channel_sorted(b, longest_axis_of(b))
}

/// `next` is `bs` after one split: the chosen bucket taken out and its two
/// halves put at the end.
pub open spec fn split_step(bs: Seq<Seq<Pixel>>, next: Seq<Seq<Pixel>>) -> bool {
    let i = split_choice(bs, bs.len() as int);
    &&& 0 <= i < bs.len()
    &&& exists|l: Seq<Pixel>, r: Seq<Pixel>| #[trigger] halves_of(bs[i], l, r) && next == bs.remove(i).push(l).push(r)
}

/// `trace` is a run of median cut on `pixels` for `k` colours: it starts from
/// one bucket of all pixels, splits while there are fewer than `k` buckets
/// and one of them holds more than one colour, and stops when either fails.
pub open spec fn median_cut_run(pixels: Seq<Pixel>, trace: Seq<Seq<Seq<Pixel>>>, k: int) -> bool {
    let last = trace.last();
    &&& trace.len() >= 1
    &&& trace[0] == seq![pixels]
    &&& forall|t: int| 0 <= t < trace.len() - 1 ==> #[trigger] split_step(trace[t], trace[t + 1]) && trace[t].len() < k
    &&& last.len() >= k || split_choice(last, last.len() as int) == -1
}

/// `palette` holds, in bucket order, the mean colours of the buckets at the
/// end of a run of median cut for `k` colours.
pub open spec fn is_median_cut_run_palette(palette: Seq<Color>, pixels: Seq<Pixel>, k: int) -> bool {
    exists|trace: Seq<Seq<Seq<Pixel>>>|
        #[trigger] median_cut_run(pixels, trace, k) && palette == trace.last().map_values(|b: Seq<Pixel>| mean_color_of(b))
}

/// One split leads from a list of buckets to exactly one next list.
proof fn lemma_split_step_unique(bs: Seq<Seq<Pixel>>, n1: Seq<Seq<Pixel>>, n2: Seq<Seq<Pixel>>)
    requires
        split_step(bs, n1),
        split_step(bs, n2),
    ensures
        n1 == n2,
{
    let i = split_choice(bs, bs.len() as int);
    let (l1, r1) = choose|l: Seq<Pixel>, r: Seq<Pixel>| #[trigger] halves_of(bs[i], l, r) && n1 == bs.remove(i).push(l).push(r);
    let (l2, r2) = choose|l: Seq<Pixel>, r: Seq<Pixel>| #[trigger] halves_of(bs[i], l, r) && n2 == bs.remove(i).push(l).push(r);
    let srt = channel_sorted(bs[i], longest_axis_of(bs[i]));
    assert(l1 =~= srt.take(l1.len() as int));
    assert(l2 =~= srt.take(l2.len() as int));
    assert(r1 =~= srt.skip(l1.len() as int));
    assert(r2 =~= srt.skip(l2.len() as int));
}

/// Two runs of median cut on the same pixels agree up to step `t`.
proof fn lemma_run_prefix(pixels: Seq<Pixel>, tr1: Seq<Seq<Seq<Pixel>>>, tr2: Seq<Seq<Seq<Pixel>>>, k: int, t: int)
    requires
        median_cut_run(pixels, tr1, k),
        median_cut_run(pixels, tr2, k),
        0 <= t < tr1.len(),
        t < tr2.len(),
    ensures
        tr1[t] == tr2[t],
    decreases t,
{
    if t > 0 {
        let u = t - 1;
        lemma_run_prefix(pixels, tr1, tr2, k, u);
        assert(split_step(tr1[u], tr1[u + 1]));
        assert(split_step(tr2[u], tr2[u + 1]));
        lemma_split_step_unique(tr1[u], tr1[u + 1], tr2[u + 1]);
    }
}

/// A run of median cut that stops before another would have to split on.
proof fn lemma_run_len(pixels: Seq<Pixel>, tr1: Seq<Seq<Seq<Pixel>>>, tr2: Seq<Seq<Seq<Pixel>>>, k: int)
    requires
        median_cut_run(pixels, tr1, k),
        median_cut_run(pixels, tr2, k),
    ensures
        tr1.len() <= tr2.len(),
{
    if tr1.len() > tr2.len() {
        let t = tr2.len() - 1;
        lemma_run_prefix(pixels, tr1, tr2, k, t);
        assert(split_step(tr1[t], tr1[t + 1]) && tr1[t].len() < k);
    }
}

/// Median cut is deterministic: on the same pixels and for the same number of
/// colours, every run gives the same palette.
pub proof fn lemma_median_cut_deterministic(p1: Seq<Color>, p2: Seq<Color>, pixels: Seq<Pixel>, k: int)
    requires
        is_median_cut_run_palette(p1, pixels, k),
        is_median_cut_run_palette(p2, pixels, k),
    ensures
        p1 == p2,
{
    let tr1 = choose|tr: Seq<Seq<Seq<Pixel>>>|
        #[trigger] median_cut_run(pixels, tr, k) && p1 == tr.last().map_values(|b: Seq<Pixel>| mean_color_of(b));
    let tr2 = choose|tr: Seq<Seq<Seq<Pixel>>>|
        #[trigger] median_cut_run(pixels, tr, k) && p2 == tr.last().map_values(|b: Seq<Pixel>| mean_color_of(b));
    lemma_run_len(pixels, tr1, tr2, k);
    lemma_run_len(pixels, tr2, tr1, k);
    lemma_run_prefix(pixels, tr1, tr2, k, tr1.len() - 1);
}

/// The pixels of each bucket.
spec fn bucket_views(buckets: Seq<Vec<Pixel>>) -> Seq<Seq<Pixel>> {
    buckets.map_values(|b: Vec<Pixel>| b@)
}

/// The number of colours that median cut gives for `n` pixels when `k` are
/// requested: `k` capped at `n`, and at least one.
pub open spec fn median_cut_count(k: int, n: int) -> int {
    let c = if k <= n { k } else { n };
    if c >= 1 {
        c
    } else {
        1
    }
}

/// Extracts the dominant colours with median cut.
///
/// Starting from one bucket of all pixels, the largest bucket that holds more
/// than one colour is sorted along its widest channel and cut at the median,
/// until there are `min(max_colors, pixels)` buckets or none can be cut.  The
/// colours are the rounded means of the buckets, in bucket order.
pub fn extract(pixels: &[Pixel], config: &Config) -> (res: Result<Vec<Color>, DominantColorError>)
    ensures
        pixels@.len() == 0 <==> res matches Err(DominantColorError::EmptyImage),
        pixels@.len() > 0 ==> res is Ok,
        res matches Ok(p) ==> 1 <= p@.len() <= median_cut_count(config.max_colors as int, pixels@.len() as int),
        res matches Ok(p) ==> total_count(p@) == pixels@.len(),
        res matches Ok(p) ==> forall|q: int| 0 <= q < p@.len() ==> #[trigger] p@[q].pixel_count > 0,
        res matches Ok(p) ==> is_partition_means(p@, pixels@),
        res matches Ok(p) ==> is_median_cut_palette(p@, pixels@, median_cut_count(config.max_colors as int, pixels@.len() as int)),
        res matches Ok(p) ==> is_median_cut_run_palette(p@, pixels@,
            if config.max_colors <= pixels@.len() { config.max_colors as int } else { pixels@.len() as int }),
{
    let k = config.max_colors.min(pixels.len());
    if pixels.len() == 0 {
        return Err(DominantColorError::EmptyImage);
    }
    let mut buckets: Vec<Vec<Pixel>> = Vec::new();
    buckets.push(vstd::slice::slice_to_vec(pixels));
    proof {
        let bs = bucket_views(buckets@);
        assert(bs =~= seq![pixels@]);
        lemma_parts_multiset_push(Seq::<Seq<Pixel>>::empty(), pixels@);
        assert(seq![pixels@] =~= Seq::<Seq<Pixel>>::empty().push(pixels@));
        broadcast use vstd::multiset::group_multiset_axioms;
        assert(parts_multiset(Seq::<Seq<Pixel>>::empty()) =~= Multiset::<Pixel>::empty());
        assert(parts_multiset(bs) =~= pixels@.to_multiset());
    }
    let ghost mut trace: Seq<Seq<Seq<Pixel>>> = seq![seq![pixels@]];
    proof {
        assert(bucket_views(buckets@) =~= seq![pixels@]);
    }
    while buckets.len() < k
        invariant
            1 <= buckets@.len() <= median_cut_count(config.max_colors as int, pixels@.len() as int),
            trace.len() >= 1,
            trace[0] == seq![pixels@],
            trace.last() == bucket_views(buckets@),
            forall|t: int| 0 <= t < trace.len() - 1 ==> #[trigger] split_step(trace[t], trace[t + 1]) && trace[t].len() < k,
            k as int == (if config.max_colors <= pixels@.len() { config.max_colors as int } else { pixels@.len() as int }),
            k as int <= pixels@.len(),
            forall|i: int| 0 <= i < buckets@.len() ==> (#[trigger] buckets@[i])@.len() > 0,
            parts_multiset(bucket_views(buckets@)) == pixels@.to_multiset(),
            uniform(pixels@) ==> buckets@.len() == 1 && buckets@[0]@ == pixels@,
        ensures
            buckets@.len() < median_cut_count(config.max_colors as int, pixels@.len() as int)
                ==> forall|i: int| 0 <= i < buckets@.len() ==> uniform(#[trigger] buckets@[i]@),
            buckets@.len() >= k || split_choice(bucket_views(buckets@), buckets@.len() as int) == -1,
        decreases k - buckets@.len(),
    {
        let ghost bs = bucket_views(buckets@);
        // The largest bucket that holds more than one colour; the last of
        // equally large ones.
        let mut split_idx: usize = 0;
        let mut found = false;
        let mut j: usize = 0;
        while j < buckets.len()
            invariant
                j <= buckets@.len(),
                found ==> split_idx < j,
                found ==> !uniform(buckets@[split_idx as int]@),
                !found ==> forall|q: int| 0 <= q < j ==> uniform(#[trigger] buckets@[q]@),
                bs == bucket_views(buckets@),
                (if found { split_idx as int } else { -1int }) == split_choice(bs, j as int),
            decreases buckets@.len() - j,
        {
            proof {
                assert(bs[j as int] == buckets@[j as int]@);
                if found {
                    assert(bs[split_idx as int] == buckets@[split_idx as int]@);
                }
            }
            if !is_uniform(buckets[j].as_slice()) && (!found || buckets[j].len() >= buckets[split_idx].len()) {
                split_idx = j;
                found = true;
            }
            j = j + 1;
        }
        if !found {
            break;
        }
        assert(!uniform(pixels@));
        proof {
            lemma_not_uniform_len(buckets@[split_idx as int]@);
        }
        let ghost before = buckets@;
        let bucket = buckets.remove(split_idx);
        let ghost removed = buckets@;
        let (left, right) = split_bucket(bucket);
        let ghost lv = left@;
        let ghost rv = right@;
        buckets.push(left);
        buckets.push(right);
        proof {
            let earlier = trace;
            assert(bucket_views(removed) =~= bs.remove(split_idx as int));
            assert(bucket_views(buckets@) =~= bucket_views(removed).push(lv).push(rv));
            assert(bs[split_idx as int] == bucket@);
            assert(halves_of(bs[split_idx as int], lv, rv));
            assert(split_step(bs, bucket_views(buckets@)));
            trace = trace.push(bucket_views(buckets@));
            assert forall|t: int| 0 <= t < trace.len() - 1 implies #[trigger] split_step(trace[t], trace[t + 1]) && trace[t].len() < k by {
                if t < earlier.len() - 1 {
                    assert(trace[t] == earlier[t] && trace[t + 1] == earlier[t + 1]);
                } else {
                    assert(trace[t] == bs);
                }
            }
        }
        proof {
            broadcast use vstd::multiset::group_multiset_axioms;
            broadcast use vstd::seq_lib::group_to_multiset_ensures;
            assert(bucket_views(removed) =~= bs.remove(split_idx as int));
            lemma_parts_multiset_remove(bs, split_idx as int);
            assert(bucket_views(buckets@) =~= bucket_views(removed).push(lv).push(rv));
            lemma_parts_multiset_push(bucket_views(removed), lv);
            lemma_parts_multiset_push(bucket_views(removed).push(lv), rv);
            vstd::seq_lib::lemma_multiset_commutative(lv, rv);
            assert(parts_multiset(bucket_views(buckets@)) =~= pixels@.to_multiset());
            assert forall|i: int| 0 <= i < buckets@.len() implies (#[trigger] buckets@[i])@.len() > 0 by {
                if i < removed.len() {
                    assert(buckets@[i] == removed[i]);
                    if i < split_idx {
                        assert(removed[i] == before[i]);
                    } else {
                        assert(removed[i] == before[i + 1]);
                    }
                }
            }
            // There are no more buckets than pixels.
            let nbs = bucket_views(buckets@);
            assert forall|i: int| 0 <= i < nbs.len() implies (#[trigger] nbs[i]).len() > 0 by {
                assert(nbs[i] == buckets@[i]@);
            }
            lemma_parts_multiset_len(nbs);
        }
    }
    let ghost count = median_cut_count(config.max_colors as int, pixels@.len() as int);
    assert(trace.last().len() == buckets@.len());
    assert(median_cut_run(pixels@, trace, k as int)) by {
        assert(trace.len() >= 1 && trace[0] == seq![pixels@]);
        assert(forall|t: int| 0 <= t < trace.len() - 1 ==> #[trigger] split_step(trace[t], trace[t + 1]) && trace[t].len() < k);
        assert(trace.last().len() >= k || split_choice(trace.last(), trace.last().len() as int) == -1);
    }
    assert(buckets@.len() <= count);
    let mut palette: Vec<Color> = Vec::new();
    let mut i: usize = 0;
    let ghost bs = bucket_views(buckets@);
    proof {
        assert forall|q: int| 0 <= q < bs.len() implies (#[trigger] bs[q]).len() > 0 by {
            assert(bs[q] == buckets@[q]@);
        }
    }
    while i < buckets.len()
        invariant
            bs == bucket_views(buckets@),
            i <= buckets@.len(),
            palette@.len() == i,
            forall|q: int| 0 <= q < bs.len() ==> (#[trigger] bs[q]).len() > 0,
            forall|q: int| 0 <= q < i ==> #[trigger] palette@[q] == mean_color_of(bs[q]),
        decreases buckets@.len() - i,
    {
        proof {
            assert(bs[i as int] == buckets@[i as int]@);
        }
        if !buckets[i].is_empty() {
            if let Some(c) = mean_color(buckets[i].as_slice()) {
                palette.push(c);
            }
        }
        i = i + 1;
    }
    proof {
        broadcast use vstd::seq_lib::group_to_multiset_ensures;
        assert(means_of_partition(palette@, bs, pixels@));
        assert forall|q: int| 0 <= q < bs.len() implies (#[trigger] palette@[q]).pixel_count == bs[q].len() by {
            lemma_part_len_le(bs, q);
        }
        lemma_total_count_parts(palette@, bs);
        assert(pixels@.to_multiset().len() == pixels@.len());
        assert(palette@.len() <= median_cut_count(config.max_colors as int, pixels@.len() as int));
        if palette@.len() < count {
            assert forall|i: int| 0 <= i < bs.len() implies uniform(#[trigger] bs[i]) by {
                assert(bs[i] == buckets@[i]@);
            }
        }
        assert(uniform(pixels@) ==> palette@.len() == 1);
        assert(is_median_cut_palette(palette@, pixels@, count));
        assert(palette@ =~= trace.last().map_values(|b: Seq<Pixel>| mean_color_of(b)));
        assert(total_count(palette@) == pixels@.len());
        assert(forall|q: int| 0 <= q < palette@.len() ==> #[trigger] palette@[q].pixel_count > 0);
        assert(is_partition_means(palette@, pixels@));
    }
    if palette.len() == 0 {
        return Err(DominantColorError::internal("中位切分后所有桶均为空"));
    }
    Ok(palette)
}

/// `ch_max` is the largest value of the channel: no pixel exceeds it, and
/// some pixel has it.
proof fn lemma_ch_max(s: Seq<Pixel>, c: int) -> (i: int)
    requires
        0 <= c < 3,
    ensures
        forall|a: int| 0 <= a < s.len() ==> #[trigger] s[a][c] <= ch_max(s, c),
        s.len() > 0 ==> 0 <= i < s.len() && s[i][c] == ch_max(s, c),
    decreases s.len(),
{
    if s.len() == 0 {
        0
    } else {
        let d = s.drop_last();
        let i0 = lemma_ch_max(d, c);
        assert forall|a: int| 0 <= a < s.len() implies #[trigger] s[a][c] <= ch_max(s, c) by {
            if a < d.len() {
                assert(s[a] == d[a]);
            }
        }
        if d.len() > 0 && ch_max(d, c) >= s.last()[c] as int {
            assert(s[i0] == d[i0]);
            i0
        } else {
            s.len() - 1
        }
    }
}

/// `ch_min` is the smallest value of the channel: no pixel is below it, and
/// some pixel has it.
proof fn lemma_ch_min(s: Seq<Pixel>, c: int) -> (i: int)
    requires
        0 <= c < 3,
    ensures
        forall|a: int| 0 <= a < s.len() ==> #[trigger] s[a][c] >= ch_min(s, c),
        s.len() > 0 ==> 0 <= i < s.len() && s[i][c] == ch_min(s, c),
    decreases s.len(),
{
    if s.len() == 0 {
        0
    } else {
        let d = s.drop_last();
        let i0 = lemma_ch_min(d, c);
        assert forall|a: int| 0 <= a < s.len() implies #[trigger] s[a][c] >= ch_min(s, c) by {
            if a < d.len() {
                assert(s[a] == d[a]);
            }
        }
        if d.len() > 0 && ch_min(d, c) <= s.last()[c] as int {
            assert(s[i0] == d[i0]);
            i0
        } else {
            s.len() - 1
        }
    }
}

/// The channel that median cut orders a bucket by spreads at least as widely
/// as any other: the two pixels returned differ along it by at least as much
/// as any two pixels differ in any channel.
pub proof fn lemma_longest_axis_widest(s: Seq<Pixel>) -> (ij: (int, int))
    requires
        s.len() > 0,
    ensures
        0 <= ij.0 < s.len(),
        0 <= ij.1 < s.len(),
        0 <= longest_axis_of(s) < 3,
        forall|a: int, b: int, c: int| 0 <= a < s.len() && 0 <= b < s.len() && 0 <= c < 3
            ==> #[trigger] s[a][c] - #[trigger] s[b][c]
                <= s[ij.0][longest_axis_of(s)] - s[ij.1][longest_axis_of(s)],
{
    let ax = longest_axis_of(s);
    lemma_ch_max(s, 0);
    lemma_ch_max(s, 1);
    lemma_ch_max(s, 2);
    lemma_ch_min(s, 0);
    lemma_ch_min(s, 1);
    lemma_ch_min(s, 2);
    let i = lemma_ch_max(s, ax);
    let j = lemma_ch_min(s, ax);
    assert forall|c: int| 0 <= c < 3 implies ch_max(s, c) - ch_min(s, c) <= ch_range(s, ax)
        && ch_max(s, c) >= ch_min(s, c) by {
        assert(s[0][c] <= ch_max(s, c) && s[0][c] >= ch_min(s, c));
    }
    assert(ch_range(s, ax) == s[i][ax] - s[j][ax]);
    assert forall|a: int, b: int, c: int| 0 <= a < s.len() && 0 <= b < s.len() && 0 <= c < 3
        implies #[trigger] s[a][c] - #[trigger] s[b][c] <= s[i][ax] - s[j][ax] by {
        assert(s[a][c] <= ch_max(s, c) && s[b][c] >= ch_min(s, c));
    }
    (i, j)
}

/// The bucket that median cut splits is one of the largest that hold more
/// than one colour; there is one exactly when some bucket holds more than
/// one colour.
pub proof fn lemma_split_choice_largest(bs: Seq<Seq<Pixel>>, n: int)
    requires
        0 <= n <= bs.len(),
    ensures
        split_choice(bs, n) == -1 <==> forall|j: int| 0 <= j < n ==> uniform(#[trigger] bs[j]),
        split_choice(bs, n) != -1 ==> {
            let i = split_choice(bs, n);
            &&& 0 <= i < n
            &&& !uniform(bs[i])
            &&& forall|j: int| 0 <= j < n && !uniform(#[trigger] bs[j]) ==> bs[j].len() <= bs[i].len()
        },
    decreases n,
{
    if n > 0 {
        lemma_split_choice_largest(bs, n - 1);
    }
}

/// Median cut gives an image of a single colour back as that colour alone,
/// standing for every pixel.
pub proof fn lemma_median_cut_single_color(palette: Seq<Color>, pixels: Seq<Pixel>, count: int)
    requires
        is_median_cut_palette(palette, pixels, count),
        pixels.len() > 0,
        uniform(pixels),
        pixels.len() <= usize::MAX,
    ensures
        palette.len() == 1,
        palette[0].r == pixels[0][0],
        palette[0].g == pixels[0][1],
        palette[0].b == pixels[0][2],
        palette[0].pixel_count == pixels.len(),
{
    let parts = choose|parts: Seq<Seq<Pixel>>|
        #[trigger] means_of_partition(palette, parts, pixels) && (palette.len() < count ==> forall|i: int|
            0 <= i < parts.len() ==> uniform(#[trigger] parts[i]));
    assert(is_partition_means(palette, pixels));
    let v = pixels[0];
    assert(all_of_color(pixels, v)) by {
        assert forall|q: int| 0 <= q < pixels.len() implies (#[trigger] pixels[q])[0] == v[0] && pixels[q][1] == v[1]
            && pixels[q][2] == v[2] by {
            assert(pixels[q][0] == pixels[0][0]);
        }
    }
    lemma_single_color_partition(palette, pixels, v);
    lemma_partition_covers_pixels(palette, pixels);
    assert(total_count(palette.drop_last()) == 0);
    assert(palette.last() == palette[0]);
}

} // verus!
