//! The colour type shared by every algorithm, and the arithmetic on pixels.

use vstd::multiset::Multiset;
use vstd::prelude::*;

verus! {

/// A pixel as `[r, g, b]`.
pub type Pixel = [u8; 3];

/// The largest number of pixels whose channel sums fit in a `u64`.
pub const MAX_PIXELS: u64 = 0x0101_0101_0101_0101;

/// An sRGB colour together with the number of pixels it stands for.
///
/// The share of the image that a colour covers is `pixel_count` divided by the
/// number of pixels that were analysed.
#[derive(Debug, Clone, Copy, PartialEq, Eq)]
pub struct Color {
    /// Red channel (0–255).
    pub r: u8,
    /// Green channel (0–255).
    pub g: u8,
    /// Blue channel (0–255).
    pub b: u8,
    /// Number of analysed pixels that this colour represents.
    pub pixel_count: usize,
}

/// The channel `c` of every pixel of `s`, summed.
pub open spec fn channel_sum(s: Seq<Pixel>, c: int) -> int
    decreases s.len(),
{
    if s.len() == 0 {
        0
    } else {
        channel_sum(s.drop_last(), c) + s.last()[c]
    }
}

/// `sum / n` rounded to the nearest integer, halves rounded up.
pub open spec fn rounded_div(sum: int, n: int) -> int {
    (2 * sum + n) / (2 * n)
}

/// The mean colour of a non-empty group of pixels, each channel rounded to
/// the nearest integer, standing for all of the group's pixels.
pub open spec fn mean_color_of(s: Seq<Pixel>) -> Color {
    Color {
        r: rounded_div(channel_sum(s, 0), s.len() as int) as u8,
        g: rounded_div(channel_sum(s, 1), s.len() as int) as u8,
        b: rounded_div(channel_sum(s, 2), s.len() as int) as u8,
        pixel_count: s.len() as usize,
    }
}

/// Squared Euclidean distance of two pixels in RGB space.
pub open spec fn sq_dist(a: Pixel, b: Pixel) -> int {
    (a[0] - b[0]) * (a[0] - b[0]) + (a[1] - b[1]) * (a[1] - b[1]) + (a[2] - b[2]) * (a[2] - b[2])
}

/// The sum of the pixel counts of a palette.
pub open spec fn total_count(p: Seq<Color>) -> int
    decreases p.len(),
{
    if p.len() == 0 {
        0
    } else {
        total_count(p.drop_last()) + p.last().pixel_count
    }
}

/// A channel sums to at most 255 per pixel.
pub proof fn lemma_channel_sum_bounds(s: Seq<Pixel>, c: int)
    requires
        0 <= c < 3,
    ensures
        0 <= channel_sum(s, c) <= 255 * s.len(),
    decreases s.len(),
{
    if s.len() > 0 {
        lemma_channel_sum_bounds(s.drop_last(), c);
    }
}

/// Adding a pixel adds its channel to the sum.
pub proof fn lemma_channel_sum_push(s: Seq<Pixel>, p: Pixel, c: int)
    ensures
        channel_sum(s.push(p), c) == channel_sum(s, c) + p[c],
{
    assert(s.push(p).drop_last() =~= s);
}

/// The channel sum of two sequences one after the other.
pub proof fn lemma_channel_sum_append(s: Seq<Pixel>, t: Seq<Pixel>, c: int)
    ensures
        channel_sum(s + t, c) == channel_sum(s, c) + channel_sum(t, c),
    decreases t.len(),
{
    if t.len() == 0 {
        assert(s + t =~= s);
    } else {
        lemma_channel_sum_append(s, t.drop_last(), c);
        assert((s + t).drop_last() =~= s + t.drop_last());
    }
}

/// Adding a colour adds its count to the total.
pub proof fn lemma_total_count_push(p: Seq<Color>, c: Color)
    ensures
        total_count(p.push(c)) == total_count(p) + c.pixel_count,
{
    assert(p.push(c).drop_last() =~= p);
}

/// A rounded mean of values that lie in `0..=255` lies there too.
pub proof fn lemma_rounded_div_bounds(sum: int, n: int)
    requires
        n > 0,
        0 <= sum <= 255 * n,
    ensures
        0 <= rounded_div(sum, n) <= 255,
{
    assert(0 <= (2 * sum + n) / (2 * n) <= 255) by (nonlinear_arith)
        requires
            n > 0,
            0 <= sum <= 255 * n,
    {
        assert(2 * sum + n < 256 * (2 * n));
    }
}

/// Rounds `sum / n` to the nearest integer, halves up, without forming `2 * sum`.
pub fn rounded_div_u128(sum: u128, n: u128) -> (q: u128)
    requires
        n > 0,
        sum < 0x8000_0000_0000_0000_0000_0000_0000_0000,
    ensures
        q == rounded_div(sum as int, n as int),
{
    let quot = sum / n;
    let rem = sum % n;
    assert(quot <= sum) by (nonlinear_arith) requires quot == sum / n, n > 0;
    let up: u128 = if rem >= n - rem { 1 } else { 0 };
    proof {
        let s = sum as int;
        let m = n as int;
        assert(s == quot * m + rem) by (nonlinear_arith)
            requires quot == s / m, rem == s % m, m > 0;
        assert(0 <= rem < m);
        assert((2 * s + m) / (2 * m) == quot + up) by (nonlinear_arith)
            requires
                s == quot * m + rem,
                0 <= rem < m,
                m > 0,
                up == (if rem >= m - rem { 1int } else { 0int }),
        {
            let lhs = 2 * s + m;
            assert(lhs == (quot + up) * (2 * m) + (2 * rem + m - 2 * m * up));
            assert(0 <= 2 * rem + m - 2 * m * up < 2 * m);
            vstd::arithmetic::div_mod::lemma_fundamental_div_mod_converse(
                lhs, 2 * m, quot + up, 2 * rem + m - 2 * m * up);
        }
    }
    quot + up
}

impl Color {
    /// Builds a colour.
    pub fn new(r: u8, g: u8, b: u8, pixel_count: usize) -> (c: Self)
        ensures
            c == (Color { r, g, b, pixel_count }),
    {
        Color { r, g, b, pixel_count }
    }

    /// Packs the channels into a 24-bit integer `0xRRGGBB`.
    pub fn to_hex(&self) -> (h: u32)
        ensures
            h == self.r * 65536 + self.g * 256 + self.b,
    {
        let r = self.r as u32;
        let g = self.g as u32;
        let b = self.b as u32;
        assert((r << 16u32) | (g << 8u32) | b == r * 65536 + g * 256 + b) by (bit_vector)
            requires r < 256, g < 256, b < 256;
        (r << 16u32) | (g << 8u32) | b
    }

    /// Squared Euclidean distance of two pixels in RGB space.
    pub fn sq_distance_rgb(a: &Pixel, b: &Pixel) -> (d: u32)
        ensures
            d == sq_dist(*a, *b),
            d <= 195075,
    {
        let dr: i32 = a[0] as i32 - b[0] as i32;
        let dg: i32 = a[1] as i32 - b[1] as i32;
        let db: i32 = a[2] as i32 - b[2] as i32;
        assert(0 <= dr * dr <= 65025) by (nonlinear_arith) requires -255 <= dr <= 255;
        assert(0 <= dg * dg <= 65025) by (nonlinear_arith) requires -255 <= dg <= 255;
        assert(0 <= db * db <= 65025) by (nonlinear_arith) requires -255 <= db <= 255;
        (dr * dr + dg * dg + db * db) as u32
    }
}

/// The mean colour of a group of pixels, each channel rounded to the nearest
/// integer; `None` for an empty group.
pub fn mean_color(pixels: &[Pixel]) -> (c: Option<Color>)
    ensures
        pixels@.len() == 0 ==> c is None,
        pixels@.len() > 0 ==> c == Some(mean_color_of(pixels@)),
{
    let n = pixels.len();
    if n == 0 {
        return None;
    }
    let mut r: u128 = 0;
    let mut g: u128 = 0;
    let mut b: u128 = 0;
    let mut i: usize = 0;
    while i < n
        invariant
            n == pixels@.len(),
            i <= n,
            r == channel_sum(pixels@.take(i as int), 0),
            g == channel_sum(pixels@.take(i as int), 1),
            b == channel_sum(pixels@.take(i as int), 2),
        decreases n - i,
    {
        proof {
            assert(pixels@.take(i + 1) =~= pixels@.take(i as int).push(pixels@[i as int]));
            lemma_channel_sum_push(pixels@.take(i as int), pixels@[i as int], 0);
            lemma_channel_sum_push(pixels@.take(i as int), pixels@[i as int], 1);
            lemma_channel_sum_push(pixels@.take(i as int), pixels@[i as int], 2);
            lemma_channel_sum_bounds(pixels@.take(i as int), 0);
            lemma_channel_sum_bounds(pixels@.take(i as int), 1);
            lemma_channel_sum_bounds(pixels@.take(i as int), 2);
            assert(255 * i <= 255 * 0x1_0000_0000_0000_0000int);
        }
        r = r + pixels[i][0] as u128;
        g = g + pixels[i][1] as u128;
        b = b + pixels[i][2] as u128;
        i = i + 1;
    }
    proof {
        assert(pixels@.take(n as int) =~= pixels@);
        lemma_channel_sum_bounds(pixels@, 0);
        lemma_channel_sum_bounds(pixels@, 1);
        lemma_channel_sum_bounds(pixels@, 2);
        lemma_rounded_div_bounds(r as int, n as int);
        lemma_rounded_div_bounds(g as int, n as int);
        lemma_rounded_div_bounds(b as int, n as int);
    }
    let mr = rounded_div_u128(r, n as u128);
    let mg = rounded_div_u128(g, n as u128);
    let mb = rounded_div_u128(b, n as u128);
    Some(Color::new(mr as u8, mg as u8, mb as u8, n))
}

/// The pixels of all the groups of `parts`, as a multiset.
pub open spec fn parts_multiset(parts: Seq<Seq<Pixel>>) -> Multiset<Pixel>
    decreases parts.len(),
{
    if parts.len() == 0 {
        Multiset::empty()
    } else {
        parts_multiset(parts.drop_last()).add(parts.last().to_multiset())
    }
}

/// `palette` holds, in order, the mean colour of each group of `parts`, and
/// the groups split `pixels` into non-empty parts.
pub open spec fn means_of_partition(palette: Seq<Color>, parts: Seq<Seq<Pixel>>, pixels: Seq<Pixel>) -> bool {
    &&& palette.len() == parts.len()
    &&& forall|i: int| 0 <= i < parts.len() ==> (#[trigger] parts[i]).len() > 0 && palette[i] == mean_color_of(parts[i])
    &&& parts_multiset(parts) == pixels.to_multiset()
}

/// `palette` holds the mean colours of some split of `pixels` into non-empty groups.
pub open spec fn is_partition_means(palette: Seq<Color>, pixels: Seq<Pixel>) -> bool {
    exists|parts: Seq<Seq<Pixel>>| #[trigger] means_of_partition(palette, parts, pixels)
}

/// Adding a group adds its pixels.
pub proof fn lemma_parts_multiset_push(parts: Seq<Seq<Pixel>>, x: Seq<Pixel>)
    ensures
        parts_multiset(parts.push(x)) == parts_multiset(parts).add(x.to_multiset()),
{
    assert(parts.push(x).drop_last() =~= parts);
}

/// The pixels of two lists of groups together.
pub proof fn lemma_parts_multiset_concat(a: Seq<Seq<Pixel>>, b: Seq<Seq<Pixel>>)
    ensures
        parts_multiset(a + b) == parts_multiset(a).add(parts_multiset(b)),
    decreases b.len(),
{
    broadcast use vstd::multiset::group_multiset_axioms;
    if b.len() == 0 {
        assert(a + b =~= a);
        assert(parts_multiset(a).add(Multiset::empty()) =~= parts_multiset(a));
    } else {
        lemma_parts_multiset_concat(a, b.drop_last());
        assert((a + b).drop_last() =~= a + b.drop_last());
        assert((a + b).last() == b.last());
        assert(parts_multiset(a + b) =~= parts_multiset(a).add(parts_multiset(b)));
    }
}

/// Taking group `i` out of `parts` takes its pixels out of their multiset.
pub proof fn lemma_parts_multiset_remove(parts: Seq<Seq<Pixel>>, i: int)
    requires
        0 <= i < parts.len(),
    ensures
        parts_multiset(parts) == parts_multiset(parts.remove(i)).add(parts[i].to_multiset()),
    decreases parts.len(),
{
    broadcast use vstd::multiset::group_multiset_axioms;
    if i == parts.len() - 1 {
        assert(parts.remove(i) =~= parts.drop_last());
    } else {
        let d = parts.drop_last();
        lemma_parts_multiset_remove(d, i);
        assert(parts.remove(i).drop_last() =~= d.remove(i));
        assert(parts.remove(i).last() == parts.last());
        assert(parts_multiset(parts.remove(i)) == parts_multiset(d.remove(i)).add(parts.last().to_multiset()));
        assert(parts_multiset(parts) =~= parts_multiset(parts.remove(i)).add(parts[i].to_multiset()));
    }
}

/// Non-empty groups hold at least one pixel each; groups of one pixel exactly one.
pub proof fn lemma_parts_multiset_len(parts: Seq<Seq<Pixel>>)
    requires
        forall|i: int| 0 <= i < parts.len() ==> (#[trigger] parts[i]).len() > 0,
    ensures
        parts_multiset(parts).len() >= parts.len(),
        (forall|i: int| 0 <= i < parts.len() ==> (#[trigger] parts[i]).len() == 1) ==> parts_multiset(parts).len() == parts.len(),
    decreases parts.len(),
{
    broadcast use vstd::multiset::group_multiset_axioms;
    broadcast use vstd::seq_lib::group_to_multiset_ensures;
    if parts.len() > 0 {
        let d = parts.drop_last();
        assert forall|i: int| 0 <= i < d.len() implies (#[trigger] d[i]).len() > 0 by {
            assert(d[i] == parts[i]);
        }
        lemma_parts_multiset_len(d);
        if forall|i: int| 0 <= i < parts.len() ==> (#[trigger] parts[i]).len() == 1 {
            assert forall|i: int| 0 <= i < d.len() implies (#[trigger] d[i]).len() == 1 by {
                assert(d[i] == parts[i]);
            }
        }
    }
}

/// No group holds more pixels than all groups together.
pub proof fn lemma_part_len_le(parts: Seq<Seq<Pixel>>, i: int)
    requires
        0 <= i < parts.len(),
    ensures
        parts[i].len() <= parts_multiset(parts).len(),
    decreases parts.len(),
{
    broadcast use vstd::multiset::group_multiset_axioms;
    broadcast use vstd::seq_lib::group_to_multiset_ensures;
    if i < parts.len() - 1 {
        lemma_part_len_le(parts.drop_last(), i);
        assert(parts.drop_last()[i] == parts[i]);
    } else {
        assert(parts.last() == parts[i]);
    }
}

/// The counts of a palette of group means add up to the number of pixels grouped.
pub proof fn lemma_total_count_parts(palette: Seq<Color>, parts: Seq<Seq<Pixel>>)
    requires
        palette.len() == parts.len(),
        forall|i: int| 0 <= i < parts.len() ==> (#[trigger] palette[i]).pixel_count == parts[i].len(),
    ensures
        total_count(palette) == parts_multiset(parts).len(),
    decreases parts.len(),
{
    broadcast use vstd::multiset::group_multiset_axioms;
    broadcast use vstd::seq_lib::group_to_multiset_ensures;
    if parts.len() > 0 {
        let d = parts.drop_last();
        let e = palette.drop_last();
        assert forall|i: int| 0 <= i < d.len() implies (#[trigger] e[i]).pixel_count == d[i].len() by {
            assert(e[i] == palette[i]);
            assert(d[i] == parts[i]);
        }
        lemma_total_count_parts(e, d);
        assert(palette.last() == palette[palette.len() - 1]);
    }
}


/// Every pixel of `s` has the colour `v`.
pub open spec fn all_of_color(s: Seq<Pixel>, v: Pixel) -> bool {
    forall|q: int| 0 <= q < s.len() ==> (#[trigger] s[q])[0] == v[0] && s[q][1] == v[1] && s[q][2] == v[2]
}

/// A palette of group means stands for every pixel exactly once: the counts
/// add up to the number of pixels, so the shares add up to one, and no
/// colour stands for no pixel.
pub proof fn lemma_partition_covers_pixels(palette: Seq<Color>, pixels: Seq<Pixel>)
    requires
        is_partition_means(palette, pixels),
        pixels.len() <= usize::MAX,
    ensures
        total_count(palette) == pixels.len(),
        forall|i: int| 0 <= i < palette.len() ==> #[trigger] palette[i].pixel_count > 0,
{
    broadcast use vstd::seq_lib::group_to_multiset_ensures;
    let parts = choose|parts: Seq<Seq<Pixel>>| #[trigger] means_of_partition(palette, parts, pixels);
    assert forall|i: int| 0 <= i < parts.len() implies (#[trigger] palette[i]).pixel_count == parts[i].len() by {
        lemma_part_len_le(parts, i);
    }
    lemma_total_count_parts(palette, parts);
}

proof fn lemma_channel_sum_single(s: Seq<Pixel>, v: Pixel, c: int)
    requires
        all_of_color(s, v),
        0 <= c < 3,
    ensures
        channel_sum(s, c) == s.len() * v[c],
    decreases s.len(),
{
    if s.len() > 0 {
        let d = s.drop_last();
        assert forall|q: int| 0 <= q < d.len() implies (#[trigger] d[q])[0] == v[0] && d[q][1] == v[1] && d[q][2] == v[2] by {
            assert(d[q] == s[q]);
        }
        lemma_channel_sum_single(d, v, c);
        assert(s.last() == s[s.len() - 1]);
        assert(channel_sum(s, c) == d.len() * v[c] + v[c]);
        assert(d.len() * v[c] + v[c] == s.len() * v[c]) by (nonlinear_arith)
            requires
                d.len() + 1 == s.len(),
        ;
    }
}

proof fn lemma_rounded_div_exact(v: int, n: int)
    requires
        n > 0,
        v >= 0,
    ensures
        rounded_div(n * v, n) == v,
{
    assert(2 * (n * v) + n == (2 * n) * v + n) by (nonlinear_arith);
    assert(((2 * n) * v + n) / (2 * n) == v) by (nonlinear_arith)
        requires
            n > 0,
            v >= 0,
    {
        vstd::arithmetic::div_mod::lemma_fundamental_div_mod_converse(
            (2 * n) * v + n,
            2 * n,
            v,
            n,
        );
    }
}

/// The mean of pixels of a single colour is that colour.
pub proof fn lemma_mean_of_single_color(s: Seq<Pixel>, v: Pixel)
    requires
        all_of_color(s, v),
        s.len() > 0,
    ensures
        mean_color_of(s).r == v[0],
        mean_color_of(s).g == v[1],
        mean_color_of(s).b == v[2],
{
    lemma_channel_sum_single(s, v, 0);
    lemma_channel_sum_single(s, v, 1);
    lemma_channel_sum_single(s, v, 2);
    lemma_rounded_div_exact(v[0] as int, s.len() as int);
    lemma_rounded_div_exact(v[1] as int, s.len() as int);
    lemma_rounded_div_exact(v[2] as int, s.len() as int);
}

/// A palette of group means of an image of a single colour holds only that colour.
pub proof fn lemma_single_color_partition(palette: Seq<Color>, pixels: Seq<Pixel>, v: Pixel)
    requires
        is_partition_means(palette, pixels),
        all_of_color(pixels, v),
    ensures
        forall|i: int| 0 <= i < palette.len() ==> (#[trigger] palette[i]).r == v[0] && palette[i].g == v[1]
            && palette[i].b == v[2],
{
    broadcast use vstd::seq_lib::group_to_multiset_ensures;
    broadcast use vstd::multiset::group_multiset_axioms;
    let parts = choose|parts: Seq<Seq<Pixel>>| #[trigger] means_of_partition(palette, parts, pixels);
    assert forall|i: int| 0 <= i < palette.len() implies (#[trigger] palette[i]).r == v[0] && palette[i].g == v[1]
        && palette[i].b == v[2] by {
        let part = parts[i];
        lemma_parts_multiset_remove(parts, i);
        assert forall|q: int| 0 <= q < part.len() implies (#[trigger] part[q])[0] == v[0] && part[q][1] == v[1]
            && part[q][2] == v[2] by {
            let x = part[q];
            assert(part.contains(x));
            assert(part.to_multiset().count(x) > 0);
            assert(pixels.to_multiset().count(x) > 0);
            assert(pixels.contains(x));
            let j = choose|j: int| 0 <= j < pixels.len() && pixels[j] == x;
            assert(pixels[j][0] == v[0]);
        }
        lemma_mean_of_single_color(part, v);
    }
}

} // verus!
