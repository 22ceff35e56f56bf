//! The logic of the JavaScript binding: checking arguments, reading pixels
//! from RGB or RGBA bytes, choosing the algorithm by name, and writing the
//! results as JSON.

use vstd::prelude::*;

use crate::algorithms::{self, extracted, lemma_extract_deterministic, lemma_extract_within_max_colors, sorted_by_count, AlgorithmInfo};
use crate::color::{total_count, Color, Pixel, MAX_PIXELS};
use crate::error::{decimal, error_message, usize_to_decimal, DominantColorError};
use crate::{default_config, Algorithm, Config};

verus! {

// ── Arguments ────────────────────────────────────────────────────────────────

/// The message for a number of colours outside 1–64.
pub open spec fn max_colors_message(max_colors: usize) -> Seq<char> {
    "max_colors 必须在 1–64 之间，实际收到 "@ + decimal(max_colors as nat)
}

/// Checks that between 1 and 64 colours are requested.
pub fn validate_max_colors(max_colors: usize) -> (r: Result<(), String>)
    ensures
        r is Ok <==> 1 <= max_colors <= 64,
        r matches Err(m) ==> m@ == max_colors_message(max_colors),
{
    if max_colors == 0 || max_colors > 64 {
        let mut m = String::from_str("max_colors 必须在 1–64 之间，实际收到 ");
        let d = usize_to_decimal(max_colors);
        m.append(d.as_str());
        Err(m)
    } else {
        Ok(())
    }
}

/// What `str::to_lowercase` gives for a string.
pub uninterp spec fn lowercase(s: Seq<char>) -> Seq<char>;

/// An ASCII letter in lower case; every other character unchanged.
pub open spec fn ascii_lower(c: char) -> char {
    if 'A' <= c && c <= 'Z' {
        ((c as u32) + 32) as char
    } else {
        c
    }
}

/// Every character of `s` is ASCII.
pub open spec fn is_ascii_text(s: Seq<char>) -> bool {
    forall|i: int| 0 <= i < s.len() ==> (#[trigger] s[i] as u32) < 128
}

/// The lower-case form of `s`.
///
/// Trusted: calls `str::to_lowercase` of the standard library, whose result,
/// defined by Unicode's lower-case mapping, is a function of the string alone;
/// on ASCII text that mapping turns `A`–`Z` into `a`–`z` and keeps every other
/// character.  What it does to other characters is left unsaid.
#[verifier::external_body]
fn to_lowercase(s: &str) -> (r: String)
    ensures
        r@ == lowercase(s@),
        is_ascii_text(s@) ==> r@ == s@.map_values(|c: char| ascii_lower(c)),
{
    s.to_lowercase()
}

/// The algorithm that a lower-case name or alias stands for.
pub open spec fn algorithm_named(name: Seq<char>) -> Option<Algorithm> {
    if name == "kmeans"@ || name == "k-means"@ || name == "k_means"@ {
        Some(Algorithm::KMeans)
    } else if name == "mediancut"@ || name == "median_cut"@ || name == "median-cut"@ {
        Some(Algorithm::MedianCut)
    } else if name == "octree"@ {
        Some(Algorithm::Octree)
    } else {
        None
    }
}

/// The message for a name that stands for no algorithm.
pub open spec fn unknown_algorithm_message(name: Seq<char>) -> Seq<char> {
    "未知算法 \""@ + name + "\"，可选值：\"kmeans\" / \"mediancut\" / \"octree\""@
}

/// The algorithm that the lower-case `name` stands for.
pub fn algorithm_from_lowercase(name: &str) -> (r: Result<Algorithm, String>)
    ensures
        match algorithm_named(name@) {
            Some(a) => r == Ok::<Algorithm, String>(a),
            None => r matches Err(m) && m@ == unknown_algorithm_message(name@),
        },
{
    let n = String::from_str(name);
    if n == String::from_str("kmeans") || n == String::from_str("k-means") || n == String::from_str("k_means") {
        Ok(Algorithm::KMeans)
    } else if n == String::from_str("mediancut") || n == String::from_str("median_cut") || n == String::from_str(
        "median-cut",
    ) {
        Ok(Algorithm::MedianCut)
    } else if n == String::from_str("octree") {
        Ok(Algorithm::Octree)
    } else {
        let mut m = String::from_str("未知算法 \"");
        m.append(name);
        m.append("\"，可选值：\"kmeans\" / \"mediancut\" / \"octree\"");
        Err(m)
    }
}

/// The algorithm that `s` names, in any case, aliases included.  On ASCII
/// text the lower-case form is the ASCII one.
pub fn parse_algorithm(s: &str) -> (r: Result<Algorithm, String>)
    ensures
        match algorithm_named(lowercase(s@)) {
            Some(a) => r == Ok::<Algorithm, String>(a),
            None => r matches Err(m) && m@ == unknown_algorithm_message(lowercase(s@)),
        },
        is_ascii_text(s@) ==> lowercase(s@) == s@.map_values(|c: char| ascii_lower(c)),
{
    let lower = to_lowercase(s);
    algorithm_from_lowercase(lower.as_str())
}

// ── Pixels ───────────────────────────────────────────────────────────────────

/// The message for an RGB byte count that is not a multiple of 3.
pub open spec fn rgb_length_message(len: nat) -> Seq<char> {
    "rgb_data 的长度 ("@ + decimal(len) + ") 不是 3 的倍数"@
}

/// The message for an RGBA byte count that is not a multiple of 4.
pub open spec fn rgba_length_message(len: nat) -> Seq<char> {
    "rgba_data 的长度 ("@ + decimal(len) + ") 不是 4 的倍数"@
}

/// The pixels of consecutive `r, g, b` bytes.
pub open spec fn rgb_of(data: Seq<u8>) -> Seq<Pixel> {
    Seq::new((data.len() / 3) as nat, |i: int| [data[3 * i], data[3 * i + 1], data[3 * i + 2]])
}

/// Reads RGB pixels from consecutive `r, g, b` bytes.
pub fn rgb_pixels(rgb_data: &[u8]) -> (r: Result<Vec<Pixel>, String>)
    ensures
        r is Ok <==> rgb_data@.len() % 3 == 0,
        r matches Err(m) ==> m@ == rgb_length_message(rgb_data@.len()),
        r matches Ok(p) ==> p@ == rgb_of(rgb_data@),
{
    let len = rgb_data.len();
    if len % 3 != 0 {
        let mut m = String::from_str("rgb_data 的长度 (");
        let d = usize_to_decimal(len);
        m.append(d.as_str());
        m.append(") 不是 3 的倍数");
        return Err(m);
    }
    let mut pixels: Vec<Pixel> = Vec::new();
    let mut i: usize = 0;
    while i < len / 3
        invariant
            len == rgb_data@.len(),
            len % 3 == 0,
            i <= len / 3,
            pixels@.len() == i,
            forall|q: int| 0 <= q < i ==> #[trigger] pixels@[q]
                == [rgb_data@[3 * q], rgb_data@[3 * q + 1], rgb_data@[3 * q + 2]],
        decreases len / 3 - i,
    {
        let p: Pixel = [rgb_data[3 * i], rgb_data[3 * i + 1], rgb_data[3 * i + 2]];
        pixels.push(p);
        i = i + 1;
    }
    assert(pixels@ =~= rgb_of(rgb_data@));
    Ok(pixels)
}

/// The pixels of the first `n` groups of `r, g, b, a` bytes that are not
/// fully transparent, in order.
pub open spec fn opaque_upto(data: Seq<u8>, n: int) -> Seq<Pixel>
    decreases n,
{
    if n <= 0 {
        Seq::empty()
    } else if data[4 * (n - 1) + 3] > 0 {
        opaque_upto(data, n - 1).push([data[4 * (n - 1)], data[4 * (n - 1) + 1], data[4 * (n - 1) + 2]])
    } else {
        opaque_upto(data, n - 1)
    }
}

/// The pixels of `r, g, b, a` bytes that are not fully transparent, in order.
pub open spec fn opaque_of(data: Seq<u8>) -> Seq<Pixel> {
    opaque_upto(data, data.len() as int / 4)
}

/// The message when every pixel is fully transparent.
pub open spec fn no_opaque_message() -> Seq<char> {
    "图片中没有不透明像素"@
}

/// Reads the pixels of `r, g, b, a` bytes, as a canvas gives them, leaving out
/// the fully transparent ones (alpha 0).
pub fn opaque_pixels(rgba_data: &[u8]) -> (r: Result<Vec<Pixel>, String>)
    ensures
        rgba_data@.len() % 4 != 0 ==> (r matches Err(m) && m@ == rgba_length_message(rgba_data@.len())),
        rgba_data@.len() % 4 == 0 && opaque_of(rgba_data@).len() == 0
            ==> (r matches Err(m) && m@ == no_opaque_message()),
        rgba_data@.len() % 4 == 0 && opaque_of(rgba_data@).len() > 0
            ==> (r matches Ok(p) && p@ == opaque_of(rgba_data@)),
{
    let len = rgba_data.len();
    if len % 4 != 0 {
        let mut m = String::from_str("rgba_data 的长度 (");
        let d = usize_to_decimal(len);
        m.append(d.as_str());
        m.append(") 不是 4 的倍数");
        return Err(m);
    }
    let mut pixels: Vec<Pixel> = Vec::new();
    let mut i: usize = 0;
    while i < len / 4
        invariant
            len == rgba_data@.len(),
            len % 4 == 0,
            i <= len / 4,
            pixels@ == opaque_upto(rgba_data@, i as int),
        decreases len / 4 - i,
    {
        if rgba_data[4 * i + 3] > 0 {
            pixels.push([rgba_data[4 * i], rgba_data[4 * i + 1], rgba_data[4 * i + 2]]);
        }
        i = i + 1;
    }
    if pixels.len() == 0 {
        return Err(String::from_str("图片中没有不透明像素"));
    }
    Ok(pixels)
}

// ── Extraction ───────────────────────────────────────────────────────────────

/// The configuration that the binding uses: `max_colors` colours, no scaling.
pub open spec fn binding_config(max_colors: usize) -> Config {
    Config { max_colors, sample_size: None, ..default_config() }
}

/// What extraction through the binding gives: the algorithm that `algorithm`
/// names run on `pixels`, or the message of whatever failed.
pub open spec fn binding_result(pixels: Seq<Pixel>, max_colors: usize, algorithm: Seq<char>, r: Result<Vec<Color>, String>) -> bool {
    &&& is_ascii_text(algorithm) ==> lowercase(algorithm) == algorithm.map_values(|c: char| ascii_lower(c))
    &&& match algorithm_named(lowercase(algorithm)) {
        None => r matches Err(m) && m@ == unknown_algorithm_message(lowercase(algorithm)),
        Some(a) => {
            let config = binding_config(max_colors);
            &&& pixels.len() == 0 ==> (r matches Err(m) && m@ == error_message(DominantColorError::EmptyImage))
            &&& pixels.len() > 0 ==> (r is Ok)
            &&& (r matches Ok(p) ==> {
                &&& extracted(a, p@, pixels, config)
                &&& sorted_by_count(p@)
                &&& total_count(p@) == pixels.len()
            })
        },
    }
}

/// Runs the algorithm that `algorithm` names on `pixels` with `max_colors`
/// colours and no scaling; errors come back as their messages.
pub fn run_extraction(pixels: &[Pixel], max_colors: usize, algorithm: &str) -> (r: Result<Vec<Color>, String>)
    requires
        1 <= max_colors,
        pixels@.len() <= MAX_PIXELS,
    ensures
        binding_result(pixels@, max_colors, algorithm@, r),
        r matches Ok(p) ==> p@.len() <= max_colors,
{
    let alg = match parse_algorithm(algorithm) {
        Ok(a) => a,
        Err(m) => return Err(m),
    };
    let config = Config::default().max_colors(max_colors).sample_size(None);
    let r = match algorithms::extract(pixels, alg, &config) {
        Ok(p) => Ok(p),
        Err(e) => Err(e.to_string()),
    };
    proof {
        lemma_binding_within_max_colors(pixels@, max_colors, algorithm@, r);
    }
    r
}

/// The palette for consecutive `r, g, b` bytes: checks the number of colours
/// and the byte count, then runs the named algorithm.
pub fn extract_colors_palette(rgb_data: &[u8], max_colors: usize, algorithm: &str) -> (r: Result<Vec<Color>, String>)
    requires
        rgb_data@.len() <= 3 * MAX_PIXELS,
    ensures
        !(1 <= max_colors <= 64) ==> (r matches Err(m) && m@ == max_colors_message(max_colors)),
        1 <= max_colors <= 64 && rgb_data@.len() % 3 != 0 ==> (r matches Err(m) && m@ == rgb_length_message(rgb_data@.len())),
        1 <= max_colors <= 64 && rgb_data@.len() % 3 == 0 ==> binding_result(rgb_of(rgb_data@), max_colors, algorithm@, r),
        r matches Ok(p) ==> p@.len() <= max_colors,
{
    match validate_max_colors(max_colors) {
        Ok(()) => {},
        Err(m) => return Err(m),
    }
    let pixels = match rgb_pixels(rgb_data) {
        Ok(p) => p,
        Err(m) => return Err(m),
    };
    run_extraction(pixels.as_slice(), max_colors, algorithm)
}

/// The palette for canvas `r, g, b, a` bytes: checks the number of colours
/// and the byte count, leaves out fully transparent pixels, then runs the
/// named algorithm.
pub fn extract_colors_from_image_data_palette(rgba_data: &[u8], max_colors: usize, algorithm: &str) -> (r: Result<Vec<Color>, String>)
    requires
        rgba_data@.len() <= 4 * MAX_PIXELS,
    ensures
        !(1 <= max_colors <= 64) ==> (r matches Err(m) && m@ == max_colors_message(max_colors)),
        1 <= max_colors <= 64 && rgba_data@.len() % 4 != 0 ==> (r matches Err(m) && m@ == rgba_length_message(rgba_data@.len())),
        1 <= max_colors <= 64 && rgba_data@.len() % 4 == 0 && opaque_of(rgba_data@).len() == 0
            ==> (r matches Err(m) && m@ == no_opaque_message()),
        1 <= max_colors <= 64 && rgba_data@.len() % 4 == 0 && opaque_of(rgba_data@).len() > 0
            ==> binding_result(opaque_of(rgba_data@), max_colors, algorithm@, r),
        r matches Ok(p) ==> p@.len() <= max_colors,
{
    match validate_max_colors(max_colors) {
        Ok(()) => {},
        Err(m) => return Err(m),
    }
    let pixels = match opaque_pixels(rgba_data) {
        Ok(p) => p,
        Err(m) => return Err(m),
    };
    proof {
        lemma_opaque_len(rgba_data@, rgba_data@.len() as int / 4);
    }
    run_extraction(pixels.as_slice(), max_colors, algorithm)
}

/// A palette that the binding gives holds no more colours than the
/// `max_colors` it was called with.
pub proof fn lemma_binding_within_max_colors(pixels: Seq<Pixel>, max_colors: usize, algorithm: Seq<char>,
    r: Result<Vec<Color>, String>)
    requires
        binding_result(pixels, max_colors, algorithm, r),
        max_colors >= 1,
    ensures
        r matches Ok(p) ==> p@.len() <= max_colors,
{
    if let Some(a) = algorithm_named(lowercase(algorithm)) {
        if let Ok(p) = r {
            lemma_extract_within_max_colors(a, p@, pixels, binding_config(max_colors));
        }
    }
}

/// An algorithm's entry of the picker, with `det` written as its
/// `is_deterministic` field.
pub open spec fn info_fields_json(id: Seq<char>, a: Algorithm, det: bool) -> Seq<char> {
    let name = match a {
        Algorithm::KMeans => "K-Means 聚类"@,
        Algorithm::MedianCut => "中位切分"@,
        Algorithm::Octree => "八叉树量化"@,
    };
    let desc = match a {
        Algorithm::KMeans => "基于质心的迭代聚类，使用 K-Means++ 初始化，颜色质量最高"@,
        Algorithm::MedianCut => "沿颜色范围最宽的通道递归对半分割，速度快且结果确定"@,
        Algorithm::Octree => "对 RGB 立方体进行层次化细分，速度快、内存占用低且结果确定"@,
    };
    let rank: nat = match a {
        Algorithm::KMeans => 3,
        Algorithm::MedianCut => 1,
        Algorithm::Octree => 2,
    };
    "{\"id\":\""@ + id + "\",\"name\":\""@ + name + "\",\"description\":\""@ + desc + "\",\"is_deterministic\":"@
        + bool_text(det) + ",\"speed_rank\":"@ + decimal(rank) + "}"@
}

/// The picker reports an algorithm as deterministic exactly when it is not
/// k-means, and each algorithm so reported gives one palette for the same
/// pixels and number of colours, whatever the k-means settings.
pub proof fn lemma_info_json_determinism(id: Seq<char>, a: Algorithm)
    ensures
        info_json(id, a) == info_fields_json(id, a, !(a is KMeans)),
        !(a is KMeans) ==> forall|p1: Seq<Color>, p2: Seq<Color>, pixels: Seq<Pixel>, c1: Config, c2: Config|
            c1.max_colors == c2.max_colors && #[trigger] extracted(a, p1, pixels, c1) && #[trigger] extracted(a, p2, pixels, c2)
                ==> p1 == p2,
{
    if !(a is KMeans) {
        assert forall|p1: Seq<Color>, p2: Seq<Color>, pixels: Seq<Pixel>, c1: Config, c2: Config|
            c1.max_colors == c2.max_colors && #[trigger] extracted(a, p1, pixels, c1) && #[trigger] extracted(a, p2, pixels, c2)
            implies p1 == p2 by {
            lemma_extract_deterministic(a, p1, p2, pixels, c1, c2);
        }
    }
}

/// With median cut or octree, the binding gives one result for the same
/// pixels, number of colours and algorithm name; with the law below, the
/// canvas entry point on opaque canvas bytes gives exactly what the RGB entry
/// point gives on the RGB bytes they extend.
pub proof fn lemma_binding_deterministic(pixels: Seq<Pixel>, max_colors: usize, algorithm: Seq<char>,
    r1: Result<Vec<Color>, String>, r2: Result<Vec<Color>, String>)
    requires
        binding_result(pixels, max_colors, algorithm, r1),
        binding_result(pixels, max_colors, algorithm, r2),
        algorithm_named(lowercase(algorithm)) != Some(Algorithm::KMeans),
    ensures
        r1 is Ok <==> r2 is Ok,
        r1 matches Ok(p1) ==> (r2 matches Ok(p2) && p1@ == p2@),
        r1 matches Err(m1) ==> (r2 matches Err(m2) && m1@ == m2@),
{
    match algorithm_named(lowercase(algorithm)) {
        None => {},
        Some(a) => {
            if pixels.len() > 0 {
                let p1 = r1->Ok_0;
                let p2 = r2->Ok_0;
                lemma_extract_deterministic(a, p1@, p2@, pixels, binding_config(max_colors), binding_config(max_colors));
            }
        },
    }
}

/// Canvas bytes that add an alpha byte above zero to each pixel of some RGB
/// bytes are read as the same pixels: the RGBA entry point analyses exactly
/// what the RGB entry point analyses for those bytes.
pub proof fn lemma_opaque_rgba_reads_as_rgb(rgb: Seq<u8>, rgba: Seq<u8>)
    requires
        rgb.len() % 3 == 0,
        rgba.len() == rgb.len() / 3 * 4,
        forall|i: int| 0 <= i < rgb.len() / 3 ==> {
            &&& #[trigger] rgba[4 * i] == rgb[3 * i]
            &&& rgba[4 * i + 1] == rgb[3 * i + 1]
            &&& rgba[4 * i + 2] == rgb[3 * i + 2]
            &&& rgba[4 * i + 3] > 0
        },
    ensures
        opaque_of(rgba) == rgb_of(rgb),
{
    let n = rgb.len() as int / 3;
    assert(rgba.len() as int / 4 == n);
    lemma_opaque_prefix(rgb, rgba, n);
    assert(opaque_upto(rgba, n) =~= rgb_of(rgb));
}

proof fn lemma_opaque_prefix(rgb: Seq<u8>, rgba: Seq<u8>, k: int)
    requires
        0 <= k <= rgb.len() / 3,
        forall|i: int| 0 <= i < rgb.len() / 3 ==> {
            &&& #[trigger] rgba[4 * i] == rgb[3 * i]
            &&& rgba[4 * i + 1] == rgb[3 * i + 1]
            &&& rgba[4 * i + 2] == rgb[3 * i + 2]
            &&& rgba[4 * i + 3] > 0
        },
    ensures
        opaque_upto(rgba, k).len() == k,
        forall|i: int| 0 <= i < k ==> #[trigger] opaque_upto(rgba, k)[i] == [rgb[3 * i], rgb[3 * i + 1], rgb[3 * i + 2]],
    decreases k,
{
    if k > 0 {
        lemma_opaque_prefix(rgb, rgba, k - 1);
        assert(rgba[4 * (k - 1)] == rgb[3 * (k - 1)]);
        assert(rgba[4 * (k - 1) + 3] > 0);
    }
}

proof fn lemma_opaque_len(data: Seq<u8>, n: int)
    requires
        0 <= n,
    ensures
        opaque_upto(data, n).len() <= n,
    decreases n,
{
    if n > 0 {
        lemma_opaque_len(data, n - 1);
    }
}

// ── JSON ─────────────────────────────────────────────────────────────────────

/// The upper-case hexadecimal digit `d`.
pub open spec fn hex_digit(d: int) -> char {
    if d < 10 {
        crate::error::digit_char(d)
    } else if d == 10 {
        'A'
    } else if d == 11 {
        'B'
    } else if d == 12 {
        'C'
    } else if d == 13 {
        'D'
    } else if d == 14 {
        'E'
    } else {
        'F'
    }
}

/// `#RRGGBB` with upper-case digits.
pub open spec fn hex_text(r: u8, g: u8, b: u8) -> Seq<char> {
    seq![
        '#',
        hex_digit(r as int / 16),
        hex_digit(r as int % 16),
        hex_digit(g as int / 16),
        hex_digit(g as int % 16),
        hex_digit(b as int / 16),
        hex_digit(b as int % 16),
    ]
}

fn hex_digit_str(d: u8) -> (s: &'static str)
    requires
        d < 16,
    ensures
        s@ == seq![hex_digit(d as int)],
{
    proof {
        reveal_strlit("0");
        reveal_strlit("1");
        reveal_strlit("2");
        reveal_strlit("3");
        reveal_strlit("4");
        reveal_strlit("5");
        reveal_strlit("6");
        reveal_strlit("7");
        reveal_strlit("8");
        reveal_strlit("9");
        reveal_strlit("A");
        reveal_strlit("B");
        reveal_strlit("C");
        reveal_strlit("D");
        reveal_strlit("E");
        reveal_strlit("F");
    }
    if d == 0 { "0" } else if d == 1 { "1" } else if d == 2 { "2" } else if d == 3 { "3" }
    else if d == 4 { "4" } else if d == 5 { "5" } else if d == 6 { "6" } else if d == 7 { "7" }
    else if d == 8 { "8" } else if d == 9 { "9" } else if d == 10 { "A" } else if d == 11 { "B" }
    else if d == 12 { "C" } else if d == 13 { "D" } else if d == 14 { "E" } else { "F" }
}

/// The colour as `#RRGGBB`, upper-case.
pub fn hex_code(c: &Color) -> (s: String)
    ensures
        s@ == hex_text(c.r, c.g, c.b),
{
    proof {
        reveal_strlit("#");
    }
    let mut s = String::from_str("#");
    s.append(hex_digit_str(c.r / 16));
    s.append(hex_digit_str(c.r % 16));
    s.append(hex_digit_str(c.g / 16));
    s.append(hex_digit_str(c.g % 16));
    s.append(hex_digit_str(c.b / 16));
    s.append(hex_digit_str(c.b % 16));
    proof {
        assert(s@ =~= hex_text(c.r, c.g, c.b));
    }
    s
}

/// One palette entry as a JSON object; `percentage` is the share, already
/// written as a number.
pub open spec fn entry_json(c: Color, percentage: Seq<char>) -> Seq<char> {
    "{\"r\":"@ + decimal(c.r as nat) + ",\"g\":"@ + decimal(c.g as nat) + ",\"b\":"@ + decimal(c.b as nat)
        + ",\"hex\":\""@ + hex_text(c.r, c.g, c.b) + "\",\"percentage\":"@ + percentage + "}"@
}

/// The entries `0..n` joined by commas.
pub open spec fn entries_json(palette: Seq<Color>, percentages: Seq<Seq<char>>, n: int) -> Seq<char>
    decreases n,
{
    if n <= 0 {
        Seq::empty()
    } else if n == 1 {
        entry_json(palette[0], percentages[0])
    } else {
        entries_json(palette, percentages, n - 1) + ","@ + entry_json(palette[n - 1], percentages[n - 1])
    }
}

/// A palette as a JSON array of `{"r","g","b","hex","percentage"}` objects.
pub open spec fn palette_json_text(palette: Seq<Color>, percentages: Seq<Seq<char>>) -> Seq<char> {
    "["@ + entries_json(palette, percentages, palette.len() as int) + "]"@
}

/// Writes one entry.
fn entry_json_string(c: &Color, percentage: &str) -> (s: String)
    ensures
        s@ == entry_json(*c, percentage@),
{
    let mut s = String::from_str("{\"r\":");
    s.append(usize_to_decimal(c.r as usize).as_str());
    s.append(",\"g\":");
    s.append(usize_to_decimal(c.g as usize).as_str());
    s.append(",\"b\":");
    s.append(usize_to_decimal(c.b as usize).as_str());
    s.append(",\"hex\":\"");
    s.append(hex_code(c).as_str());
    s.append("\",\"percentage\":");
    s.append(percentage);
    s.append("}");
    s
}

/// Writes a palette as JSON; `percentages[i]` is the share of colour `i`,
/// already written as a number.
pub fn palette_json(palette: &[Color], percentages: &[String]) -> (s: String)
    requires
        percentages@.len() == palette@.len(),
    ensures
        s@ == palette_json_text(palette@, percentages@.map_values(|p: String| p@)),
{
    let ghost pv = percentages@.map_values(|p: String| p@);
    let mut s = String::from_str("[");
    let mut i: usize = 0;
    while i < palette.len()
        invariant
            i <= palette@.len(),
            percentages@.len() == palette@.len(),
            pv == percentages@.map_values(|p: String| p@),
            s@ == "["@ + entries_json(palette@, pv, i as int),
        decreases palette@.len() - i,
    {
        if i > 0 {
            s.append(",");
        }
        let e = entry_json_string(&palette[i], percentages[i].as_str());
        s.append(e.as_str());
        proof {
            assert(pv[i as int] == percentages@[i as int]@);
            if i == 0 {
                assert(entries_json(palette@, pv, 0) =~= Seq::<char>::empty());
            }
        }
        i = i + 1;
    }
    s.append("]");
    s
}

/// The word JSON writes for `b`.
pub open spec fn bool_text(b: bool) -> Seq<char> {
    if b { "true"@ } else { "false"@ }
}

/// One algorithm as a JSON object.
pub open spec fn info_json(id: Seq<char>, a: Algorithm) -> Seq<char> {
    let name = match a {
        Algorithm::KMeans => "K-Means 聚类"@,
        Algorithm::MedianCut => "中位切分"@,
        Algorithm::Octree => "八叉树量化"@,
    };
    let desc = match a {
        Algorithm::KMeans => "基于质心的迭代聚类，使用 K-Means++ 初始化，颜色质量最高"@,
        Algorithm::MedianCut => "沿颜色范围最宽的通道递归对半分割，速度快且结果确定"@,
        Algorithm::Octree => "对 RGB 立方体进行层次化细分，速度快、内存占用低且结果确定"@,
    };
    let rank: nat = match a {
        Algorithm::KMeans => 3,
        Algorithm::MedianCut => 1,
        Algorithm::Octree => 2,
    };
    "{\"id\":\""@ + id + "\",\"name\":\""@ + name + "\",\"description\":\""@ + desc + "\",\"is_deterministic\":"@
        + bool_text(!(a is KMeans)) + ",\"speed_rank\":"@ + decimal(rank) + "}"@
}

/// The three algorithms as a JSON array, for building an algorithm picker.
pub open spec fn algorithm_info_text() -> Seq<char> {
    "["@ + info_json("kmeans"@, Algorithm::KMeans) + ","@ + info_json("mediancut"@, Algorithm::MedianCut) + ","@
        + info_json("octree"@, Algorithm::Octree) + "]"@
}

fn info_json_string(id: &str, a: Algorithm) -> (s: String)
    ensures
        s@ == info_json(id@, a),
{
    let info = AlgorithmInfo::of(a);
    let mut s = String::from_str("{\"id\":\"");
    s.append(id);
    s.append("\",\"name\":\"");
    s.append(info.name);
    s.append("\",\"description\":\"");
    s.append(info.description);
    s.append("\",\"is_deterministic\":");
    if info.is_deterministic {
        s.append("true");
    } else {
        s.append("false");
    }
    s.append(",\"speed_rank\":");
    s.append(usize_to_decimal(info.speed_rank as usize).as_str());
    s.append("}");
    s
}

/// The JSON description of the three algorithms, in the order k-means,
/// median cut, octree.
pub fn algorithm_info_json() -> (s: String)
    ensures
        s@ == algorithm_info_text(),
{
    let mut s = String::from_str("[");
    s.append(info_json_string("kmeans", Algorithm::KMeans).as_str());
    s.append(",");
    s.append(info_json_string("mediancut", Algorithm::MedianCut).as_str());
    s.append(",");
    s.append(info_json_string("octree", Algorithm::Octree).as_str());
    s.append("]");
    s
}

} // verus!
