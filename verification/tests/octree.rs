use dominant_colors::algorithms::octree::{extract, octant_index, MAX_DEPTH};
use dominant_colors::{Color, Config, DominantColorError};

fn cfg(k: usize) -> Config {
    Config::default().max_colors(k).sample_size(None)
}

fn share(c: &Color, total: usize) -> f32 {
    c.pixel_count as f32 / total as f32
}

#[test]
fn test_empty_returns_error() {
    assert_eq!(extract(&[], &cfg(4)), Err(DominantColorError::EmptyImage));
}

#[test]
fn octree_test_single_pixel() {
    let pixels = vec![[200u8, 100, 50]];
    let palette = extract(&pixels, &cfg(4)).unwrap();
    assert_eq!(palette.len(), 1);
    assert!((share(&palette[0], pixels.len()) - 1.0).abs() < 1e-5);
}

#[test]
fn test_two_colors_separated() {
    let mut pixels = vec![[255u8, 0, 0]; 60];
    pixels.extend(vec![[0u8, 0, 255]; 40]);
    let palette = extract(&pixels, &cfg(2)).unwrap();
    assert_eq!(palette.len(), 2);
    assert!(palette.iter().any(|c| c.r > 200 && c.b < 50), "缺少红色");
    assert!(palette.iter().any(|c| c.b > 200 && c.r < 50), "缺少蓝色");
}

#[test]
fn octree_test_percentages_sum_to_one() {
    let pixels: Vec<[u8; 3]> = (0..128u8).map(|i| [i, i.wrapping_mul(2), 255 - i]).collect();
    let palette = extract(&pixels, &cfg(6)).unwrap();
    let total: f32 = palette.iter().map(|c| share(c, pixels.len())).sum();
    assert!((total - 1.0).abs() < 1e-4, "占比之和 = {total}");
}

#[test]
fn test_leaf_count_respects_k() {
    let pixels: Vec<[u8; 3]> = (0..=255u8).map(|i| [i, i, i]).collect();
    let k = 5;
    let palette = extract(&pixels, &cfg(k)).unwrap();
    assert!(palette.len() <= k, "期望 ≤{k}，实际 {}", palette.len());
}

#[test]
fn test_exactly_k_distinct_colors() {
    let mut pixels = Vec::new();
    for (i, &color) in [
        [255u8, 0, 0],
        [0, 255, 0],
        [0, 0, 255],
        [255, 255, 0],
        [255, 0, 255],
        [0, 255, 255],
        [128, 0, 0],
        [0, 128, 0],
    ]
    .iter()
    .enumerate()
    {
        pixels.extend(vec![color; 200 + i * 50]);
    }
    let palette = extract(&pixels, &cfg(8)).unwrap();
    assert!(palette.len() <= 8, "颜色数量 {} 超过了预期的上限 8", palette.len());
    assert!(palette.len() > 0, "调色板不应为空");
}

#[test]
fn test_no_data_loss() {
    let pixels: Vec<[u8; 3]> = (0..=255u8).flat_map(|i| vec![[i, 255 - i, i / 2]; 3]).collect();
    let palette = extract(&pixels, &cfg(8)).unwrap();
    let total: f32 = palette.iter().map(|c| share(c, pixels.len())).sum();
    assert!((total - 1.0).abs() < 1e-4, "占比之和 = {total}，疑似数据丢失");
}

#[test]
fn test_octant_index_range() {
    for r in [0u8, 127, 255] {
        for g in [0u8, 127, 255] {
            for b in [0u8, 127, 255] {
                for depth in 0..=MAX_DEPTH {
                    assert!(octant_index([r, g, b], depth) < 8);
                }
            }
        }
    }
}

#[test]
fn octree_test_deterministic() {
    let pixels: Vec<[u8; 3]> = (0..200u8).map(|i| [i, 200 - i, i / 2]).collect();
    let p1 = extract(&pixels, &cfg(6)).unwrap();
    let p2 = extract(&pixels, &cfg(6)).unwrap();
    assert_eq!(p1.len(), p2.len());
    for (a, b) in p1.iter().zip(p2.iter()) {
        assert_eq!((a.r, a.g, a.b), (b.r, b.g, b.b));
    }
}

#[test]
fn test_k1_returns_one_color() {
    let pixels: Vec<[u8; 3]> = (0..50u8).map(|i| [i * 5, i, 100]).collect();
    let palette = extract(&pixels, &cfg(1)).unwrap();
    assert_eq!(palette.len(), 1);
    assert!((share(&palette[0], pixels.len()) - 1.0).abs() < 1e-4);
}

#[test]
fn test_gradient() {
    let pixels: Vec<[u8; 3]> = (0..=255u8).map(|i| [i, 0, 255 - i]).collect();
    let palette = extract(&pixels, &cfg(8)).unwrap();
    assert!(palette.len() > 0 && palette.len() <= 8);
    assert!(palette.iter().any(|c| c.r > 180 && c.b < 80), "缺偏红色");
    assert!(palette.iter().any(|c| c.b > 180 && c.r < 80), "缺偏蓝色");
}

#[test]
fn octant_index_takes_one_bit_per_channel() {
    // At depth 0 the top bits: r=1, g=0, b=1 gives 0b101.
    assert_eq!(octant_index([0x80, 0x7F, 0xFF], 0), 5);
    // At depth 7 the lowest bits: r=1, g=1, b=0 gives 0b110.
    assert_eq!(octant_index([1, 3, 2], 7), 6);
}

#[test]
fn octree_exact_colours_when_few() {
    let mut pixels = vec![[10u8, 20, 30]; 3];
    pixels.extend(vec![[200u8, 100, 0]; 1]);
    let palette = extract(&pixels, &cfg(4)).unwrap();
    let mut got: Vec<(u8, u8, u8, usize)> = palette.iter().map(|c| (c.r, c.g, c.b, c.pixel_count)).collect();
    got.sort();
    assert_eq!(got, vec![(10, 20, 30, 3), (200, 100, 0, 1)]);
}

#[test]
fn octree_zero_colours_gives_one() {
    let pixels: Vec<[u8; 3]> = (0..30u8).map(|i| [i * 8, 255 - i, i]).collect();
    let mut config = cfg(1);
    config.max_colors = 0;
    let palette = extract(&pixels, &config).unwrap();
    assert_eq!(palette.len(), 1);
    assert_eq!(palette[0].pixel_count, 30);
}

#[test]
fn octree_keeps_each_of_eight_colours_pure() {
    let colours = [
        [255u8, 0, 0],
        [0, 255, 0],
        [0, 0, 255],
        [255, 255, 0],
        [255, 0, 255],
        [0, 255, 255],
        [128, 0, 0],
        [0, 128, 0],
    ];
    let mut pixels = Vec::new();
    for (i, &c) in colours.iter().enumerate() {
        pixels.extend(vec![c; 10 + i]);
    }
    let palette = extract(&pixels, &cfg(8)).unwrap();
    let mut got: Vec<(u8, u8, u8, usize)> = palette.iter().map(|c| (c.r, c.g, c.b, c.pixel_count)).collect();
    got.sort();
    let mut want: Vec<(u8, u8, u8, usize)> =
        colours.iter().enumerate().map(|(i, c)| (c[0], c[1], c[2], 10 + i)).collect();
    want.sort();
    assert_eq!(got, want);
}

#[test]
fn octree_merges_whole_cells_only() {
    // Two pixels share a leaf cell ([0,0,0] and [1,1,1] differ only in the
    // lowest bit); a third cell sits beside them.  Asking for one colour per
    // cell keeps the first two together.
    let pixels = vec![[0u8, 0, 0], [1, 1, 1], [0, 0, 4], [0, 0, 4]];
    let palette = extract(&pixels, &cfg(2)).unwrap();
    let mut got: Vec<(u8, u8, u8, usize)> = palette.iter().map(|c| (c.r, c.g, c.b, c.pixel_count)).collect();
    got.sort();
    assert_eq!(got, vec![(0, 0, 4, 2), (1, 1, 1, 2)]);
}

#[test]
fn octree_partial_merge_takes_the_smallest_leaves() {
    // Three leaf cells under one depth-6 node; two colours asked for.  The
    // two smallest leaves (ties keep slot order) merge into their parent.
    let pixels = vec![[0u8, 0, 0], [0, 0, 2], [0, 2, 0], [0, 2, 0]];
    let palette = extract(&pixels, &cfg(2)).unwrap();
    let mut got: Vec<(u8, u8, u8, usize)> = palette.iter().map(|c| (c.r, c.g, c.b, c.pixel_count)).collect();
    got.sort();
    assert_eq!(got, vec![(0, 0, 1, 2), (0, 2, 0, 2)]);
}

#[test]
fn octree_three_leaves_two_colours_in_walk_order() {
    let pixels = vec![[0u8, 0, 0], [0, 0, 2], [0, 2, 0]];
    let palette = extract(&pixels, &cfg(2)).unwrap();
    let got: Vec<(u8, u8, u8, usize)> = palette.iter().map(|c| (c.r, c.g, c.b, c.pixel_count)).collect();
    assert_eq!(got, vec![(0, 0, 1, 2), (0, 2, 0, 1)]);
}
