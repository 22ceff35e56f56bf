use dominant_colors::algorithms::median_cut::{extract, longest_axis, split_bucket, B, G, R};
use dominant_colors::{Color, Config, DominantColorError};

fn cfg(k: usize) -> Config {
    Config::default().max_colors(k).sample_size(None)
}

fn share(c: &Color, total: usize) -> f32 {
    c.pixel_count as f32 / total as f32
}

#[test]
fn test_extract_empty() {
    let result = extract(&[], &cfg(4));
    assert_eq!(result, Err(DominantColorError::EmptyImage));
}

#[test]
fn median_cut_test_single_pixel() {
    let pixels = vec![[128u8, 64, 32]];
    let palette = extract(&pixels, &cfg(3)).unwrap();
    assert_eq!(palette.len(), 1);
    assert!((share(&palette[0], pixels.len()) - 1.0).abs() < 1e-5);
}

#[test]
fn test_two_distinct_colors() {
    let mut pixels = vec![[0u8, 0, 255]; 50];
    pixels.extend(vec![[255u8, 0, 0]; 50]);
    let palette = extract(&pixels, &cfg(2)).unwrap();
    assert_eq!(palette.len(), 2);
    for c in &palette {
        assert!((share(c, pixels.len()) - 0.5).abs() < 0.05, "各色应占约 50%");
    }
}

#[test]
fn median_cut_test_percentages_sum_to_one() {
    let pixels: Vec<[u8; 3]> = (0..200u8).map(|i| [i, i.wrapping_add(10), 100]).collect();
    let palette = extract(&pixels, &cfg(8)).unwrap();
    let total: f32 = palette.iter().map(|c| share(c, pixels.len())).sum();
    assert!((total - 1.0).abs() < 1e-5, "占比之和 = {total}");
}

#[test]
fn test_k_exceeds_unique_pixels() {
    let pixels = vec![[255u8, 0, 0]; 3];
    let palette = extract(&pixels, &cfg(10)).unwrap();
    assert!(palette.len() <= 3, "结果颜色数不应超过唯一像素数");
}

#[test]
fn test_longest_axis_red() {
    let pixels = vec![[0u8, 5, 5], [255, 5, 5]];
    assert_eq!(longest_axis(&pixels), R);
}

#[test]
fn test_longest_axis_green() {
    let pixels = vec![[5u8, 0, 5], [5, 200, 5]];
    assert_eq!(longest_axis(&pixels), G);
}

#[test]
fn test_longest_axis_blue() {
    let pixels = vec![[5u8, 5, 10], [5, 5, 250]];
    assert_eq!(longest_axis(&pixels), B);
}

#[test]
fn test_split_bucket_even() {
    let pixels = vec![[0u8, 0, 0], [100, 0, 0], [200, 0, 0], [255, 0, 0]];
    let (left, right) = split_bucket(pixels);
    assert_eq!(left.len(), 2);
    assert_eq!(right.len(), 2);
}

#[test]
fn median_cut_test_deterministic() {
    let pixels: Vec<[u8; 3]> = (0..100u8).map(|i| [i, 255 - i, i / 2]).collect();
    let p1 = extract(&pixels, &cfg(5)).unwrap();
    let p2 = extract(&pixels, &cfg(5)).unwrap();
    assert_eq!(p1.len(), p2.len());
    for (a, b) in p1.iter().zip(p2.iter()) {
        assert_eq!((a.r, a.g, a.b), (b.r, b.g, b.b), "相同输入结果应一致");
    }
}

#[test]
fn test_gradient_image_color_count() {
    let pixels: Vec<[u8; 3]> = (0..=255u8).map(|i| [i, 0, 0]).collect();
    let palette = extract(&pixels, &cfg(8)).unwrap();
    assert_eq!(palette.len(), 8, "渐变图应被切分为 8 个桶");
}

#[test]
fn longest_axis_ties_go_to_the_earlier_channel() {
    assert_eq!(longest_axis(&[[0u8, 0, 0], [10, 10, 10]]), R);
    assert_eq!(longest_axis(&[[0u8, 0, 0], [3, 10, 10]]), G);
    assert_eq!(longest_axis(&[[255u8, 0, 0], [0, 0, 255]]), R);
    assert_eq!(longest_axis(&[[7u8, 7, 7]]), R);
    assert_eq!(longest_axis(&[]), R);
}

#[test]
fn split_bucket_sorts_along_the_axis() {
    let pixels = vec![[9u8, 1, 1], [3, 1, 1], [7, 1, 1], [1, 1, 1], [5, 1, 1]];
    let (left, right) = split_bucket(pixels);
    assert_eq!(left, vec![[1u8, 1, 1], [3, 1, 1]]);
    assert_eq!(right, vec![[5u8, 1, 1], [7, 1, 1], [9, 1, 1]]);
}

#[test]
fn median_cut_gives_exactly_k_colours() {
    let pixels: Vec<[u8; 3]> = (0..40u8).map(|i| [i * 6, i, 200 - i]).collect();
    for k in 1..=12usize {
        let palette = extract(&pixels, &cfg(k)).unwrap();
        assert_eq!(palette.len(), k);
        assert_eq!(palette.iter().map(|c| c.pixel_count).sum::<usize>(), 40);
    }
    let mut zero = cfg(1);
    zero.max_colors = 0;
    assert_eq!(extract(&pixels, &zero).unwrap().len(), 1);
}

#[test]
fn median_cut_means_of_halves() {
    // Two pixels, two colours: each half is one pixel, its own mean.
    let pixels = vec![[10u8, 0, 0], [30, 0, 0]];
    let palette = extract(&pixels, &cfg(2)).unwrap();
    assert_eq!(palette, vec![Color::new(10, 0, 0, 1), Color::new(30, 0, 0, 1)]);
    let one = extract(&pixels, &cfg(1)).unwrap();
    assert_eq!(one, vec![Color::new(20, 0, 0, 2)]);
}

#[test]
fn splits_the_last_of_equally_large_buckets() {
    let pixels = vec![[0u8, 0, 0], [10, 0, 0], [20, 0, 0], [30, 0, 0]];
    let palette = extract(&pixels, &cfg(3)).unwrap();
    assert_eq!(palette, vec![Color::new(5, 0, 0, 2), Color::new(20, 0, 0, 1), Color::new(30, 0, 0, 1)]);
}
