use dominant_colors::algorithms::kmeans::{assign_pixels, extract, kmeans_plus_plus_init, roulette_pick, update_centroids};
use dominant_colors::{Color, Config};
use rand::rngs::SmallRng;
use rand::SeedableRng;

fn cfg(k: usize) -> Config {
    Config::default()
        .max_colors(k)
        .sample_size(None)
        .kmeans_seed(0)
        .kmeans_max_iterations(200)
}

fn share(c: &Color, total: usize) -> f32 {
    c.pixel_count as f32 / total as f32
}

#[test]
fn test_extract_single_color() {
    let pixels = vec![[255u8, 0, 0]; 50];
    let palette = extract(&pixels, &cfg(3)).unwrap();
    assert!(!palette.is_empty());
    let top = &palette[0];
    assert!(share(top, pixels.len()) > 0.9, "纯色图片：首位颜色占比应超过 90%");
}

#[test]
fn test_extract_two_clusters() {
    let mut pixels = vec![[0u8, 0, 255]; 50];
    pixels.extend(vec![[255u8, 0, 0]; 50]);
    let palette = extract(&pixels, &cfg(2)).unwrap();
    assert_eq!(palette.len(), 2);
    for c in &palette {
        assert!((share(c, pixels.len()) - 0.5).abs() < 0.15, "每个簇应占约 50%");
    }
}

#[test]
fn kmeans_test_percentages_sum_to_one() {
    let pixels: Vec<[u8; 3]> = (0..255u8).map(|i| [i, i, i]).collect();
    let palette = extract(&pixels, &cfg(5)).unwrap();
    let total: f32 = palette.iter().map(|c| share(c, pixels.len())).sum();
    assert!((total - 1.0).abs() < 1e-5, "占比之和应为 1.0，实际 {total}");
}

#[test]
fn test_k_clamped_to_pixel_count() {
    let pixels = vec![[0u8, 0, 0], [255, 255, 255]];
    let palette = extract(&pixels, &cfg(10)).unwrap();
    assert!(palette.len() <= 2);
}

#[test]
fn test_kmeans_plus_plus_k_equals_1() {
    let pixels = vec![[1u8, 2, 3]; 10];
    let mut rng = SmallRng::seed_from_u64(0);
    let centroids = kmeans_plus_plus_init(&pixels, 1, &mut rng);
    assert_eq!(centroids.len(), 1);
}

#[test]
fn test_assign_pixels_nearest() {
    let pixels = vec![[0u8, 0, 0], [200, 200, 200]];
    let centroids = vec![[0u8, 0, 0], [255, 255, 255]];
    let assignments = assign_pixels(&pixels, &centroids);
    assert_eq!(assignments, vec![0, 1]);
}

#[test]
fn test_deterministic_with_same_seed() {
    let pixels: Vec<[u8; 3]> = (0..100u8)
        .map(|i| [i, i.wrapping_mul(2), i.wrapping_mul(3)])
        .collect();
    let palette1 = extract(&pixels, &cfg(4)).unwrap();
    let palette2 = extract(&pixels, &cfg(4)).unwrap();
    for (a, b) in palette1.iter().zip(palette2.iter()) {
        assert_eq!((a.r, a.g, a.b), (b.r, b.g, b.b), "相同种子结果应一致");
    }
}

#[test]
fn assign_pixels_prefers_first_of_equal_centroids() {
    let pixels = vec![[10u8, 10, 10]];
    let centroids = vec![[0u8, 10, 10], [20, 10, 10], [10, 10, 10], [10, 10, 10]];
    assert_eq!(assign_pixels(&pixels, &centroids), vec![2]);
    assert_eq!(assign_pixels(&pixels, &[]), vec![0]);
}

#[test]
fn update_centroids_takes_floor_means() {
    let pixels = vec![[0u8, 0, 0], [1, 3, 255], [100, 100, 100]];
    let assignments = vec![0usize, 0, 1];
    let mut rng = SmallRng::seed_from_u64(1);
    let cs = update_centroids(&pixels, &assignments, 2, &mut rng);
    assert_eq!(cs, vec![[0u8, 1, 127], [100, 100, 100]]);
}

#[test]
fn update_centroids_revives_empty_cluster_from_largest() {
    let pixels = vec![[5u8, 5, 5], [6, 6, 6], [200, 0, 0]];
    let assignments = vec![0usize, 0, 2];
    let mut rng = SmallRng::seed_from_u64(7);
    let cs = update_centroids(&pixels, &assignments, 3, &mut rng);
    assert!(cs[1] == [5, 5, 5] || cs[1] == [6, 6, 6]);
    assert_eq!(cs[2], [200, 0, 0]);
    let none = update_centroids(&[], &[], 2, &mut rng);
    assert_eq!(none, vec![[128u8, 128, 128], [128, 128, 128]]);
}

#[test]
fn kmeans_plus_plus_picks_new_colours_while_there_are_any() {
    let pixels = vec![[0u8, 0, 0], [0, 0, 0], [255, 255, 255], [0, 0, 0]];
    for seed in 0..20u64 {
        let mut rng = SmallRng::seed_from_u64(seed);
        let cs = kmeans_plus_plus_init(&pixels, 2, &mut rng);
        assert_eq!(cs.len(), 2);
        assert_ne!(cs[0], cs[1]);
    }
}

#[test]
fn kmeans_zero_colours_is_empty_image() {
    let pixels = vec![[1u8, 2, 3]; 4];
    let mut config = cfg(1);
    config.max_colors = 0;
    assert_eq!(extract(&pixels, &config), Err(dominant_colors::DominantColorError::EmptyImage));
    assert_eq!(extract(&[], &cfg(3)), Err(dominant_colors::DominantColorError::EmptyImage));
}

#[test]
fn kmeans_counts_cover_all_pixels() {
    let pixels: Vec<[u8; 3]> = (0..90u8).map(|i| [i, 255 - i, i / 3]).collect();
    let palette = extract(&pixels, &cfg(6)).unwrap();
    assert!(!palette.is_empty() && palette.len() <= 6);
    assert_eq!(palette.iter().map(|c| c.pixel_count).sum::<usize>(), pixels.len());
}

#[test]
fn one_cluster_gives_the_rounded_mean() {
    let pixels = vec![[0u8, 0, 0], [1, 0, 0], [4, 9, 0]];
    for seed in 0..5u64 {
        let palette = extract(&pixels, &cfg(1).kmeans_seed(seed)).unwrap();
        assert_eq!(palette, vec![Color::new(2, 3, 0, 3)]);
    }
}

#[test]
fn roulette_picks_the_first_index_whose_running_sum_passes_the_dart() {
    let w = [0u32, 3, 0, 2, 5];
    let picks: Vec<usize> = (0..10u128).map(|d| roulette_pick(&w, d)).collect();
    assert_eq!(picks, vec![1, 1, 1, 3, 3, 4, 4, 4, 4, 4]);
}
