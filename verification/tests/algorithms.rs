use dominant_colors::algorithms::{extract, extract_all, AlgorithmInfo};
use dominant_colors::{Algorithm, Color, Config, DominantColorError};

fn two_color_pixels() -> Vec<[u8; 3]> {
    let mut v = vec![[255u8, 0, 0]; 50];
    v.extend(vec![[0u8, 0, 255]; 50]);
    v
}

fn cfg(k: usize) -> Config {
    Config::default().max_colors(k).sample_size(None)
}

fn share(c: &Color, total: usize) -> f32 {
    c.pixel_count as f32 / total as f32
}

const ALL: [Algorithm; 3] = [Algorithm::KMeans, Algorithm::MedianCut, Algorithm::Octree];

#[test]
fn test_info_kmeans_not_deterministic() {
    let info = AlgorithmInfo::of(Algorithm::KMeans);
    assert!(!info.is_deterministic, "K-Means 因随机初始化而非确定性");
}

#[test]
fn test_info_median_cut_deterministic() {
    let info = AlgorithmInfo::of(Algorithm::MedianCut);
    assert!(info.is_deterministic);
}

#[test]
fn test_info_octree_deterministic() {
    let info = AlgorithmInfo::of(Algorithm::Octree);
    assert!(info.is_deterministic);
}

#[test]
fn test_info_speed_ranks_distinct() {
    let ranks: Vec<u8> = ALL.iter().map(|&a| AlgorithmInfo::of(a).speed_rank).collect();
    let mut sorted = ranks.clone();
    sorted.sort_unstable();
    sorted.dedup();
    assert_eq!(sorted.len(), 3, "三种算法的速度评级应各不相同：{ranks:?}");
}

#[test]
fn test_info_name_nonempty() {
    for alg in ALL {
        let info = AlgorithmInfo::of(alg);
        assert!(!info.name.is_empty(), "{alg:?} 名称不应为空");
        assert!(!info.description.is_empty(), "{alg:?} 描述不应为空");
    }
}

#[test]
fn test_extract_empty_pixels_error() {
    for alg in ALL {
        let result = extract(&[], alg, &cfg(4));
        assert_eq!(result, Err(DominantColorError::EmptyImage), "{alg:?} 应返回 EmptyImage");
    }
}

#[test]
fn test_extract_sorted_descending() {
    let pixels = two_color_pixels();
    for alg in ALL {
        let palette = extract(&pixels, alg, &cfg(2)).unwrap();
        let pcts: Vec<f32> = palette.iter().map(|c| share(c, pixels.len())).collect();
        let mut sorted = pcts.clone();
        sorted.sort_by(|a, b| b.partial_cmp(a).unwrap());
        assert_eq!(pcts, sorted, "{alg:?} 结果应按占比降序排列");
    }
}

#[test]
fn test_extract_no_zero_percentage() {
    let pixels: Vec<[u8; 3]> = (0..50u8).map(|i| [i * 5, i, 100]).collect();
    for alg in ALL {
        let palette = extract(&pixels, alg, &cfg(6)).unwrap();
        for color in &palette {
            assert!(share(color, pixels.len()) > 0.0, "{alg:?} 不应包含占比为零的颜色");
        }
    }
}

#[test]
fn test_extract_percentages_sum_to_one() {
    let pixels = two_color_pixels();
    for alg in ALL {
        let palette = extract(&pixels, alg, &cfg(4)).unwrap();
        let total: f32 = palette.iter().map(|c| share(c, pixels.len())).sum();
        assert!((total - 1.0).abs() < 1e-4, "{alg:?} 占比之和应为 1.0，实际 {total}");
    }
}

#[test]
fn test_extract_all_returns_three_results() {
    let pixels = two_color_pixels();
    let results = extract_all(&pixels, &cfg(2)).unwrap();
    assert_eq!(results.len(), 3, "应返回三种算法的结果");
}

#[test]
fn test_extract_all_algorithm_order() {
    let pixels = two_color_pixels();
    let results = extract_all(&pixels, &cfg(2)).unwrap();
    assert_eq!(results[0].0, Algorithm::KMeans);
    assert_eq!(results[1].0, Algorithm::MedianCut);
    assert_eq!(results[2].0, Algorithm::Octree);
}

#[test]
fn test_extract_all_each_palette_nonempty() {
    let pixels: Vec<[u8; 3]> = (0..100u8).map(|i| [i, i, i]).collect();
    let results = extract_all(&pixels, &cfg(4)).unwrap();
    for (alg, palette) in &results {
        assert!(!palette.is_empty(), "{alg:?} 调色板不应为空");
    }
}

#[test]
fn test_extract_all_empty_pixels_error() {
    let result = extract_all(&[], &cfg(4));
    assert_eq!(result, Err(DominantColorError::EmptyImage));
}

#[test]
fn test_extract_all_consistent_with_individual() {
    let pixels = two_color_pixels();
    let config = cfg(2);
    let all_results = extract_all(&pixels, &config).unwrap();
    for (alg, palette_from_all) in &all_results {
        let palette_single = extract(&pixels, *alg, &config).unwrap();
        assert_eq!(palette_from_all.len(), palette_single.len(), "{alg:?} extract_all 与单独调用结果数量不一致");
        for (a, b) in palette_from_all.iter().zip(palette_single.iter()) {
            assert_eq!((a.r, a.g, a.b), (b.r, b.g, b.b), "{alg:?} extract_all 与单独调用颜色值不一致");
        }
    }
}

#[test]
fn median_cut_example_from_the_docs() {
    let pixels: Vec<[u8; 3]> = vec![[255, 0, 0]; 50].into_iter().chain(vec![[0, 0, 255]; 50]).collect();
    let palette = extract(&pixels, Algorithm::MedianCut, &Config::default()).unwrap();
    assert_eq!(palette.len(), 2);
}

#[test]
fn info_values_are_exact() {
    let k = AlgorithmInfo::of(Algorithm::KMeans);
    assert_eq!((k.name, k.speed_rank), ("K-Means 聚类", 3));
    let m = AlgorithmInfo::of(Algorithm::MedianCut);
    assert_eq!((m.name, m.speed_rank), ("中位切分", 1));
    let o = AlgorithmInfo::of(Algorithm::Octree);
    assert_eq!((o.name, o.speed_rank), ("八叉树量化", 2));
}

#[test]
fn extract_orders_by_count_keeping_ties() {
    let mut pixels = vec![[0u8, 0, 255]; 10];
    pixels.extend(vec![[255u8, 0, 0]; 30]);
    pixels.extend(vec![[0u8, 255, 0]; 10]);
    let palette = extract(&pixels, Algorithm::Octree, &cfg(3)).unwrap();
    let counts: Vec<usize> = palette.iter().map(|c| c.pixel_count).collect();
    assert_eq!(counts, vec![30, 10, 10]);
}

#[test]
fn extract_all_stops_on_zero_colours() {
    let pixels = two_color_pixels();
    let mut config = cfg(2);
    config.max_colors = 0;
    assert_eq!(extract_all(&pixels, &config), Err(DominantColorError::EmptyImage));
    for alg in ALL {
        assert_eq!(extract(&pixels, alg, &config), Err(DominantColorError::EmptyImage), "{alg:?}");
    }
}

#[test]
fn sort_palette_is_stable_and_descending() {
    let mut p = vec![
        Color::new(1, 0, 0, 2),
        Color::new(2, 0, 0, 5),
        Color::new(3, 0, 0, 2),
        Color::new(4, 0, 0, 7),
        Color::new(5, 0, 0, 5),
    ];
    dominant_colors::algorithms::sort_palette(&mut p);
    let order: Vec<u8> = p.iter().map(|c| c.r).collect();
    assert_eq!(order, vec![4, 2, 5, 1, 3]);
}

#[test]
fn sorting_a_sorted_palette_changes_nothing() {
    let mut p = vec![Color::new(4, 0, 0, 7), Color::new(2, 0, 0, 5), Color::new(5, 0, 0, 5), Color::new(1, 0, 0, 2)];
    let before = p.clone();
    dominant_colors::algorithms::sort_palette(&mut p);
    assert_eq!(p, before);
}

#[test]
fn single_color_image_gives_that_color_back() {
    let pixels = vec![[12u8, 200, 77]; 40];
    for alg in ALL {
        let palette = extract(&pixels, alg, &cfg(4)).unwrap();
        for c in &palette {
            assert_eq!((c.r, c.g, c.b), (12, 200, 77), "{alg:?}");
        }
        let total: usize = palette.iter().map(|c| c.pixel_count).sum();
        assert_eq!(total, 40);
        assert_eq!(palette.len(), 1, "{alg:?}");
    }
}

#[test]
fn colors_are_rounded_means_of_groups() {
    // Three pixels in one octree leaf average to (1.67, 0, 0), which rounds to 2.
    let pixels = vec![[1u8, 0, 0], [2, 0, 0], [2, 0, 0]];
    let palette = extract(&pixels, Algorithm::Octree, &cfg(1)).unwrap();
    assert_eq!(palette, vec![Color::new(2, 0, 0, 3)]);
    let palette = extract(&pixels, Algorithm::MedianCut, &cfg(1)).unwrap();
    assert_eq!(palette, vec![Color::new(2, 0, 0, 3)]);
}

#[test]
fn octree_gives_as_many_colors_as_asked_or_as_cells_filled() {
    let gradient: Vec<[u8; 3]> = (0..=255u8).map(|i| [i, i, i]).collect();
    assert_eq!(extract(&gradient, Algorithm::Octree, &cfg(5)).unwrap().len(), 5);
    // [2, 2, 2] and [3, 3, 3] differ only in their lowest bits: one leaf cell.
    let pixels = vec![[2u8, 2, 2], [3, 3, 3], [3, 3, 3]];
    let palette = extract(&pixels, Algorithm::Octree, &cfg(4)).unwrap();
    assert_eq!(palette, vec![Color::new(3, 3, 3, 3)]);
    let pixels = vec![[0u8, 0, 0], [200, 0, 0], [0, 200, 0]];
    assert_eq!(extract(&pixels, Algorithm::Octree, &cfg(8)).unwrap().len(), 3);
}

#[test]
fn median_cut_ignores_the_kmeans_settings() {
    let pixels: Vec<[u8; 3]> = (0..90u8).map(|i| [i.wrapping_mul(7), 200 - i, i / 3]).collect();
    let a = extract(&pixels, Algorithm::MedianCut, &cfg(5));
    let b = extract(&pixels, Algorithm::MedianCut, &cfg(5).kmeans_seed(99).kmeans_max_iterations(3));
    assert_eq!(a, b);
    assert_eq!(a.unwrap().len(), 5);
}

#[test]
fn octree_ignores_the_kmeans_settings() {
    let pixels: Vec<[u8; 3]> = (0..90u8).map(|i| [i.wrapping_mul(11), i, 255 - i]).collect();
    let a = extract(&pixels, Algorithm::Octree, &cfg(4));
    let b = extract(&pixels, Algorithm::Octree, &cfg(4).kmeans_seed(7).kmeans_max_iterations(2));
    assert_eq!(a, b);
}

#[test]
fn extract_all_matches_separate_calls_for_deterministic_algorithms() {
    let pixels: Vec<[u8; 3]> = (0..60u8).map(|i| [i * 4, 100, 255 - i * 2]).collect();
    let all = extract_all(&pixels, &cfg(3)).unwrap();
    assert_eq!(all[1].1, extract(&pixels, Algorithm::MedianCut, &cfg(3)).unwrap());
    assert_eq!(all[2].1, extract(&pixels, Algorithm::Octree, &cfg(3)).unwrap());
}
