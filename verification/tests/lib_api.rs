use dominant_colors::{Algorithm, Color, Config, DominantColorError, DominantColors, PixelImage};

/// An image one pixel high, as wide as the list of pixels.
fn make_image(pixels: &[[u8; 3]]) -> PixelImage {
    PixelImage::new(pixels.len() as u32, 1, pixels.to_vec()).unwrap()
}

fn share(c: &Color, total: usize) -> f32 {
    c.pixel_count as f32 / total as f32
}

const ALL: [Algorithm; 3] = [Algorithm::KMeans, Algorithm::MedianCut, Algorithm::Octree];

#[test]
fn test_empty_image_error() {
    for alg in ALL {
        let img = PixelImage::new(0, 0, Vec::new()).unwrap();
        let result = DominantColors::new(img).config(Config::default().sample_size(None)).extract(alg);
        assert!(matches!(result, Err(DominantColorError::EmptyImage)), "{alg:?} 应返回 EmptyImage");
    }
}

#[test]
fn test_single_color_image() {
    let pixels = vec![[255u8, 0, 0]; 100];
    for alg in ALL {
        let palette = DominantColors::new(make_image(&pixels))
            .config(Config::default().max_colors(3).sample_size(None))
            .extract(alg)
            .expect("纯色图片应成功");
        assert!(!palette.is_empty(), "{alg:?} 调色板不应为空");
        assert!(palette.iter().map(|c| share(c, 100)).sum::<f32>() > 0.99, "{alg:?} 占比之和应约等于 1.0");
    }
}

#[test]
fn test_two_color_image_separation() {
    let mut pixels = vec![[255u8, 0, 0]; 50];
    pixels.extend(vec![[0u8, 0, 255]; 50]);
    for alg in ALL {
        let palette = DominantColors::new(make_image(&pixels))
            .config(Config::default().max_colors(2).sample_size(None))
            .extract(alg)
            .expect("双色图片应成功");
        assert_eq!(palette.len(), 2, "{alg:?} 应识别出 2 种颜色");
        for color in &palette {
            assert!(
                (share(color, 100) - 0.5).abs() < 0.1,
                "{alg:?}: 期望约 50%，实际 {:.1}%",
                share(color, 100) * 100.0
            );
        }
    }
}

#[test]
fn test_palette_sorted_descending() {
    let mut pixels = vec![[255u8, 0, 0]; 60];
    pixels.extend(vec![[0u8, 255, 0]; 30]);
    pixels.extend(vec![[0u8, 0, 255]; 10]);
    for alg in ALL {
        let palette = DominantColors::new(make_image(&pixels))
            .config(Config::default().max_colors(3).sample_size(None))
            .extract(alg)
            .expect("三色图片应成功");
        let percentages: Vec<f32> = palette.iter().map(|c| share(c, 100)).collect();
        let mut sorted = percentages.clone();
        sorted.sort_by(|a, b| b.partial_cmp(a).unwrap());
        assert_eq!(percentages, sorted, "{alg:?} 调色板应按占比降序排列");
    }
}

#[test]
fn test_config_builder() {
    let cfg = Config::default().max_colors(10).sample_size(Some(128)).kmeans_seed(99).kmeans_max_iterations(50);
    assert_eq!(cfg.max_colors, 10);
    assert_eq!(cfg.sample_size, Some(128));
    assert_eq!(cfg.kmeans_seed, 99);
    assert_eq!(cfg.kmeans_max_iterations, 50);
}

#[test]
fn default_config_values() {
    let cfg = Config::default();
    assert_eq!(cfg.max_colors, 8);
    assert_eq!(cfg.sample_size, Some(256));
    assert_eq!(cfg.kmeans_seed, 42);
    assert_eq!(cfg.kmeans_max_iterations, 100);
    assert_eq!(cfg.kmeans_convergence_sq_threshold, 1);
    assert_eq!(Algorithm::default(), Algorithm::KMeans);
}

#[test]
fn pixel_image_checks_its_size() {
    assert!(PixelImage::new(2, 2, vec![[0u8, 0, 0]; 3]).is_none());
    let img = PixelImage::new(3, 2, vec![[1u8, 2, 3]; 6]).unwrap();
    assert_eq!((img.width(), img.height(), img.pixels().len()), (3, 2, 6));
}

#[test]
fn large_images_are_scaled_down() {
    // 40 × 40 pixels of one colour, sampled to fit in 8 × 8.
    let img = PixelImage::new(40, 40, vec![[9u8, 99, 199]; 1600]).unwrap();
    let palette = DominantColors::new(img)
        .config(Config::default().max_colors(2).sample_size(Some(8)))
        .extract(Algorithm::MedianCut)
        .unwrap();
    let total: usize = palette.iter().map(|c| c.pixel_count).sum();
    assert_eq!(total, 64);
    assert!(palette.iter().all(|c| (c.r, c.g, c.b) == (9, 99, 199)));
}

#[test]
fn small_images_are_not_scaled() {
    let img = PixelImage::new(4, 2, vec![[1u8, 1, 1]; 8]).unwrap();
    let palette = DominantColors::new(img)
        .config(Config::default().max_colors(1).sample_size(Some(8)))
        .extract(Algorithm::Octree)
        .unwrap();
    assert_eq!(palette, vec![Color::new(1, 1, 1, 8)]);
}
