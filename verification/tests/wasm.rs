use dominant_colors::wasm::{
    algorithm_info_json, extract_colors_from_image_data_palette, extract_colors_palette, hex_code, opaque_pixels,
    palette_json, parse_algorithm, rgb_pixels, validate_max_colors,
};
use dominant_colors::{Algorithm, Color};

fn flatten_rgb(pixels: &[[u8; 3]]) -> Vec<u8> {
    pixels.iter().flat_map(|p| p.iter().copied()).collect()
}

fn flatten_rgba(pixels: &[[u8; 3]]) -> Vec<u8> {
    pixels.iter().flat_map(|p| [p[0], p[1], p[2], 255u8]).collect()
}

/// The palette as the binding writes it, shares to four decimals.
fn to_json(palette: &[Color]) -> String {
    let total: usize = palette.iter().map(|c| c.pixel_count).sum();
    let shares: Vec<String> =
        palette.iter().map(|c| format!("{:.4}", c.pixel_count as f32 / total as f32)).collect();
    palette_json(palette, &shares)
}

fn extract_colors(rgb_data: &[u8], max_colors: usize, algorithm: &str) -> Result<String, String> {
    extract_colors_palette(rgb_data, max_colors, algorithm).map(|p| to_json(&p))
}

fn extract_colors_from_image_data(rgba_data: &[u8], max_colors: usize, algorithm: &str) -> Result<String, String> {
    extract_colors_from_image_data_palette(rgba_data, max_colors, algorithm).map(|p| to_json(&p))
}

#[test]
fn test_extract_colors_rgb_valid() {
    let mut pixels = vec![[255u8, 0, 0]; 50];
    pixels.extend(vec![[0u8, 0, 255]; 50]);
    let json = extract_colors(&flatten_rgb(&pixels), 2, "mediancut").unwrap();
    assert!(json.starts_with('[') && json.ends_with(']'));
    assert!(json.contains("\"hex\""));
}

#[test]
fn test_extract_colors_bad_length() {
    let result = extract_colors(&[255u8, 0], 2, "mediancut");
    assert!(result.is_err());
    assert!(result.unwrap_err().contains("3 的倍数"));
}

#[test]
fn test_extract_colors_bad_algorithm() {
    let data = flatten_rgb(&[[100u8, 100, 100]; 10]);
    let result = extract_colors(&data, 3, "unknown");
    assert!(result.is_err());
    assert!(result.unwrap_err().contains("未知算法"));
}

#[test]
fn test_extract_colors_max_colors_zero() {
    let data = flatten_rgb(&[[100u8, 100, 100]; 10]);
    assert!(extract_colors(&data, 0, "octree").is_err());
}

#[test]
fn test_extract_colors_max_colors_too_large() {
    let data = flatten_rgb(&[[100u8, 100, 100]; 10]);
    assert!(extract_colors(&data, 100, "octree").is_err());
}

#[test]
fn test_extract_from_image_data_rgba() {
    let mut pixels = vec![[255u8, 0, 0]; 50];
    pixels.extend(vec![[0u8, 0, 255]; 50]);
    let json = extract_colors_from_image_data(&flatten_rgba(&pixels), 2, "mediancut").unwrap();
    assert!(json.contains("\"hex\""));
}

#[test]
fn test_extract_from_image_data_skips_transparent() {
    let mut data = vec![255u8, 0, 0, 255];
    data.extend([0u8, 0, 255, 0]);
    let json = extract_colors_from_image_data(&data, 4, "octree").unwrap();
    assert!(!json.contains("\"r\":0,\"g\":0,\"b\":255"));
}

#[test]
fn test_extract_from_image_data_all_transparent() {
    let data = vec![0u8, 0, 0, 0, 0, 0, 0, 0];
    assert!(extract_colors_from_image_data(&data, 2, "octree").is_err());
}

#[test]
fn test_extract_from_image_data_bad_length() {
    assert!(extract_colors_from_image_data(&[255u8, 0, 0], 2, "kmeans").is_err());
}

#[test]
fn test_get_algorithm_info_valid_json() {
    let json = algorithm_info_json();
    assert!(json.contains("\"id\":\"kmeans\""));
    assert!(json.contains("\"id\":\"mediancut\""));
    assert!(json.contains("\"id\":\"octree\""));
    assert!(json.contains("\"is_deterministic\""));
}

#[test]
fn test_algorithm_name_aliases() {
    let data = flatten_rgb(&[[128u8, 128, 128]; 20]);
    for alias in ["kmeans", "k-means", "k_means"] {
        assert!(extract_colors(&data, 2, alias).is_ok(), "别名 '{alias}' 应被识别");
    }
    for alias in ["mediancut", "median_cut", "median-cut"] {
        assert!(extract_colors(&data, 2, alias).is_ok(), "别名 '{alias}' 应被识别");
    }
}

#[test]
fn test_json_has_all_fields() {
    let data = flatten_rgb(&[[200u8, 100, 50]; 30]);
    let json = extract_colors(&data, 2, "octree").unwrap();
    for field in ["\"r\"", "\"g\"", "\"b\"", "\"hex\"", "\"percentage\""] {
        assert!(json.contains(field), "JSON 应包含字段 {field}");
    }
}

#[test]
fn test_hex_format_uppercase() {
    let data = flatten_rgb(&[[171u8, 205, 239]; 10]);
    let json = extract_colors(&data, 1, "octree").unwrap();
    assert!(json.contains("#ABCDEF"), "hex 应为大写，实际：{json}");
}

#[test]
fn validate_max_colors_bounds_and_message() {
    assert!(validate_max_colors(1).is_ok());
    assert!(validate_max_colors(64).is_ok());
    assert_eq!(validate_max_colors(0), Err("max_colors 必须在 1–64 之间，实际收到 0".to_string()));
    assert_eq!(validate_max_colors(65), Err("max_colors 必须在 1–64 之间，实际收到 65".to_string()));
}

#[test]
fn parse_algorithm_ignores_case() {
    assert_eq!(parse_algorithm("K-Means"), Ok(Algorithm::KMeans));
    assert_eq!(parse_algorithm("MEDIAN_CUT"), Ok(Algorithm::MedianCut));
    assert_eq!(parse_algorithm("OcTree"), Ok(Algorithm::Octree));
    assert_eq!(
        parse_algorithm("Foo"),
        Err("未知算法 \"foo\"，可选值：\"kmeans\" / \"mediancut\" / \"octree\"".to_string())
    );
}

#[test]
fn rgb_and_rgba_decoding() {
    assert_eq!(rgb_pixels(&[1, 2, 3, 4, 5, 6]), Ok(vec![[1u8, 2, 3], [4, 5, 6]]));
    assert_eq!(rgb_pixels(&[1, 2, 3, 4]), Err("rgb_data 的长度 (4) 不是 3 的倍数".to_string()));
    assert_eq!(opaque_pixels(&[1, 2, 3, 0, 4, 5, 6, 9]), Ok(vec![[4u8, 5, 6]]));
    assert_eq!(opaque_pixels(&[1, 2, 3, 0]), Err("图片中没有不透明像素".to_string()));
    assert_eq!(opaque_pixels(&[1, 2, 3]), Err("rgba_data 的长度 (3) 不是 4 的倍数".to_string()));
}

#[test]
fn json_text_is_exact() {
    let c = Color::new(171, 205, 9, 3);
    assert_eq!(hex_code(&c), "#ABCD09");
    let json = palette_json(&[c, Color::new(0, 0, 0, 1)], &["0.7500".to_string(), "0.2500".to_string()]);
    assert_eq!(
        json,
        "[{\"r\":171,\"g\":205,\"b\":9,\"hex\":\"#ABCD09\",\"percentage\":0.7500},{\"r\":0,\"g\":0,\"b\":0,\"hex\":\"#000000\",\"percentage\":0.2500}]"
    );
    assert_eq!(palette_json(&[], &[]), "[]");
}

#[test]
fn algorithm_info_json_is_exact() {
    let json = algorithm_info_json();
    assert!(json.starts_with("[{\"id\":\"kmeans\",\"name\":\"K-Means 聚类\",\"description\":\""));
    assert!(json.contains("\"is_deterministic\":false,\"speed_rank\":3}"));
    assert!(json.contains("{\"id\":\"mediancut\",\"name\":\"中位切分\""));
    assert!(json.ends_with("\"is_deterministic\":true,\"speed_rank\":2}]"));
}

#[test]
fn binding_reports_empty_image_message() {
    // No bytes at all: the algorithm gets no pixels and reports an empty image.
    assert_eq!(
        extract_colors_palette(&[], 3, "octree"),
        Err("图片为空，没有可处理的像素".to_string())
    );
}

#[test]
fn opaque_rgba_gives_the_rgb_palette() {
    let pixels: Vec<[u8; 3]> = (0..40u8).map(|i| [i * 6, 255 - i * 3, i]).collect();
    let rgb = flatten_rgb(&pixels);
    let rgba: Vec<u8> = pixels.iter().flat_map(|p| [p[0], p[1], p[2], 7u8]).collect();
    assert_eq!(opaque_pixels(&rgba), rgb_pixels(&rgb));
    for name in ["mediancut", "octree"] {
        assert_eq!(
            extract_colors_from_image_data_palette(&rgba, 5, name),
            extract_colors_palette(&rgb, 5, name)
        );
    }
}
