use dominant_colors::{mean_color, Color};

#[test]
fn test_to_hex() {
    let c = Color::new(0xFF, 0xAB, 0x00, 1);
    assert_eq!(c.to_hex(), 0xFF_AB_00);
}

#[test]
fn test_sq_distance() {
    // (3,4,0) to the origin: 9 + 16 = 25
    let a = [0u8, 0, 0];
    let b = [3u8, 4u8, 0];
    assert_eq!(Color::sq_distance_rgb(&a, &b), 25);
}

#[test]
fn test_mean_color_empty() {
    assert!(mean_color(&[]).is_none());
}

#[test]
fn test_mean_color_single() {
    let c = mean_color(&[[10, 20, 30]]).unwrap();
    assert_eq!((c.r, c.g, c.b), (10, 20, 30));
}

#[test]
fn test_mean_color_average() {
    let pixels = vec![[0u8, 0, 0], [100, 100, 100]];
    let c = mean_color(&pixels).unwrap();
    assert_eq!((c.r, c.g, c.b), (50, 50, 50));
}

#[test]
fn mean_color_rounds_halves_up() {
    // (0 + 1) / 2 = 0.5 rounds to 1; (0 + 0 + 1) / 3 rounds to 0
    let c = mean_color(&[[0, 0, 0], [1, 1, 1]]).unwrap();
    assert_eq!((c.r, c.g, c.b, c.pixel_count), (1, 1, 1, 2));
    let c = mean_color(&[[0, 0, 0], [0, 0, 0], [1, 2, 255]]).unwrap();
    assert_eq!((c.r, c.g, c.b, c.pixel_count), (0, 1, 85, 3));
}

#[test]
fn sq_distance_extremes() {
    assert_eq!(Color::sq_distance_rgb(&[0, 0, 0], &[255, 255, 255]), 195075);
    assert_eq!(Color::sq_distance_rgb(&[7, 8, 9], &[7, 8, 9]), 0);
}

#[test]
fn to_hex_packs_channels() {
    assert_eq!(Color::new(0x12, 0x34, 0x56, 9).to_hex(), 0x123456);
    assert_eq!(Color::new(0, 0, 0, 0).to_hex(), 0);
}
