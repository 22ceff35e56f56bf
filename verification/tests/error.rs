use dominant_colors::DominantColorError;

#[test]
fn test_display_empty_image() {
    let e = DominantColorError::EmptyImage;
    assert!(e.to_string().contains("空"));
}

#[test]
fn test_display_too_few_colors() {
    let e = DominantColorError::TooFewColors { requested: 10, available: 3 };
    let s = e.to_string();
    assert!(s.contains("10") && s.contains("3"));
}

#[test]
fn test_display_internal_error() {
    let e = DominantColorError::internal("发生了意料之外的错误");
    assert!(e.to_string().contains("发生了意料之外的错误"));
}

#[test]
fn test_equality() {
    assert_eq!(DominantColorError::EmptyImage, DominantColorError::EmptyImage);
    assert_ne!(
        DominantColorError::EmptyImage,
        DominantColorError::TooFewColors { requested: 1, available: 0 }
    );
}

#[test]
fn error_messages_are_exact() {
    assert_eq!(DominantColorError::EmptyImage.to_string(), "图片为空，没有可处理的像素");
    assert_eq!(
        DominantColorError::TooFewColors { requested: 120, available: 7 }.to_string(),
        "请求 120 种颜色，但图片中只有 7 种唯一颜色"
    );
    assert_eq!(DominantColorError::internal("x").to_string(), "算法内部错误：x");
}
