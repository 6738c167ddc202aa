use command_palette::screenshot::{bgra_to_rgba, encode_png, ScreenRect, ScreenshotError};
use command_palette::window;

#[test]
fn test_screen_rect_creation() {
    let rect = ScreenRect::new(100, 200, 300, 400);
    assert_eq!(rect.x, 100);
    assert_eq!(rect.y, 200);
    assert_eq!(rect.width, 300);
    assert_eq!(rect.height, 400);
}

#[test]
fn test_encode_png() {
    // A small blank test image.
    let result = encode_png(10, 10, vec![0u8; 400]);
    assert!(result.is_ok());

    let png_bytes = result.unwrap();
    assert!(!png_bytes.is_empty());
    // PNG files start with the magic bytes: 137 80 78 71
    assert_eq!(&png_bytes[0..4], &[137, 80, 78, 71]);
}

#[test]
fn encode_png_is_deterministic() {
    let mut pixels = vec![0u8; 4 * 4 * 4];
    for (i, p) in pixels.iter_mut().enumerate() {
        *p = (i * 7 % 256) as u8;
    }
    let a = encode_png(4, 4, pixels.clone()).unwrap();
    let b = encode_png(4, 4, pixels).unwrap();
    assert_eq!(a, b);
    // A different image encodes differently.
    let c = encode_png(4, 4, vec![255u8; 64]).unwrap();
    assert_ne!(a, c);
}

#[test]
fn bgra_swizzles_to_rgba() {
    // One row of two BGRA pixels, no padding.
    let data = vec![1u8, 2, 3, 4, 5, 6, 7, 8];
    let out = bgra_to_rgba(&data, 2, 1, 8);
    assert_eq!(out, vec![3u8, 2, 1, 4, 7, 6, 5, 8]);
    // Padded rows: 12 bytes per row, 2 pixels wide.
    let padded = vec![
        1u8, 2, 3, 4, 5, 6, 7, 8, 0, 0, 0, 0, 9, 10, 11, 12, 13, 14, 15, 16, 0, 0, 0, 0,
    ];
    let out2 = bgra_to_rgba(&padded, 2, 2, 12);
    assert_eq!(out2, vec![3u8, 2, 1, 4, 7, 6, 5, 8, 11, 10, 9, 12, 15, 14, 13, 16]);
    // Pixels that run past the data are skipped.
    let short = vec![1u8, 2, 3, 4, 5, 6];
    let out3 = bgra_to_rgba(&short, 2, 1, 8);
    assert_eq!(out3, vec![3u8, 2, 1, 4]);
}

#[test]
fn screenshot_errors_describe_themselves() {
    let e = ScreenshotError::CaptureFailed("no display".to_string());
    assert_eq!(e.message(), "Screen capture failed: no display");
    let e = ScreenshotError::ProcessingFailed("bad pixels".to_string());
    assert_eq!(e.message(), "Image processing failed: bad pixels");
    let e = ScreenshotError::ClipboardFailed("denied".to_string());
    assert_eq!(e.message(), "Clipboard operation failed: denied");
}

#[test]
fn windows_cascade_from_the_origin() {
    assert_eq!(window::get_position_for_regular_window(0), (100, 100));
    assert_eq!(window::get_position_for_regular_window(2), (180, 180));
    assert_eq!(window::get_position_for_popup(1), (800, 100));
    assert_eq!(window::get_position_for_popup(3), (800, 180));
    window::init();
}
