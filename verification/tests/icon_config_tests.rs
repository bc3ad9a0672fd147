use dracoshell::config::{ColorsConfig, WindowConfig};
use dracoshell::icon::decode_icon;

fn png_bytes(w: u32, h: u32) -> (Vec<u8>, Vec<u8>) {
    let mut img = image::RgbaImage::new(w, h);
    for (x, y, p) in img.enumerate_pixels_mut() {
        *p = image::Rgba([x as u8 * 10, y as u8 * 20, 200, 255 - x as u8]);
    }
    let raw = img.as_raw().clone();
    let mut out = std::io::Cursor::new(Vec::new());
    image::DynamicImage::ImageRgba8(img).write_to(&mut out, image::ImageFormat::Png).unwrap();
    (out.into_inner(), raw)
}

#[test]
fn decodes_png_to_rgba() {
    let (png, raw) = png_bytes(3, 2);
    let icon = decode_icon(&png).unwrap();
    assert_eq!((icon.width, icon.height), (3, 2));
    assert_eq!(icon.rgba, raw);
    assert_eq!(icon.rgba.len(), 3 * 2 * 4);
}

#[test]
fn garbage_is_not_an_icon() {
    assert!(decode_icon(b"not an image at all").is_none());
    assert!(decode_icon(&[]).is_none());
}

#[test]
fn window_defaults() {
    let w = WindowConfig::default();
    assert_eq!((w.width, w.height), (1200, 750));
}

#[test]
fn color_defaults() {
    let c = ColorsConfig::default();
    assert_eq!(c.background, "#000000");
    assert_eq!(c.foreground, "#E6E6E6");
    assert_eq!(c.unfocused, "#8C8C8C");
    assert_eq!(c.accent, "#FF2A2A");
    assert_eq!(c.theme.as_deref(), Some("one-dark"));
}
