use raytracer::canvas::{canvas, Canvas, PngError};

/// An RGB color with floating-point channels, as the ray tracer uses.
#[derive(Debug, Clone, Copy, PartialEq, Default)]
struct Color {
    r: f64,
    g: f64,
    b: f64,
}

fn color(r: impl Into<f64>, g: impl Into<f64>, b: impl Into<f64>) -> Color {
    Color { r: r.into(), g: g.into(), b: b.into() }
}

fn channel(c: f64) -> u8 {
    (c.max(0.0).min(1.0) * 255.0).round() as u8
}

fn to_u8(c: Color) -> (u8, u8, u8) {
    (channel(c.r), channel(c.g), channel(c.b))
}

fn ppm_of(c: &Canvas<Color>) -> String {
    let mut buf = vec![];
    c.write_ppm(&mut buf, to_u8);
    String::from_utf8(buf).unwrap()
}

/// Creating a canvas
#[test]
fn test_canvas() {
    let c: Canvas<Color> = canvas(10, 20);
    assert_eq!(c.width(), 10);
    assert_eq!(c.height(), 20);
    assert!(c.flat().iter().all(|&pixel| pixel == color(0, 0, 0)));
}

/// Writing pixels to a canvas
#[test]
fn set_pixel() {
    let mut c: Canvas<Color> = canvas(10, 20);
    let red = color(1, 0, 0);
    c.set_pixel(2, 3, red);
    assert_eq!(c.get_pixel(2, 3), red);
}

/// Constructing the PPM header
#[test]
fn ppm_header() {
    let c: Canvas<Color> = canvas(5, 3);
    let ppm = ppm_of(&c);
    assert_eq!(
        ppm.lines().take(3).collect::<Vec<_>>().join("\n"),
        "\
P3
5 3
255"
    );
}

/// Constructing the PPM pixel data
#[test]
fn ppm_data() {
    let mut c: Canvas<Color> = canvas(5, 3);
    c.set_pixel(0, 0, color(1.5, 0, 0));
    c.set_pixel(2, 1, color(0, 0.5, 0));
    c.set_pixel(4, 2, color(-0.5, 0, 1));
    let ppm = ppm_of(&c);
    assert_eq!(
        ppm.lines().skip(3).take(3).collect::<Vec<_>>().join("\n"),
        "\
255 0 0 0 0 0 0 0 0 0 0 0 0 0 0
0 0 0 0 0 0 0 128 0 0 0 0 0 0 0
0 0 0 0 0 0 0 0 0 0 0 0 0 0 255"
    );
}

/// Splitting long lines in PPM files
#[test]
fn ppm_linesplit() {
    let mut c: Canvas<Color> = canvas(10, 2);
    c.clear(color(1, 0.8, 0.6));
    let ppm = ppm_of(&c);
    assert_eq!(
        ppm.lines().skip(3).take(4).collect::<Vec<_>>().join("\n"),
        "\
255 204 153 255 204 153 255 204 153 255 204 153 255 204 153 255 204
153 255 204 153 255 204 153 255 204 153 255 204 153
255 204 153 255 204 153 255 204 153 255 204 153 255 204 153 255 204
153 255 204 153 255 204 153 255 204 153 255 204 153"
    );
}

/// PPM files end with a newline character
#[test]
fn ppm_end_newline() {
    let c: Canvas<Color> = canvas(5, 3);
    let mut buf = vec![];
    c.write_ppm(&mut buf, to_u8);
    assert_eq!(buf.last(), Some(&b'\n'))
}

#[test]
fn new_canvas_is_default() {
    let c: Canvas<u32> = Canvas::new(3, 2);
    assert_eq!(c.flat(), vec![0u32; 6]);
}

#[test]
fn clear_sets_every_pixel() {
    let mut c: Canvas<u32> = canvas(4, 3);
    c.set_pixel(1, 1, 9);
    c.clear(7);
    assert_eq!(c.width(), 4);
    assert_eq!(c.height(), 3);
    assert_eq!(c.flat(), vec![7u32; 12]);
}

#[test]
fn set_pixel_leaves_others() {
    let mut c: Canvas<u32> = canvas(3, 2);
    c.set_pixel(2, 0, 5);
    c.set_pixel(0, 1, 6);
    assert_eq!(c.flat(), vec![0, 0, 5, 6, 0, 0]);
    assert_eq!(c.get_pixel(2, 0), 5);
    assert_eq!(c.get_pixel(0, 1), 6);
    assert_eq!(c.get_pixel(1, 1), 0);
}

#[test]
fn rows_split_the_pixels() {
    let mut c: Canvas<u32> = canvas(3, 2);
    c.set_pixel(0, 0, 1);
    c.set_pixel(2, 1, 2);
    assert_eq!(c.rows(), vec![vec![1, 0, 0], vec![0, 0, 2]]);
}

#[test]
fn ppm_without_rows_is_the_header() {
    let c: Canvas<Color> = canvas(4, 0);
    assert_eq!(ppm_of(&c), "P3\n4 0\n255\n");
}

#[test]
fn ppm_every_line_within_seventy() {
    let mut c: Canvas<Color> = canvas(40, 3);
    c.clear(color(1, 0.8, 0.6));
    c.set_pixel(7, 1, color(0, 0, 0));
    let ppm = ppm_of(&c);
    assert!(ppm.lines().all(|l| l.len() <= 70));
    assert!(ppm.ends_with('\n'));
    let joined: String = ppm.chars().map(|ch| if ch == '\n' { ' ' } else { ch }).collect();
    let numbers: Vec<&str> = joined.split(' ').filter(|s| !s.is_empty()).collect();
    assert_eq!(numbers.len(), 4 + 40 * 3 * 3);
}

#[test]
fn ppm_of_wide_header() {
    let c: Canvas<Color> = canvas(1, 1);
    assert_eq!(ppm_of(&c), "P3\n1 1\n255\n0 0 0\n");
}

#[test]
fn png_signature_and_errors() {
    let mut c: Canvas<Color> = canvas(2, 2);
    c.set_pixel(1, 1, color(1, 1, 1));
    let mut buf = vec![];
    assert_eq!(c.write_png(&mut buf, to_u8), Ok(()));
    assert_eq!(&buf[..8], &[137, 80, 78, 71, 13, 10, 26, 10]);
    assert_eq!(&buf[12..16], b"IHDR");
    assert_eq!(&buf[16..24], &[0, 0, 0, 2, 0, 0, 0, 2]);

    let empty: Canvas<Color> = canvas(0, 3);
    let mut buf = vec![1u8];
    assert_eq!(empty.write_png(&mut buf, to_u8), Err(PngError::ZeroWidth));
    assert_eq!(buf, vec![1u8]);

    let flat: Canvas<Color> = canvas(3, 0);
    assert_eq!(flat.write_png(&mut buf, to_u8), Err(PngError::ZeroHeight));
    assert_eq!(buf, vec![1u8]);
}

#[test]
fn add_to_pixel_adds_there_only() {
    let mut c: Canvas<Color> = canvas(3, 2);
    c.add_to_pixel(1, 1, color(0.25, 0.5, 1), |a: Color, b: Color| color(a.r + b.r, a.g + b.g, a.b + b.b));
    c.add_to_pixel(1, 1, color(0.25, 0, 0), |a: Color, b: Color| color(a.r + b.r, a.g + b.g, a.b + b.b));
    assert_eq!(c.get_pixel(1, 1), color(0.5, 0.5, 1));
    assert_eq!(c.get_pixel(0, 1), color(0, 0, 0));
}

#[test]
fn average_brightness_is_the_mean() {
    let mut c: Canvas<u32> = canvas(2, 2);
    c.set_pixel(0, 0, 4);
    c.set_pixel(1, 1, 8);
    assert_eq!(c.average_brightness(0, |a: u32, b: u32| a + b, |s: u32, n: u32| s / n), 3);
    let folded = c.average_brightness(1, |a: u32, b: u32| a * 10 + b, |s: u32, _n: u32| s);
    assert_eq!(folded, 14008);
}
