use pathtrace::decimal::parse_decimal;
use pathtrace::decimal::push_decimal;
use pathtrace::Image;
use pathtrace::Rgb;

fn text(s: &str) -> Vec<u8> {
    s.as_bytes().to_vec()
}

fn sample_image() -> Image {
    Image {
        width: 2,
        height: 2,
        pixels: vec![
            Rgb { r: 255, g: 0, b: 7 },
            Rgb { r: 10, g: 128, b: 99 },
            Rgb { r: 0, g: 0, b: 0 },
            Rgb { r: 1, g: 200, b: 255 },
        ],
    }
}

#[test]
fn encodes_header_and_rows() {
    let img = sample_image();
    let out = img.to_ppm();
    assert_eq!(
        String::from_utf8(out).unwrap(),
        "P3\n2 2\n255\n255 0 7\n10 128 99\n0 0 0\n1 200 255\n"
    );
}

#[test]
fn round_trip_keeps_pixels_and_size() {
    let img = sample_image();
    let back = Image::from_ppm(&img.to_ppm()).unwrap();
    assert_eq!(back.width, 2);
    assert_eq!(back.height, 2);
    assert_eq!(back.pixels, img.pixels);
}

#[test]
fn round_trip_empty_image() {
    let img = Image { width: 0, height: 5, pixels: vec![] };
    let out = img.to_ppm();
    assert_eq!(String::from_utf8(out.clone()).unwrap(), "P3\n0 5\n255\n");
    let back = Image::from_ppm(&out).unwrap();
    assert_eq!(back.width, 0);
    assert_eq!(back.height, 5);
    assert!(back.pixels.is_empty());
}

#[test]
fn decodes_written_text() {
    let img = Image::from_ppm(&text("P3\n1 2\n255\n3 4 5\n255 255 255\n")).unwrap();
    assert_eq!(img.width, 1);
    assert_eq!(img.height, 2);
    assert_eq!(img.pixels, vec![Rgb { r: 3, g: 4, b: 5 }, Rgb { r: 255, g: 255, b: 255 }]);
}

#[test]
fn rejects_bad_marker() {
    assert!(Image::from_ppm(&text("P6\n1 1\n255\n0 0 0\n")).is_none());
}

#[test]
fn rejects_wrong_max_value() {
    assert!(Image::from_ppm(&text("P3\n1 1\n100\n0 0 0\n")).is_none());
}

#[test]
fn rejects_channel_above_255() {
    assert!(Image::from_ppm(&text("P3\n1 1\n255\n256 0 0\n")).is_none());
}

#[test]
fn rejects_missing_pixel() {
    assert!(Image::from_ppm(&text("P3\n2 1\n255\n0 0 0\n")).is_none());
}

#[test]
fn rejects_trailing_bytes() {
    assert!(Image::from_ppm(&text("P3\n1 1\n255\n0 0 0\n\n")).is_none());
}

#[test]
fn rejects_leading_zero() {
    assert!(Image::from_ppm(&text("P3\n1 1\n255\n07 0 0\n")).is_none());
}

#[test]
fn rejects_size_product_overflow() {
    let huge = format!("P3\n{} {}\n255\n", usize::MAX, 2);
    assert!(Image::from_ppm(&text(&huge)).is_none());
}

#[test]
fn decimal_writes_shortest_form() {
    let mut out = vec![b'x'];
    push_decimal(&mut out, 0);
    push_decimal(&mut out, 1904);
    assert_eq!(out, text("x01904"));
}

#[test]
fn decimal_reads_run_and_stops() {
    assert_eq!(parse_decimal(&text("ab123 4"), 2), Some((123, 5)));
    assert_eq!(parse_decimal(&text("0"), 0), Some((0, 1)));
    assert_eq!(parse_decimal(&text("x"), 0), None);
    assert_eq!(parse_decimal(&text("00"), 0), None);
    assert_eq!(parse_decimal(&text("99999999999999999999999"), 0), None);
}
