use braille_art::braille::{braille, Dithering, Fetched, Request, DEFAULT_WIDTH, MAX_CHARS};
use braille_art::commons::braille_img::BrailleImg;
use braille_art::commons::dithering::Ditherer;
use braille_art::commons::gray_img::GrayImg;

fn request() -> Request {
    Request {
        img_url: "http://localhost/cat.png".to_owned(),
        line_break: None,
        width: None,
        height: None,
        limit: None,
        allow_empty: None,
        dithering: Dithering::default(),
    }
}

fn gradient() -> GrayImg {
    let mut pixels = Vec::new();
    for y in 0..5u32 {
        for x in 0..6u32 {
            pixels.push(((x * 37 + y * 59) % 256) as u8);
        }
    }
    GrayImg::from_raw(6, 5, pixels).unwrap()
}

#[test]
fn a_request_gets_sierra_unless_it_says_otherwise() {
    assert_eq!(Dithering::default(), Dithering::Sierra2);
    assert_eq!(Dithering::Sierra2.to_ditherer(), Ditherer::Sierra2Row);
    assert_eq!(Dithering::Bayer.to_ditherer(), Ditherer::Bayer4x4);
    assert_eq!(Dithering::Threshold.to_ditherer(), Ditherer::Threshold);
}

#[test]
fn the_width_defaults_to_58_dots() {
    assert_eq!(DEFAULT_WIDTH, 58);
    assert_eq!(request().target_width(), 58);
    let mut req = request();
    req.width = Some(20);
    assert_eq!(req.target_width(), 20);
}

#[test]
fn a_failed_fetch_is_reported() {
    assert_eq!(braille(&request(), Fetched::RequestFailed), "failed to request image.");
    assert_eq!(braille(&request(), Fetched::NotAnImage), "link is not an image.");
    assert_eq!(braille(&request(), Fetched::Unreadable), "failed to read image.");
}

#[test]
fn an_image_is_rendered_with_line_breaks_and_without_empty_glyphs() {
    assert_eq!(
        braille(&request(), Fetched::Image(gradient())),
        "\u{28E4}\u{2876}\u{281B}\n\u{2801}\u{2801}\u{2808}"
    );
}

#[test]
fn a_request_chooses_separator_empty_glyphs_and_dithering() {
    let mut req = request();
    req.line_break = Some(false);
    req.allow_empty = Some(true);
    assert_eq!(
        braille(&req, Fetched::Image(gradient())),
        "\u{28E4}\u{2876}\u{281B} \u{2801}\u{2800}\u{2808}"
    );
    req.dithering = Dithering::Bayer;
    assert_eq!(
        braille(&req, Fetched::Image(gradient())),
        "\u{2894}\u{2875}\u{281B} \u{2801}\u{2801}\u{2809}"
    );
    req.dithering = Dithering::Threshold;
    req.line_break = Some(true);
    assert_eq!(
        braille(&req, Fetched::Image(gradient())),
        "\u{28E0}\u{2876}\u{281B}\n\u{2801}\u{2800}\u{2809}"
    );
    req.allow_empty = Some(false);
    assert_eq!(
        braille(&req, Fetched::Image(gradient())),
        "\u{28E0}\u{2876}\u{281B}\n\u{2801}\u{2801}\u{2809}"
    );
}

#[test]
fn a_limited_request_gets_at_most_500_characters() {
    assert_eq!(MAX_CHARS, 500);
    let mut req = request();
    req.limit = Some(true);
    // 32 glyphs in each of 16 rows and 15 line breaks: 527 characters.
    assert_eq!(braille(&req, Fetched::Image(GrayImg::new(64, 64))), "image too tall");
    // 501 glyphs in one row.
    assert_eq!(braille(&req, Fetched::Image(GrayImg::new(1002, 4))), "image too tall");
    // 500 glyphs in one row are not too many.
    let fits = braille(&req, Fetched::Image(GrayImg::new(1000, 4)));
    assert_eq!(fits.chars().count(), 500);
    assert_eq!(fits, BrailleImg::new(1000, 4).to_str(true, true));
}

#[test]
fn an_unlimited_request_gets_the_whole_rendering() {
    let mut req = request();
    let whole = braille(&req, Fetched::Image(GrayImg::new(64, 64)));
    assert_eq!(whole.chars().count(), 527);
    assert_eq!(whole, BrailleImg::new(64, 64).to_str(true, true));
    req.limit = Some(false);
    assert_eq!(braille(&req, Fetched::Image(GrayImg::new(64, 64))).chars().count(), 527);
}
