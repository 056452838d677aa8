use nthw::extractor::ExtractedWebsite;
use nthw::processor::{
    process_fetched_page, process_loaded_page, thumbnail_text, JPEG_THUMBNAIL_PREFIX,
};

fn screenshot() -> Vec<u8> {
    let img = image::RgbImage::from_fn(100, 54, |x, y| image::Rgb([(x * 2) as u8, (y * 4) as u8, 128]));
    let mut png: Vec<u8> = Vec::new();
    image::DynamicImage::ImageRgb8(img)
        .write_to(&mut std::io::Cursor::new(&mut png), image::ImageFormat::Png)
        .unwrap();
    png
}

fn jpeg_of(png: &[u8], quality: u8) -> Vec<u8> {
    let small = image::load_from_memory(png)
        .unwrap()
        .resize(50, 27, image::imageops::FilterType::Gaussian);
    let mut jpeg: Vec<u8> = Vec::new();
    image::codecs::jpeg::JpegEncoder::new_with_quality(&mut jpeg, quality)
        .encode_image(&small)
        .unwrap();
    jpeg
}

fn site() -> ExtractedWebsite {
    ExtractedWebsite { id: 9, title: String::new(), url: "https://p.example".to_string(), tags: vec![] }
}

const PAGE: &str = "<html><head><title content=\"Page\">x</title><meta name=\"description\" content=\"About.\"></head><body><p>Rust, rust and C++.</p></body></html>";

#[test]
fn thumbnail_text_matches_base64_crate() {
    let jpeg = jpeg_of(&screenshot(), 80);
    let encoded = base64::Engine::encode(&base64::engine::general_purpose::STANDARD, &jpeg);
    assert_eq!(thumbnail_text(&jpeg), encoded.replace(JPEG_THUMBNAIL_PREFIX, ""));
}

#[test]
fn fetched_page_yields_every_part() {
    let png = screenshot();
    let page = process_fetched_page(PAGE, &site(), &png).unwrap();
    assert_eq!(page.title, "Page");
    assert_eq!(page.description, "About.");
    assert_eq!(page.content, "Rust, rust and C++");
    assert_eq!(page.unique_content, "rust, rust and c\\+\\+");
    assert_eq!(page.thumbnail, thumbnail_text(&jpeg_of(&png, 80)));
    assert!(!page.thumbnail.is_empty());
}

#[test]
fn loaded_page_escapes_words_by_default() {
    let png = screenshot();
    let page = process_loaded_page("<p>Zürich zürich</p>", &site(), &png).unwrap();
    assert_eq!(page.content, "Zürich zürich");
    assert_eq!(page.unique_content, "z\\u{fc}rich");
    assert_eq!(page.thumbnail, thumbnail_text(&jpeg_of(&png, 40)));
}

#[test]
fn broken_screenshot_gives_no_page() {
    assert!(process_fetched_page(PAGE, &site(), b"not an image").is_none());
    assert!(process_loaded_page(PAGE, &site(), &[]).is_none());
}

#[test]
fn resized_screenshot_is_a_smaller_png() {
    let png = screenshot();
    let expected = {
        let scaled = image::load_from_memory(&png)
            .unwrap()
            .resize(455, 250, image::imageops::FilterType::Gaussian);
        let mut out: Vec<u8> = Vec::new();
        scaled.write_to(&mut std::io::Cursor::new(&mut out), image::ImageFormat::Png).unwrap();
        out
    };
    let resized = nthw::processor::resized_screenshot(&png).unwrap();
    assert_eq!(resized, expected);
    let decoded = image::load_from_memory(&resized).unwrap();
    assert!(decoded.width() <= 455 && decoded.height() <= 250);
    assert!(decoded.width() > 100);
    assert!(nthw::processor::resized_screenshot(b"nope").is_none());
}
