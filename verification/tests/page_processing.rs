use nthw::extractor::ExtractedWebsite;
use nthw::processor::{
    attribute_or_empty, clean_url, escape_default, escaped_content, filter_and_format_elements, regex_content,
    format_selected_texts, get_description, get_title, pick_description, thumbnail_text,
    unique_content_escaped, unique_content_for_regex, unique_words,
};

fn website(title: &str) -> ExtractedWebsite {
    ExtractedWebsite { id: 1, title: title.to_string(), url: "https://x.example".to_string(), tags: vec![] }
}

#[test]
fn wiki_title_wins() {
    let html = "<html><head><title content=\"Meta\">Doc</title></head></html>";
    assert_eq!(get_title(html, &website("From wiki")), "From wiki");
}

#[test]
fn title_falls_back_to_content_attribute() {
    let html = "<html><head><title content=\"Meta\">Doc</title></head></html>";
    assert_eq!(get_title(html, &website("")), "Meta");
    let bare = "<html><head><title>Doc</title></head></html>";
    assert_eq!(get_title(bare, &website("")), "");
}

#[test]
fn description_prefers_the_last_selector_found() {
    let both = "<html><head><meta property=\"og:description\" content=\"og\"><meta name=\"description\" content=\"plain\"></head></html>";
    assert_eq!(get_description(both), "plain");
    let og = "<html><head><meta property=\"og:description\" content=\"og\"></head></html>";
    assert_eq!(get_description(og), "og");
    let all = "<html><head><meta name=\"twitter:description\" content=\"tw\"><meta property=\"og:description\" content=\"og\"></head></html>";
    assert_eq!(get_description(all), "tw");
    assert_eq!(get_description("<html></html>"), "");
}

#[test]
fn description_choice_from_lookups() {
    let d = pick_description(Some(Some("og".to_string())), Some(None), None);
    assert_eq!(d, "og");
    let d = pick_description(Some(Some("og".to_string())), Some(Some("n".to_string())), Some(None));
    assert_eq!(d, "n");
    let d = pick_description(None, None, None);
    assert_eq!(d, "");
    assert_eq!(attribute_or_empty(Some(Some("v".to_string()))), "v");
    assert_eq!(attribute_or_empty(Some(None)), "");
}

#[test]
fn page_text_is_cleaned_and_ordered_by_selector() {
    let html = "<html><body><p>Hello (world).</p><span> a\nb </span><h1>Title</h1></body></html>";
    assert_eq!(filter_and_format_elements(html), "ab Hello world Title");
}

#[test]
fn code_is_left_out_of_page_text() {
    let html = "<html><body><p>run <code>ls -la</code> now</p></body></html>";
    assert_eq!(filter_and_format_elements(html), "run now");
}

#[test]
fn empty_page_gives_empty_text() {
    assert_eq!(filter_and_format_elements(""), "");
}

#[test]
fn selected_texts_are_formatted() {
    let groups = vec![
        vec!["  one\\ntwo ".to_string(), "{x}".to_string()],
        vec![],
        vec!["say \\\"hi\\\"".to_string(), "a\u{b7}b".to_string()],
    ];
    assert_eq!(format_selected_texts(&groups), "onetwo x say hi ab");
}

#[test]
fn unique_words_are_lowercase_and_distinct() {
    assert_eq!(unique_words("Hello World hello WORLD again"), vec!["hello", "world", "again"]);
    assert!(unique_words("   ").is_empty());
}

#[test]
fn unique_content_is_regex_escaped() {
    assert_eq!(unique_content_for_regex("a.b A.B c+"), "a\\.b c\\+");
}

#[test]
fn unique_content_is_default_escaped() {
    assert_eq!(unique_content_escaped("Żółw \"x\""), "\\u{17c}\\u{f3}\\u{142}w \\\"x\\\"");
}

#[test]
fn escape_default_matches_std() {
    let s = "tab\there\r\n'q' é\u{1F600}\\";
    let cs: Vec<char> = s.chars().collect();
    let expected: String = s.escape_default().to_string();
    let got: String = escape_default(&cs).into_iter().collect();
    assert_eq!(got, expected);
}

#[test]
fn thumbnail_is_base64_without_jpeg_prefix() {
    assert_eq!(thumbnail_text(b"Man"), "TWFu");
    assert_eq!(thumbnail_text(b"Ma"), "TWE=");
    assert_eq!(thumbnail_text(&[0xff, 0xd8, 0xff]), "/9j/");
    assert_eq!(thumbnail_text(&[]), "");
}

#[test]
fn urls_lose_quotes() {
    assert_eq!(clean_url("https://a.example/\\\"x\"y"), "https://a.example/xy");
    assert_eq!(clean_url("https://plain.example"), "https://plain.example");
}

fn chars(words: &[&str]) -> Vec<Vec<char>> {
    words.iter().map(|w| w.chars().collect()).collect()
}

#[test]
fn lowered_words_are_kept_once_and_escaped() {
    let lowered = chars(&["a.b", "c", "a.b", "d$"]);
    assert_eq!(regex_content(&lowered), "a\\.b c d\\$");
    assert_eq!(escaped_content(&chars(&["é", "x", "é"])), "\\u{e9} x");
    assert_eq!(regex_content(&Vec::new()), "");
}
