use nthw::extractor::ExtractedWebsite;
use nthw::processor::{ProcessedPage, ScrapeState};

fn site(id: u64, url: &str) -> ExtractedWebsite {
    ExtractedWebsite { id, title: format!("site {id}"), url: url.to_string(), tags: vec![1, 2] }
}

fn page(text: &str) -> ProcessedPage {
    ProcessedPage {
        title: "T".to_string(),
        description: "D".to_string(),
        content: text.to_string(),
        unique_content: "unique".to_string(),
        thumbnail: "thumb".to_string(),
    }
}

#[test]
fn fetched_website_gets_both_records() {
    let mut state = ScrapeState::new();
    state.record_fetched(&site(3, "https://q.example/\"a\""), &page("full text"));
    assert_eq!(state.downloaded.len(), 1);
    assert_eq!(state.downloaded[0].id, 3);
    assert_eq!(state.downloaded[0].url, "https://q.example/a");
    assert_eq!(state.websites_full_data.len(), 1);
    assert_eq!(state.websites_full_data[0].content, "full text");
    assert_eq!(state.websites_full_data[0].url, "https://q.example/a");
    assert_eq!(state.websites_full_data[0].tags, vec![1, 2]);
    assert_eq!(state.websites_data.len(), 1);
    assert_eq!(state.websites_data[0].content, "unique");
    assert_eq!(state.websites_data[0].thumbnail, "thumb");
    assert!(state.failed.is_empty());
}

#[test]
fn website_is_recorded_once() {
    let mut state = ScrapeState::new();
    state.record_fetched(&site(3, "https://a.example"), &page("one"));
    state.record_fetched(&site(3, "https://a.example"), &page("two"));
    assert_eq!(state.downloaded.len(), 2);
    assert_eq!(state.websites_full_data.len(), 1);
    assert_eq!(state.websites_full_data[0].content, "one");
    assert_eq!(state.websites_data.len(), 1);
}

#[test]
fn loaded_website_is_listed_once() {
    let mut state = ScrapeState::new();
    state.record_loaded(&site(4, "https://b.example"), &page("x"));
    state.record_loaded(&site(4, "https://b.example"), &page("y"));
    state.record_loaded(&site(5, "https://c.example"), &page("z"));
    assert_eq!(state.downloaded.len(), 2);
    assert_eq!(state.websites_full_data.len(), 2);
    let ids: Vec<u64> = state.websites_data.iter().map(|d| d.id).collect();
    assert_eq!(ids, vec![4, 5]);
    let full_ids: Vec<u64> = state.websites_full_data.iter().map(|d| d.id).collect();
    assert_eq!(full_ids, ids);
}
