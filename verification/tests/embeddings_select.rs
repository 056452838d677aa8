use nthw::embeddings_search::{get_word_chunks, select_websites, WebsiteSummary};

fn summary(id: u64, tags: Vec<i32>, embedding_count: usize) -> WebsiteSummary {
    WebsiteSummary { id, tags, embedding_count }
}

#[test]
fn words_are_grouped_in_chunks() {
    let chunks = get_word_chunks("a b  c\nd e", 2);
    assert_eq!(chunks, vec![vec!["a", "b"], vec!["c", "d"], vec!["e"]]);
    assert!(get_word_chunks("   ", 3).is_empty());
    assert_eq!(get_word_chunks("one two", 100), vec![vec!["one", "two"]]);
}

#[test]
fn selection_without_filter_takes_every_website_once() {
    let ws = vec![summary(1, vec![-1], 2), summary(2, vec![3], 0), summary(1, vec![4], 1), summary(5, vec![], 1)];
    assert_eq!(select_websites(&ws, &vec![]), vec![0, 3]);
}

#[test]
fn selection_with_filter_needs_one_tag() {
    let ws = vec![summary(1, vec![1, 2], 1), summary(2, vec![3], 1), summary(3, vec![2], 1)];
    assert_eq!(select_websites(&ws, &vec![2, 9]), vec![0, 2]);
    assert!(select_websites(&ws, &vec![9]).is_empty());
}
