use nthw::fuzzy_data::{website_data_string, WebsiteData};
use nthw::fuzzy_search::{
    carries_all_tags, combined_score, init, rank_results, search, shown_tags, substring_search,
    SearchIndex, WebsiteEntry, LIMIT,
};
use nthw::ranking::top_k;

fn entry(id: u64, title: &str, content: &str, tags: Vec<i32>) -> WebsiteEntry {
    WebsiteEntry {
        id,
        title: title.to_string(),
        description: format!("about {id}"),
        content: content.to_string(),
        thumbnail: String::new(),
        url: format!("https://{id}.example"),
        tags,
    }
}

fn full_index(websites: Vec<WebsiteEntry>) -> SearchIndex {
    let mut index = SearchIndex::new(websites);
    init(&mut index, 1, 0);
    index
}

#[test]
fn init_takes_the_worker_share() {
    let ws = (0..4).map(|i| entry(i, "t", "c", vec![-1])).collect();
    let mut index = SearchIndex::new(ws);
    init(&mut index, 2, 1);
    assert_eq!(index.chunk, vec![2, 3]);
    init(&mut index, 2, 0);
    assert_eq!(index.chunk, vec![2, 3, 0, 1]);
}

#[test]
fn init_leaves_out_the_remainder() {
    let ws = (0..5).map(|i| entry(i, "t", "c", vec![-1])).collect();
    let mut index = SearchIndex::new(ws);
    init(&mut index, 2, 1);
    assert_eq!(index.chunk, vec![2, 3]);
}

#[test]
fn substring_search_counts_words_in_title_and_content() {
    let index = full_index(vec![
        entry(10, "rust web", "a web framework in rust", vec![1, -1]),
        entry(11, "cooking", "rust removal", vec![2, -1]),
        entry(12, "nothing", "here", vec![-1, -1]),
    ]);
    let results = substring_search(&index, "rust web", &vec![]);
    assert_eq!(results.len(), 3);
    assert_eq!(results[0].id, 10);
    assert_eq!(results[0].score, 4);
    assert_eq!(results[0].tags, vec![1]);
    assert_eq!(results[0].title, "rust web");
    assert_eq!(results[0].url, "https://10.example");
    assert_eq!(results[1].id, 11);
    assert_eq!(results[1].score, 1);
    assert_eq!(results[2].id, 12);
    assert_eq!(results[2].score, 0);
}

#[test]
fn substring_search_filters_by_every_tag() {
    let index = full_index(vec![
        entry(1, "rust", "x", vec![1, 2, -1]),
        entry(2, "rust", "x", vec![1, -1, -1]),
        entry(3, "rust", "x", vec![2, 1, -1]),
    ]);
    let results = substring_search(&index, "rust", &vec![1, 2]);
    let ids: Vec<u64> = results.iter().map(|r| r.id).collect();
    assert_eq!(ids, vec![1, 3]);
    assert!(results.iter().all(|r| r.score == 1));
}

#[test]
fn empty_query_with_tags_lists_first_websites() {
    let ws: Vec<WebsiteEntry> = (0..20).map(|i| entry(i, "t", "c", vec![7, -1])).collect();
    let index = full_index(ws);
    let results = substring_search(&index, "", &vec![7]);
    assert_eq!(results.len(), LIMIT);
    for (k, r) in results.iter().enumerate() {
        assert_eq!(r.id, k as u64);
        assert_eq!(r.score, 1);
        assert_eq!(r.tags, vec![7]);
    }
    let fuzzy = search(&index, "", &vec![7]);
    assert_eq!(fuzzy.len(), LIMIT);
    assert_eq!(fuzzy[11].id, 11);
    assert_eq!(fuzzy[11].score, 1);
}

#[test]
fn results_are_capped_and_best_first() {
    let ws: Vec<WebsiteEntry> = (0..30)
        .map(|i| entry(i, if i % 3 == 0 { "match match" } else { "other" }, "none", vec![-1]))
        .collect();
    let index = full_index(ws);
    let results = substring_search(&index, "match", &vec![]);
    assert_eq!(results.len(), LIMIT);
    let ids: Vec<u64> = results.iter().map(|r| r.id).collect();
    assert_eq!(ids, vec![0, 3, 6, 9, 12, 15, 18, 21, 24, 27, 1, 2]);
    assert!(results.windows(2).all(|w| w[0].score >= w[1].score));
}

#[test]
fn fuzzy_search_ranks_matching_title_first() {
    let index = full_index(vec![
        entry(1, "cooking", "bake", vec![-1]),
        entry(2, "rust programming", "systems", vec![-1]),
    ]);
    let results = search(&index, "rust", &vec![]);
    assert_eq!(results.len(), 2);
    assert_eq!(results[0].id, 2);
    assert!(results[0].score > 0);
    assert_eq!(results[1].id, 1);
    assert_eq!(results[1].score, 0);
}

#[test]
fn scores_add_and_wrap() {
    assert_eq!(combined_score(Some(3), None), 3);
    assert_eq!(combined_score(None, None), 0);
    assert_eq!(combined_score(Some(40), Some(2)), 42);
    assert_eq!(combined_score(Some(65535), Some(2)), 1);
}

#[test]
fn ranking_is_stable_and_descending() {
    let ws = vec![entry(7, "a", "a", vec![-1]), entry(8, "b", "b", vec![-1]), entry(9, "c", "c", vec![-1])];
    let results = rank_results(&ws, &vec![0, 1, 2], &vec![5, 9, 5]);
    let got: Vec<(u64, u16)> = results.iter().map(|r| (r.id, r.score)).collect();
    assert_eq!(got, vec![(8, 9), (7, 5), (9, 5)]);
    assert_eq!(top_k(&vec![3, 7, 7, 1], 2), vec![1, 2]);
    assert_eq!(top_k(&vec![3, 7], 5), vec![1, 0]);
    assert!(top_k(&vec![], 3).is_empty());
}

#[test]
fn shown_tags_skip_unused_slots() {
    assert_eq!(shown_tags(&vec![2, -1, 5, -1, -1]), vec![2, 5]);
    assert!(carries_all_tags(&vec![1, 2, -1], &vec![2, 1]));
    assert!(!carries_all_tags(&vec![1, -1], &vec![1, 3]));
    assert!(carries_all_tags(&vec![-1], &vec![]));
}

#[test]
fn data_set_text_joins_contents() {
    let data = vec![
        WebsiteData { id: 1, title: "a".to_string(), content: "first".to_string(), url: String::new(), tags: vec![0] },
        WebsiteData { id: 2, title: "b".to_string(), content: "second".to_string(), url: String::new(), tags: vec![] },
    ];
    assert_eq!(website_data_string(&data), "first, second");
    assert_eq!(website_data_string(&Vec::new()), "");
}

#[test]
fn substring_scores_add_over_words() {
    let index = full_index(vec![entry(1, "rust web", "web rust go", vec![-1])]);
    let s1 = substring_search(&index, "rust", &vec![])[0].score;
    let s2 = substring_search(&index, "go web", &vec![])[0].score;
    let s = substring_search(&index, "rust go web", &vec![])[0].score;
    assert_eq!((s1, s2, s), (2, 3, 5));
}

#[test]
fn worker_shares_cover_a_prefix_in_order() {
    let mut all: Vec<usize> = Vec::new();
    for k in 0..3 {
        let ws = (0..10).map(|i| entry(i, "t", "c", vec![-1])).collect();
        let mut index = SearchIndex::new(ws);
        init(&mut index, 3, k);
        all.extend(index.chunk);
    }
    assert_eq!(all, (0..9).collect::<Vec<usize>>());
}
