use nthw::extractor::{extract_links, extract_tags, extract_titles_and_urls, scan_links, MarkdownFile};
use nthw::processor::UrlIDPair;

fn file(path: &str, content: &str) -> MarkdownFile {
    MarkdownFile { path: path.to_string(), content: content.to_string() }
}

#[test]
fn tags_come_from_directories_once_each() {
    let paths = vec![
        "NTHW\\Security\\notes.md".to_string(),
        "NTHW\\Security\\Web\\xss.md".to_string(),
        "NTHW\\AI\\a.md".to_string(),
    ];
    assert_eq!(extract_tags(&paths), vec!["Security", "Web", "AI"]);
}

#[test]
fn tags_drop_dots_and_slashes() {
    let paths = vec!["./wiki/NTHW\\Dev.Ops\\list.md".to_string()];
    assert_eq!(extract_tags(&paths), vec!["wikiNTHW", "DevOps"]);
}

#[test]
fn no_tags_without_files() {
    let paths: Vec<String> = Vec::new();
    assert!(extract_tags(&paths).is_empty());
}

#[test]
fn links_keep_known_ids_and_number_new_ones() {
    let files = vec![
        file("NTHW\\Security\\list.md", "1. Site A - [link](https://a.example)\n2. Site B - [link](https://b.example)"),
        file("NTHW\\AI\\more.md", "1. Again B - [link](https://b.example)"),
    ];
    let known = vec![UrlIDPair { id: 5, url: "https://a.example".to_string() }];
    let tags = vec!["Security".to_string(), "AI".to_string()];
    let sites = extract_links(&files, known, &tags).unwrap();
    assert_eq!(sites.len(), 3);
    assert_eq!(sites[0].id, 5);
    assert_eq!(sites[0].title, "Site A");
    assert_eq!(sites[0].url, "https://a.example");
    assert_eq!(sites[0].tags, vec![0]);
    assert_eq!(sites[1].id, 6);
    assert_eq!(sites[1].title, "Site B");
    assert_eq!(sites[1].tags, vec![0]);
    assert_eq!(sites[2].id, 6);
    assert_eq!(sites[2].title, "Again B");
    assert_eq!(sites[2].tags, vec![1]);
}

#[test]
fn first_new_link_gets_id_zero() {
    let files = vec![file("NTHW\\x.md", "- [Home](https://home.example)")];
    let sites = extract_links(&files, Vec::new(), &Vec::new()).unwrap();
    assert_eq!(sites.len(), 1);
    assert_eq!(sites[0].id, 0);
    assert_eq!(sites[0].title, "Home");
    assert!(sites[0].tags.is_empty());
}

#[test]
fn titles_lose_trailing_dash() {
    let links = extract_titles_and_urls("1. Some tool -   [link](https://t.example)");
    assert_eq!(links, vec![("Some tool", "https://t.example")]);
    let plain = extract_titles_and_urls("Some tool - [link](https://t.example)");
    assert_eq!(plain, vec![("link", "https://t.example")]);
}

#[test]
fn text_without_links_gives_nothing() {
    assert!(extract_titles_and_urls("no links here\nat all").is_empty());
}

#[test]
fn unscannable_markdown_is_refused() {
    assert!(scan_links("see ](x) and [y](z)").is_none());
    assert_eq!(scan_links("ok [a](b)").unwrap(), vec![("a", "b")]);
    let files = vec![file("NTHW\\x.md", "fine [a](https://a.example)"), file("NTHW\\y.md", "bad ](x) [y")];
    assert!(extract_links(&files, Vec::new(), &Vec::new()).is_none());
}

#[test]
fn ids_past_the_largest_are_refused() {
    let files = vec![file("NTHW\\x.md", "[new](https://new.example)")];
    let known = vec![UrlIDPair { id: u64::MAX, url: "https://old.example".to_string() }];
    assert!(extract_links(&files, known, &Vec::new()).is_none());
    let files = vec![file("NTHW\\x.md", "[old](https://old.example)")];
    let known = vec![UrlIDPair { id: u64::MAX, url: "https://old.example".to_string() }];
    let sites = extract_links(&files, known, &Vec::new()).unwrap();
    assert_eq!(sites[0].id, u64::MAX);
}

#[test]
fn different_urls_get_different_ids() {
    let files = vec![file(
        "NTHW\\x.md",
        "[a](https://x.example) [b](https://z.example)\n[c](https://w.example) [d](https://y.example) [e](https://z.example)",
    )];
    let known = vec![
        UrlIDPair { id: 3, url: "https://x.example".to_string() },
        UrlIDPair { id: 7, url: "https://y.example".to_string() },
    ];
    let sites = extract_links(&files, known, &Vec::new()).unwrap();
    let ids: Vec<u64> = sites.iter().map(|s| s.id).collect();
    assert_eq!(ids, vec![3, 8, 9, 7, 8]);
}

#[test]
fn lines_are_scanned_one_by_one() {
    let a = "1. First - [link](https://a.example) and [b](https://b.example)";
    let b = "[c](https://c.example)\nno link\n2. Last - [x](https://d.example)";
    let joined = format!("{}\n{}", a, b);
    let mut expected = extract_titles_and_urls(a);
    expected.extend(extract_titles_and_urls(b));
    assert_eq!(extract_titles_and_urls(&joined), expected);
    assert_eq!(expected.len(), 4);
}

#[test]
fn dash_only_label_gives_empty_title() {
    assert_eq!(extract_titles_and_urls("1. - [x](u)"), vec![("", "u")]);
    assert_eq!(extract_titles_and_urls("1. [x](u)"), vec![("x", "u")]);
    assert_eq!(extract_titles_and_urls("1. Name -[x](u)"), vec![("Name", "u")]);
}
