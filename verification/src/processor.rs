//! Turning a downloaded page into the records the search front end reads:
//! title, description, readable text, distinct words, thumbnail, and the
//! bookkeeping of which websites were already handled.
use vstd::prelude::*;
use crate::extractor::{string_views, ExtractedWebsite};
use crate::text::{
    char_vec_views, chars_of, collapse_whitespace, dedup, dedup_chars, join_chars, join_words,
    is_collapsed, is_ws, lemma_collapse_whitespace, lemma_dedup, lemma_filter_subset, lemma_remove_pattern,
    remove_pattern, remove_pattern_chars, split_words, string_from_chars, trim, trim_range, words,
};

verus! {

/// A website id and the url it was found under.
pub struct UrlIDPair {
    pub id: u64,
    pub url: String,
}

/// Everything the front end shows of one website.
pub struct WebsiteData {
    pub id: u64,
    pub title: String,
    pub content: String,
    pub url: String,
    pub description: String,
    pub thumbnail: String,
    pub tags: Vec<usize>,
}

impl View for UrlIDPair {
    type V = (u64, Seq<char>);

    open spec fn view(&self) -> (u64, Seq<char>) {
        (self.id, self.url@)
    }
}

/// The fields of a `WebsiteData`: id, title, content, url, description,
/// thumbnail, tags.
pub struct WebsiteView {
    pub id: u64,
    pub title: Seq<char>,
    pub content: Seq<char>,
    pub url: Seq<char>,
    pub description: Seq<char>,
    pub thumbnail: Seq<char>,
    pub tags: Seq<usize>,
}

impl View for WebsiteData {
    type V = WebsiteView;

    open spec fn view(&self) -> WebsiteView {
        WebsiteView {
            id: self.id,
            title: self.title@,
            content: self.content@,
            url: self.url@,
            description: self.description@,
            thumbnail: self.thumbnail@,
            tags: self.tags@,
        }
    }
}

pub open spec fn pair_seq_view(v: Seq<UrlIDPair>) -> Seq<(u64, Seq<char>)> {
    v.map_values(|p: UrlIDPair| p@)
}

pub open spec fn data_seq_view(v: Seq<WebsiteData>) -> Seq<WebsiteView> {
    v.map_values(|d: WebsiteData| d@)
}

// ---------------------------------------------------------------------------
// HTML, through the `scraper` crate
/// What `scraper` finds for `selector` in the document `html`: `None` when the
/// selector does not parse, otherwise the value of attribute `attr` of the
/// first matching element (`None` when there is no such element or it has no
/// such attribute).
pub uninterp spec fn html_first_attribute(html: Seq<char>, selector: Seq<char>, attr: Seq<char>) -> Option<
    Option<Seq<char>>,
>;

/// Parses `html` with `scraper::Html::parse_document`, `selector` with
/// `scraper::Selector::parse`, and reads attribute `attr` of the first match
/// (`ElementRef::attr`). The claim is that the result depends on the three
/// strings alone; nothing is claimed of how HTML is parsed.
#[verifier::external_body]
fn first_attribute(html: &str, selector: &str, attr: &str) -> (r: Option<Option<String>>)
    ensures
        match html_first_attribute(html@, selector@, attr@) {
            None => r is None,
            Some(None) => r == Some(None::<String>),
            Some(Some(v)) => r matches Some(Some(s)) && s@ == v,
        },
{
    let selector = match scraper::Selector::parse(selector) {
        Ok(s) => s,
        Err(_) => return None,
    };
    let document = scraper::Html::parse_document(html);
    match document.select(&selector).next() {
        Some(element) => match element.attr(attr) {
            Some(value) => Some(Some(value.to_string())),
            None => Some(None),
        },
        None => Some(None),
    }
}

/// What `scraper` gives for `selector` in the document `html` once every
/// element matching `removed` has been detached from the tree: `None` when a
/// selector does not parse, otherwise the text of each matching element (its
/// descendant text nodes, concatenated), in document order.
pub uninterp spec fn html_texts(html: Seq<char>, selector: Seq<char>, removed: Seq<char>) -> Option<
    Seq<Seq<char>>,
>;

/// Parses `html` with `scraper::Html::parse_document`, detaches every node
/// that `removed` selects (`ego_tree::NodeMut::detach`), then collects
/// `ElementRef::text` of every element that `selector` selects. The claim is
/// that the result depends on the three strings alone.
#[verifier::external_body]
fn texts_without(html: &str, selector: &str, removed: &str) -> (r: Option<Vec<String>>)
    ensures
        match html_texts(html@, selector@, removed@) {
            None => r is None,
            Some(ts) => r matches Some(v) && v@.len() == ts.len() && forall|i: int|
                0 <= i < ts.len() ==> #[trigger] v@[i]@ == ts[i],
        },
{
    let (selector, removed) = match (
        scraper::Selector::parse(selector),
        scraper::Selector::parse(removed),
    ) {
        (Ok(s), Ok(r)) => (s, r),
        _ => return None,
    };
    let mut document = scraper::Html::parse_document(html);
    let ids: Vec<_> = document.select(&removed).map(|element| element.id()).collect();
    for id in ids {
        if let Some(mut node) = document.tree.get_mut(id) {
            node.detach();
        }
    }
    Some(document.select(&selector).map(|element| element.text().collect::<String>()).collect())
}

/// The attribute value, where the selector parsed and the attribute exists.
pub open spec fn found_value(r: Option<Option<Seq<char>>>) -> Option<Seq<char>> {
    match r {
        Some(Some(v)) => Some(v),
        _ => None,
    }
}

/// What the attribute lookup handed back, as plain values.
pub open spec fn attribute_view(r: Option<Option<String>>) -> Option<Option<Seq<char>>> {
    match r {
        Some(Some(s)) => Some(Some(s@)),
        Some(None) => Some(None),
        None => None,
    }
}

/// The attribute value where there is one, otherwise empty.
pub open spec fn value_or_empty(r: Option<Option<Seq<char>>>) -> Seq<char> {
    match found_value(r) {
        Some(v) => v,
        None => seq![],
    }
}

/// The value of a looked-up attribute, or the empty text.
pub fn attribute_or_empty(found: Option<Option<String>>) -> (v: String)
    ensures
        v@ == value_or_empty(attribute_view(found)),
{
    match found {
        Some(Some(v)) => v,
        _ => String::new(),
    }
}

/// The title of a page: the title found in the wiki when it has one,
/// otherwise the `content` attribute of the page's first `<title>` element,
/// otherwise empty.
pub open spec fn page_title(html: Seq<char>, wiki_title: Seq<char>) -> Seq<char> {
    if wiki_title.len() > 0 {
        wiki_title
    } else {
        value_or_empty(html_first_attribute(html, "title"@, "content"@))
    }
}

pub fn get_title(content: &str, extracted_website: &ExtractedWebsite) -> (title: String)
    ensures
        title@ == page_title(content@, extracted_website.title@),
{
    if !extracted_website.title.as_str().is_empty() {
        return extracted_website.title.clone();
    }
    attribute_or_empty(first_attribute(content, "title", "content"))
}

/// The description chosen from the three lookups: the last of them that
/// found a value, otherwise empty.
pub open spec fn description_choice(
    og: Option<Option<Seq<char>>>,
    name: Option<Option<Seq<char>>>,
    twitter: Option<Option<Seq<char>>>,
) -> Seq<char> {
    match found_value(twitter) {
        Some(v) => v,
        None => match found_value(name) {
            Some(v) => v,
            None => value_or_empty(og),
        },
    }
}

/// The description of a page: the `content` attribute of the first match of
/// the last of `meta[property="og:description"]`, `meta[name="description"]`,
/// `meta[name="twitter:description"]` whose first match has one; otherwise
/// empty.
pub open spec fn page_description(html: Seq<char>) -> Seq<char> {
    description_choice(
        html_first_attribute(html, "meta[property=\"og:description\"]"@, "content"@),
        html_first_attribute(html, "meta[name=\"description\"]"@, "content"@),
        html_first_attribute(html, "meta[name=\"twitter:description\"]"@, "content"@),
    )
}

/// The description from the lookups of the three description selectors.
pub fn pick_description(
    og: Option<Option<String>>,
    name: Option<Option<String>>,
    twitter: Option<Option<String>>,
) -> (description: String)
    ensures
        description@ == description_choice(
            attribute_view(og),
            attribute_view(name),
            attribute_view(twitter),
        ),
{
    let mut description = String::new();
    if let Some(Some(v)) = og {
        description = v;
    }
    if let Some(Some(v)) = name {
        description = v;
    }
    if let Some(Some(v)) = twitter {
        description = v;
    }
    description
}

pub fn get_description(content: &str) -> (description: String)
    ensures
        description@ == page_description(content@),
{
    let og = first_attribute(content, "meta[property=\"og:description\"]", "content");
    let name = first_attribute(content, "meta[name=\"description\"]", "content");
    let twitter = first_attribute(content, "meta[name=\"twitter:description\"]", "content");
    pick_description(og, name, twitter)
}

// ---------------------------------------------------------------------------
// Readable text of a page
/// The texts `selector` selects once `<code>` elements are gone (none where
/// the selector does not parse).
pub open spec fn selected_texts(html: Seq<char>, selector: Seq<char>) -> Seq<Seq<char>> {
    match html_texts(html, selector, "code"@) {
        Some(ts) => ts,
        None => seq![],
    }
}

/// Each text trimmed and followed by one space.
pub open spec fn spaced_texts(ts: Seq<Seq<char>>) -> Seq<char>
    decreases ts.len(),
{
    if ts.len() == 0 {
        seq![]
    } else {
        spaced_texts(ts.drop_last()) + trim(ts.last()) + seq![' ']
    }
}

/// The text of the page's `span`, `p` and `h1` to `h6` elements, in that
/// order of selectors, each trimmed and followed by one space.
pub open spec fn page_text(html: Seq<char>) -> Seq<char> {
    spaced_texts(selected_texts(html, "span"@)) + spaced_texts(selected_texts(html, "p"@))
        + spaced_texts(selected_texts(html, "h1"@)) + spaced_texts(selected_texts(html, "h2"@))
        + spaced_texts(selected_texts(html, "h3"@)) + spaced_texts(selected_texts(html, "h4"@))
        + spaced_texts(selected_texts(html, "h5"@)) + spaced_texts(selected_texts(html, "h6"@))
}

/// Characters that are dropped from page text.
pub open spec fn is_markup_char(c: char) -> bool {
    c == '{' || c == '}' || c == '<' || c == '(' || c == ')' || c == '.' || c == '\\' || c == '"'
        || c == '|' || c == '[' || c == ']' || c == '\'' || c == '\u{b7}'
}

/// Page text cleaned for search: newlines removed, then `\n` escapes, then
/// markup characters, then `\"` escapes, and finally runs of whitespace
/// collapsed to single spaces.
pub open spec fn clean_text(raw: Seq<char>) -> Seq<char> {
    let a = raw.filter(|c: char| c != '\n');
    let b = remove_pattern(a, seq!['\\', 'n']);
    let c = b.filter(|c: char| !is_markup_char(c));
    let d = remove_pattern(c, seq!['\\', '"']);
    collapse_whitespace(d)
}

/// The texts of a page, one group per selector, as one text: each text
/// trimmed and followed by a space, group after group.
pub open spec fn grouped_text(groups: Seq<Seq<Seq<char>>>) -> Seq<char>
    decreases groups.len(),
{
    if groups.len() == 0 {
        seq![]
    } else {
        grouped_text(groups.drop_last()) + spaced_texts(groups.last())
    }
}

pub open spec fn group_views(groups: Seq<Vec<String>>) -> Seq<Seq<Seq<char>>> {
    groups.map_values(|g: Vec<String>| string_views(g@))
}

proof fn lemma_grouped_push(groups: Seq<Seq<Seq<char>>>, g: Seq<Seq<char>>)
    ensures
        grouped_text(groups.push(g)) == grouped_text(groups) + spaced_texts(g),
{
    assert(groups.push(g).drop_last() =~= groups);
}

/// Adds the texts that `selector` selects in `html` as one more group.
fn push_group(groups: &mut Vec<Vec<String>>, html: &str, selector: &str)
    ensures
        group_views(final(groups)@) == group_views(old(groups)@).push(
            selected_texts(html@, selector@),
        ),
{
    let ghost before = group_views(groups@);
    let texts = match texts_without(html, selector, "code") {
        Some(v) => v,
        None => Vec::new(),
    };
    assert(string_views(texts@) =~= selected_texts(html@, selector@));
    groups.push(texts);
    assert(group_views(groups@) =~= before.push(selected_texts(html@, selector@)));
}

fn append_spaced(texts: &Vec<String>, out: &mut Vec<char>)
    ensures
        final(out)@ == old(out)@ + spaced_texts(string_views(texts@)),
{
    let ghost start = out@;
    let ghost ts = string_views(texts@);
    let mut i: usize = 0;
    while i < texts.len()
        invariant
            i <= texts.len(),
            ts == string_views(texts@),
            out@ == start + spaced_texts(ts.take(i as int)),
        decreases texts.len() - i,
    {
        let cs = chars_of(texts[i].as_str());
        let (lo, hi) = trim_range(&cs, 0, cs.len());
        assert(cs@.subrange(0, cs.len() as int) =~= cs@);
        let ghost base = out@;
        let mut k = lo;
        while k < hi
            invariant
                lo <= k <= hi <= cs.len(),
                out@ == base + cs@.subrange(lo as int, k as int),
            decreases hi - k,
        {
            out.push(cs[k]);
            k += 1;
            assert(out@ =~= base + cs@.subrange(lo as int, k as int));
        }
        out.push(' ');
        proof {
            let t = ts.take(i + 1);
            assert(t.drop_last() =~= ts.take(i as int));
            assert(t.last() == ts[i as int]);
            assert(out@ =~= start + spaced_texts(t));
        }
        i += 1;
    }
    assert(ts.take(texts.len() as int) =~= ts);
}

fn drop_newlines(s: &Vec<char>) -> (r: Vec<char>)
    ensures
        r@ == s@.filter(|c: char| c != '\n'),
{
    let mut r: Vec<char> = Vec::new();
    let mut i: usize = 0;
    while i < s.len()
        invariant
            i <= s.len(),
            r@ == s@.take(i as int).filter(|c: char| c != '\n'),
        decreases s.len() - i,
    {
        proof {
            reveal_with_fuel(Seq::<_>::filter, 1);
            assert(s@.take(i + 1).drop_last() =~= s@.take(i as int));
        }
        if s[i] != '\n' {
            r.push(s[i]);
        }
        i += 1;
    }
    assert(s@.take(s.len() as int) =~= s@);
    r
}

fn drop_markup(s: &Vec<char>) -> (r: Vec<char>)
    ensures
        r@ == s@.filter(|c: char| !is_markup_char(c)),
{
    let mut r: Vec<char> = Vec::new();
    let mut i: usize = 0;
    while i < s.len()
        invariant
            i <= s.len(),
            r@ == s@.take(i as int).filter(|c: char| !is_markup_char(c)),
        decreases s.len() - i,
    {
        proof {
            reveal_with_fuel(Seq::<_>::filter, 1);
            assert(s@.take(i + 1).drop_last() =~= s@.take(i as int));
        }
        let c = s[i];
        let markup = c == '{' || c == '}' || c == '<' || c == '(' || c == ')' || c == '.' || c
            == '\\' || c == '"' || c == '|' || c == '[' || c == ']' || c == '\'' || c == '\u{b7}';
        if !markup {
            r.push(c);
        }
        i += 1;
    }
    assert(s@.take(s.len() as int) =~= s@);
    r
}

/// Removes every occurrence of the two characters `a` `b`.
fn drop_pair(s: &Vec<char>, a: char, b: char) -> (r: Vec<char>)
    ensures
        r@ == remove_pattern(s@, seq![a, b]),
{
    let mut p: Vec<char> = Vec::new();
    p.push(a);
    p.push(b);
    assert(p@ =~= seq![a, b]);
    remove_pattern_chars(s, &p)
}

/// The searchable text of texts selected from a page, one group per
/// selector: the texts joined as `grouped_text` does, then cleaned.
pub fn format_selected_texts(groups: &Vec<Vec<String>>) -> (formatted: String)
    ensures
        formatted@ == clean_text(grouped_text(group_views(groups@))),
{
    let ghost gv = group_views(groups@);
    let mut raw: Vec<char> = Vec::new();
    let mut g: usize = 0;
    while g < groups.len()
        invariant
            g <= groups.len(),
            gv == group_views(groups@),
            raw@ == grouped_text(gv.take(g as int)),
        decreases groups.len() - g,
    {
        append_spaced(&groups[g], &mut raw);
        proof {
            lemma_grouped_push(gv.take(g as int), gv[g as int]);
            assert(gv.take(g + 1) =~= gv.take(g as int).push(gv[g as int]));
        }
        g += 1;
    }
    assert(gv.take(groups.len() as int) =~= gv);
    let a = drop_newlines(&raw);
    let b = drop_pair(&a, '\\', 'n');
    let c = drop_markup(&b);
    let d = drop_pair(&c, '\\', '"');
    let ws = split_words(&d);
    let joined = join_chars(&ws);
    string_from_chars(&joined)
}

/// The searchable text of a page.
pub fn filter_and_format_elements(content: &str) -> (formatted: String)
    ensures
        formatted@ == clean_text(page_text(content@)),
        formatted@ == clean_text(
            grouped_text(
                seq![
                    selected_texts(content@, "span"@),
                    selected_texts(content@, "p"@),
                    selected_texts(content@, "h1"@),
                    selected_texts(content@, "h2"@),
                    selected_texts(content@, "h3"@),
                    selected_texts(content@, "h4"@),
                    selected_texts(content@, "h5"@),
                    selected_texts(content@, "h6"@),
                ],
            ),
        ),
{
    let mut groups: Vec<Vec<String>> = Vec::new();
    push_group(&mut groups, content, "span");
    push_group(&mut groups, content, "p");
    push_group(&mut groups, content, "h1");
    push_group(&mut groups, content, "h2");
    push_group(&mut groups, content, "h3");
    push_group(&mut groups, content, "h4");
    push_group(&mut groups, content, "h5");
    push_group(&mut groups, content, "h6");
    proof {
        let h = content@;
        let s0 = Seq::<Seq<Seq<char>>>::empty();
        let s1 = s0.push(selected_texts(h, "span"@));
        let s2 = s1.push(selected_texts(h, "p"@));
        let s3 = s2.push(selected_texts(h, "h1"@));
        let s4 = s3.push(selected_texts(h, "h2"@));
        let s5 = s4.push(selected_texts(h, "h3"@));
        let s6 = s5.push(selected_texts(h, "h4"@));
        let s7 = s6.push(selected_texts(h, "h5"@));
        let s8 = s7.push(selected_texts(h, "h6"@));
        assert(group_views(Seq::<Vec<String>>::empty()) =~= s0);
        lemma_grouped_push(s0, selected_texts(h, "span"@));
        lemma_grouped_push(s1, selected_texts(h, "p"@));
        lemma_grouped_push(s2, selected_texts(h, "h1"@));
        lemma_grouped_push(s3, selected_texts(h, "h2"@));
        lemma_grouped_push(s4, selected_texts(h, "h3"@));
        lemma_grouped_push(s5, selected_texts(h, "h4"@));
        lemma_grouped_push(s6, selected_texts(h, "h5"@));
        lemma_grouped_push(s7, selected_texts(h, "h6"@));
        assert(grouped_text(s0) =~= seq![]);
        assert(grouped_text(s1) =~= spaced_texts(selected_texts(h, "span"@)));
        assert(grouped_text(s8) =~= page_text(h));
        assert(s8 =~= seq![
            selected_texts(h, "span"@),
            selected_texts(h, "p"@),
            selected_texts(h, "h1"@),
            selected_texts(h, "h2"@),
            selected_texts(h, "h3"@),
            selected_texts(h, "h4"@),
            selected_texts(h, "h5"@),
            selected_texts(h, "h6"@),
        ]);
    }
    format_selected_texts(&groups)
}

/// Cleaned page text holds no newline and no markup character, and its only
/// whitespace is single spaces between other characters.
pub proof fn lemma_clean_text(raw: Seq<char>)
    ensures
        is_collapsed(clean_text(raw)),
        forall|i: int|
            0 <= i < clean_text(raw).len() ==> !is_markup_char(#[trigger] clean_text(raw)[i])
                && clean_text(raw)[i] != '\n',
{
    let a = raw.filter(|c: char| c != '\n');
    let b = remove_pattern(a, seq!['\\', 'n']);
    let c = b.filter(|c: char| !is_markup_char(c));
    let d = remove_pattern(c, seq!['\\', '"']);
    let no_newline = |c: char| c != '\n';
    let ok = |c: char| !is_markup_char(c) && c != '\n';
    assert forall|i: int| 0 <= i < a.len() implies no_newline(#[trigger] a[i]) by {
        raw.lemma_filter_pred(|c: char| c != '\n', i);
    }
    lemma_remove_pattern(a, seq!['\\', 'n'], no_newline);
    assert forall|i: int| 0 <= i < c.len() implies ok(#[trigger] c[i]) by {
        b.lemma_filter_pred(|c: char| !is_markup_char(c), i);
        assert(c.contains(c[i]));
        lemma_filter_subset(b, |c: char| !is_markup_char(c), c[i]);
        let j = choose|j: int| 0 <= j < b.len() && b[j] == c[i];
        assert(no_newline(b[j]));
    }
    lemma_remove_pattern(c, seq!['\\', '"'], ok);
    assert forall|i: int| 0 <= i < d.len() implies is_ws(#[trigger] d[i]) || ok(d[i]) by {
        assert(ok(d[i]));
    }
    lemma_collapse_whitespace(d, ok);
    assert(clean_text(raw) == collapse_whitespace(d));
}

// ---------------------------------------------------------------------------
// Distinct words
/// What `str::to_lowercase` returns.
pub uninterp spec fn str_lowercase(s: Seq<char>) -> Seq<char>;

/// `str::to_lowercase`; the claim is that the result depends on `s` alone.
#[verifier::external_body]
fn lowercase(s: &str) -> (r: String)
    ensures
        r@ == str_lowercase(s@),
{
    s.to_lowercase()
}

pub open spec fn lowercase_all(ws: Seq<Seq<char>>) -> Seq<Seq<char>> {
    ws.map_values(|w: Seq<char>| str_lowercase(w))
}

/// The distinct lowercased words of a text, in order of first occurrence.
pub open spec fn distinct_words(text: Seq<char>) -> Seq<Seq<char>> {
    dedup(lowercase_all(words(text)))
}

/// The words of a text, each lowercased.
fn lowercase_words(text: &str) -> (r: Vec<Vec<char>>)
    ensures
        char_vec_views(r@) == lowercase_all(words(text@)),
{
    let cs = chars_of(text);
    let ws = split_words(&cs);
    let ghost wv = char_vec_views(ws@);
    let mut lowered: Vec<Vec<char>> = Vec::new();
    let mut i: usize = 0;
    while i < ws.len()
        invariant
            wv == char_vec_views(ws@),
            i <= ws.len(),
            char_vec_views(lowered@) == lowercase_all(wv.take(i as int)),
        decreases ws.len() - i,
    {
        let word = string_from_chars(&ws[i]);
        let low = lowercase(word.as_str());
        let low_chars = chars_of(low.as_str());
        assert(low_chars@ == str_lowercase(wv[i as int]));
        let ghost before = char_vec_views(lowered@);
        lowered.push(low_chars);
        assert(char_vec_views(lowered@) =~= before.push(str_lowercase(wv[i as int])));
        assert(wv.take(i + 1) =~= wv.take(i as int).push(wv[i as int]));
        i += 1;
        assert(char_vec_views(lowered@) =~= lowercase_all(wv.take(i as int)));
    }
    assert(wv.take(ws.len() as int) =~= wv);
    lowered
}

fn distinct_word_chars(text: &str) -> (r: Vec<Vec<char>>)
    ensures
        char_vec_views(r@) == distinct_words(text@),
{
    let lowered = lowercase_words(text);
    dedup_chars(&lowered)
}

/// The distinct lowercased words of a text, in order of first occurrence.
pub fn unique_words(text: &str) -> (r: Vec<String>)
    ensures
        r@.len() == distinct_words(text@).len(),
        forall|i: int| 0 <= i < r.len() ==> #[trigger] r@[i]@ == distinct_words(text@)[i],
{
    let ws = distinct_word_chars(text);
    let mut r: Vec<String> = Vec::new();
    let mut i: usize = 0;
    while i < ws.len()
        invariant
            char_vec_views(ws@) == distinct_words(text@),
            i <= ws.len(),
            r.len() == i,
            forall|q: int| 0 <= q < i ==> #[trigger] r@[q]@ == ws@[q]@,
        decreases ws.len() - i,
    {
        r.push(string_from_chars(&ws[i]));
        i += 1;
    }
    r
}

/// Each distinct word occurs once, and they are exactly the lowercased
/// words of the text.
pub proof fn lemma_distinct_words(text: Seq<char>)
    ensures
        distinct_words(text).no_duplicates(),
        forall|w: Seq<char>|
            #[trigger] distinct_words(text).contains(w) <==> lowercase_all(words(text)).contains(w),
{
    lemma_dedup(lowercase_all(words(text)));
}

/// The characters that `regex::escape` puts a backslash in front of.
pub open spec fn is_regex_meta(c: char) -> bool {
    c == '\\' || c == '.' || c == '+' || c == '*' || c == '?' || c == '(' || c == ')' || c == '|'
        || c == '[' || c == ']' || c == '{' || c == '}' || c == '^' || c == '$' || c == '#' || c
        == '&' || c == '-' || c == '~'
}

/// `regex::escape`: every meta character preceded by a backslash.
pub open spec fn regex_escaped(s: Seq<char>) -> Seq<char>
    decreases s.len(),
{
    if s.len() == 0 {
        seq![]
    } else {
        regex_escaped(s.drop_last()) + if is_regex_meta(s.last()) {
            seq!['\\', s.last()]
        } else {
            seq![s.last()]
        }
    }
}

/// `regex::escape`, whose source pushes a backslash before each character
/// for which `regex_syntax::is_meta_character` holds and copies every
/// character; the claim restates that source.
#[verifier::external_body]
fn regex_escape(s: &str) -> (r: String)
    ensures
        r@ == regex_escaped(s@),
{
    regex::escape(s)
}

/// The distinct words of the formatted text, joined by spaces, escaped as a
/// regular expression literal.
pub fn unique_content_for_regex(formatted: &str) -> (r: String)
    ensures
        r@ == regex_escaped(join_words(distinct_words(formatted@))),
{
    let lowered = lowercase_words(formatted);
    regex_content(&lowered)
}

/// Lowercased words, each kept once, joined by spaces and escaped as a
/// regular expression literal.
pub fn regex_content(lowered: &Vec<Vec<char>>) -> (r: String)
    ensures
        r@ == regex_escaped(join_words(dedup(char_vec_views(lowered@)))),
{
    let ws = dedup_chars(lowered);
    let joined = join_chars(&ws);
    let s = string_from_chars(&joined);
    regex_escape(s.as_str())
}

/// A hexadecimal digit, lower case.
pub open spec fn hex_digit(d: nat) -> char {
    if d == 0 {
        '0'
    } else if d == 1 {
        '1'
    } else if d == 2 {
        '2'
    } else if d == 3 {
        '3'
    } else if d == 4 {
        '4'
    } else if d == 5 {
        '5'
    } else if d == 6 {
        '6'
    } else if d == 7 {
        '7'
    } else if d == 8 {
        '8'
    } else if d == 9 {
        '9'
    } else if d == 10 {
        'a'
    } else if d == 11 {
        'b'
    } else if d == 12 {
        'c'
    } else if d == 13 {
        'd'
    } else if d == 14 {
        'e'
    } else {
        'f'
    }
}

fn hex_digit_char(d: u32) -> (c: char)
    requires
        d < 16,
    ensures
        c == hex_digit(d as nat),
{
    if d == 0 {
        '0'
    } else if d == 1 {
        '1'
    } else if d == 2 {
        '2'
    } else if d == 3 {
        '3'
    } else if d == 4 {
        '4'
    } else if d == 5 {
        '5'
    } else if d == 6 {
        '6'
    } else if d == 7 {
        '7'
    } else if d == 8 {
        '8'
    } else if d == 9 {
        '9'
    } else if d == 10 {
        'a'
    } else if d == 11 {
        'b'
    } else if d == 12 {
        'c'
    } else if d == 13 {
        'd'
    } else if d == 14 {
        'e'
    } else {
        'f'
    }
}

/// `n` in hexadecimal, lower case, without leading zeros.
pub open spec fn hex_digits(n: nat) -> Seq<char>
    decreases n,
{
    if n < 16 {
        seq![hex_digit(n)]
    } else {
        hex_digits(n / 16).push(hex_digit(n % 16))
    }
}

fn push_hex(n: u32, out: &mut Vec<char>)
    ensures
        final(out)@ == old(out)@ + hex_digits(n as nat),
    decreases n,
{
    if n >= 16 {
        push_hex(n / 16, out);
    }
    out.push(hex_digit_char(n % 16));
    assert(final(out)@ =~= old(out)@ + hex_digits(n as nat));
}

/// `char::escape_default`.
pub open spec fn escape_char(c: char) -> Seq<char> {
    if c == '\t' {
        seq!['\\', 't']
    } else if c == '\r' {
        seq!['\\', 'r']
    } else if c == '\n' {
        seq!['\\', 'n']
    } else if c == '\\' || c == '\'' || c == '"' {
        seq!['\\', c]
    } else if 0x20 <= c as u32 <= 0x7e {
        seq![c]
    } else {
        seq!['\\', 'u', '{'] + hex_digits(c as u32 as nat) + seq!['}']
    }
}

/// `str::escape_default`: every character escaped as `char::escape_default` does.
pub open spec fn escaped_default(s: Seq<char>) -> Seq<char>
    decreases s.len(),
{
    if s.len() == 0 {
        seq![]
    } else {
        escaped_default(s.drop_last()) + escape_char(s.last())
    }
}

/// A printable ASCII character.
pub open spec fn is_printable_ascii(c: char) -> bool {
    0x20 <= c as u32 <= 0x7e
}

proof fn lemma_hex_ascii(n: nat)
    ensures
        forall|i: int| 0 <= i < hex_digits(n).len() ==> is_printable_ascii(#[trigger] hex_digits(n)[i]),
    decreases n,
{
    if n >= 16 {
        lemma_hex_ascii(n / 16);
        let p = hex_digits(n / 16);
        assert forall|i: int| 0 <= i < hex_digits(n).len() implies is_printable_ascii(
            #[trigger] hex_digits(n)[i],
        ) by {
            if i < p.len() {
                assert(hex_digits(n)[i] == p[i]);
            }
        }
    }
}

/// Text escaped as `str::escape_default` does is printable ASCII.
pub proof fn lemma_escaped_ascii(s: Seq<char>)
    ensures
        forall|i: int|
            0 <= i < escaped_default(s).len() ==> is_printable_ascii(#[trigger] escaped_default(s)[i]),
    decreases s.len(),
{
    if s.len() > 0 {
        lemma_escaped_ascii(s.drop_last());
        let p = escaped_default(s.drop_last());
        let c = s.last();
        let e = escape_char(c);
        lemma_hex_ascii(c as u32 as nat);
        assert forall|i: int| 0 <= i < e.len() implies is_printable_ascii(#[trigger] e[i]) by {
            if !(c == '\t' || c == '\r' || c == '\n' || c == '\\' || c == '\'' || c == '"' || 0x20
                <= c as u32 <= 0x7e) {
                let h = hex_digits(c as u32 as nat);
                if 3 <= i < 3 + h.len() {
                    assert(e[i] == h[i - 3]);
                }
            }
        }
        assert forall|i: int| 0 <= i < escaped_default(s).len() implies is_printable_ascii(
            #[trigger] escaped_default(s)[i],
        ) by {
            if i < p.len() {
                assert(escaped_default(s)[i] == p[i]);
            } else {
                assert(escaped_default(s)[i] == e[i - p.len()]);
            }
        }
    }
}

pub fn escape_default(s: &Vec<char>) -> (r: Vec<char>)
    ensures
        r@ == escaped_default(s@),
{
    let mut r: Vec<char> = Vec::new();
    let mut i: usize = 0;
    while i < s.len()
        invariant
            i <= s.len(),
            r@ == escaped_default(s@.take(i as int)),
        decreases s.len() - i,
    {
        let c = s[i];
        let ghost base = r@;
        assert(s@.take(i + 1).drop_last() =~= s@.take(i as int));
        assert(s@.take(i + 1).last() == c);
        if c == '\t' {
            r.push('\\');
            r.push('t');
        } else if c == '\r' {
            r.push('\\');
            r.push('r');
        } else if c == '\n' {
            r.push('\\');
            r.push('n');
        } else if c == '\\' || c == '\'' || c == '"' {
            r.push('\\');
            r.push(c);
        } else if 0x20 <= c as u32 && c as u32 <= 0x7e {
            r.push(c);
        } else {
            r.push('\\');
            r.push('u');
            r.push('{');
            push_hex(c as u32, &mut r);
            r.push('}');
        }
        assert(r@ =~= base + escape_char(c));
        i += 1;
    }
    assert(s@.take(s.len() as int) =~= s@);
    r
}

/// The distinct words of the formatted text, joined by spaces, with every
/// character escaped as `str::escape_default` does.
pub fn unique_content_escaped(formatted: &str) -> (r: String)
    ensures
        r@ == escaped_default(join_words(distinct_words(formatted@))),
{
    let lowered = lowercase_words(formatted);
    escaped_content(&lowered)
}

/// Lowercased words, each kept once, joined by spaces and escaped as
/// `str::escape_default` does.
pub fn escaped_content(lowered: &Vec<Vec<char>>) -> (r: String)
    ensures
        r@ == escaped_default(join_words(dedup(char_vec_views(lowered@)))),
{
    let ws = dedup_chars(lowered);
    let joined = join_chars(&ws);
    let escaped = escape_default(&joined);
    string_from_chars(&escaped)
}

// ---------------------------------------------------------------------------
// Thumbnails
/// The base64 alphabet of RFC 4648.
pub open spec fn base64_char(v: int) -> char {
    if v < 26 {
        (65 + v) as char
    } else if v < 52 {
        (97 + v - 26) as char
    } else if v < 62 {
        (48 + v - 52) as char
    } else if v == 62 {
        '+'
    } else {
        '/'
    }
}

/// Standard base64 with `=` padding (RFC 4648, section 4).
pub open spec fn base64_standard(b: Seq<u8>) -> Seq<char>
    decreases b.len(),
{
    if b.len() == 0 {
        seq![]
    } else {
        let x = b[0] as int;
        let y = if b.len() > 1 { b[1] as int } else { 0 };
        let z = if b.len() > 2 { b[2] as int } else { 0 };
        if b.len() == 1 {
            seq![base64_char(x / 4), base64_char((x % 4) * 16), '=', '=']
        } else if b.len() == 2 {
            seq![base64_char(x / 4), base64_char((x % 4) * 16 + y / 16), base64_char((y % 16) * 4), '=']
        } else {
            seq![
                base64_char(x / 4),
                base64_char((x % 4) * 16 + y / 16),
                base64_char((y % 16) * 4 + z / 64),
                base64_char(z % 64),
            ] + base64_standard(b.skip(3))
        }
    }
}

/// `base64::engine::general_purpose::STANDARD.encode`: the `STANDARD`
/// engine uses the RFC 4648 standard alphabet and pads with `=`, which the
/// claim restates.
#[verifier::external_body]
fn base64_encode(bytes: &[u8]) -> (r: String)
    requires
        bytes@.len() <= usize::MAX / 2,
    ensures
        r@ == base64_standard(bytes@),
{
    base64::Engine::encode(&base64::engine::general_purpose::STANDARD, bytes)
}

/// The base64 text that every JPEG thumbnail of 50x27 pixels starts with;
/// it is left out of the stored thumbnails.
pub const JPEG_THUMBNAIL_PREFIX: &'static str = "/9j/4AAQSkZJRgABAgAAAQABAAD/wAARCAAbADIDAREAAhEBAxEB/9sAQwAUDg8SDw0UEhASFxUUGB4yIR4cHB49LC4kMklATEtHQEZFUFpzYlBVbVZFRmSIZW13e4GCgU5gjZeMfZZzfoF8/9sAQwEVFxceGh47ISE7fFNGU3x8fHx8fHx8fHx8fHx8fHx8fHx8fHx8fHx8fHx8fHx8fHx8fHx8fHx8fHx8fHx8fHx8/8QAHwAAAQUBAQEBAQEAAAAAAAAAAAECAwQFBgcICQoL/8QAtRAAAgEDAwIEAwUFBAQAAAF9AQIDAAQRBRIhMUEGE1FhByJxFDKBkaEII0KxwRVS0fAkM2JyggkKFhcYGRolJicoKSo0NTY3ODk6Q0RFRkdISUpTVFVWV1hZWmNkZWZnaGlqc3R1dnd4eXqDhIWGh4iJipKTlJWWl5iZmqKjpKWmp6ipqrKztLW2t7i5usLDxMXGx8jJytLT1NXW19jZ2uHi4+Tl5ufo6erx8vP09fb3+Pn6/8QAHwEAAwEBAQEBAQEBAQAAAAAAAAECAwQFBgcICQoL/8QAtREAAgECBAQDBAcFBAQAAQJ3AAECAxEEBSExBhJBUQdhcRMiMoEIFEKRobHBCSMzUvAVYnLRChYkNOEl8RcYGRomJygpKjU2Nzg5OkNERUZHSElKU1RVVldYWVpjZGVmZ2hpanN0dXZ3eHl6goOEhYaHiImKkpOUlZaXmJmaoqOkpaanqKmqsrO0tba3uLm6wsPExcbHyMnK0tPU1dbX2Nna4uPk5ebn6Onq8vP09fb3+Pn6/";

/// The stored thumbnail text: the JPEG bytes in base64, with every
/// occurrence of the common JPEG prefix removed.
pub fn thumbnail_text(jpeg: &[u8]) -> (r: String)
    requires
        jpeg@.len() <= usize::MAX / 2,
    ensures
        r@ == remove_pattern(base64_standard(jpeg@), JPEG_THUMBNAIL_PREFIX@),
{
    let encoded = base64_encode(jpeg);
    let cs = chars_of(encoded.as_str());
    let prefix = chars_of(JPEG_THUMBNAIL_PREFIX);
    let kept = remove_pattern_chars(&cs, &prefix);
    string_from_chars(&kept)
}

// ---------------------------------------------------------------------------
// Records
/// A url without `\"` escapes and without quotes.
pub open spec fn cleaned_url(url: Seq<char>) -> Seq<char> {
    remove_pattern(url, seq!['\\', '"']).filter(|c: char| c != '"')
}

pub fn clean_url(url: &str) -> (r: String)
    ensures
        r@ == cleaned_url(url@),
{
    let cs = chars_of(url);
    let a = drop_pair(&cs, '\\', '"');
    let mut r: Vec<char> = Vec::new();
    let mut i: usize = 0;
    while i < a.len()
        invariant
            i <= a.len(),
            r@ == a@.take(i as int).filter(|c: char| c != '"'),
        decreases a.len() - i,
    {
        proof {
            reveal_with_fuel(Seq::<_>::filter, 1);
            assert(a@.take(i + 1).drop_last() =~= a@.take(i as int));
        }
        if a[i] != '"' {
            r.push(a[i]);
        }
        i += 1;
    }
    assert(a@.take(a.len() as int) =~= a@);
    string_from_chars(&r)
}

fn copy_tags(tags: &Vec<usize>) -> (r: Vec<usize>)
    ensures
        r@ == tags@,
{
    let mut r: Vec<usize> = Vec::new();
    let mut i: usize = 0;
    while i < tags.len()
        invariant
            i <= tags.len(),
            r@ == tags@.take(i as int),
        decreases tags.len() - i,
    {
        r.push(tags[i]);
        i += 1;
        assert(r@ =~= tags@.take(i as int));
    }
    assert(tags@.take(tags.len() as int) =~= tags@);
    r
}

/// What a run has gathered so far: the websites handled, the ones that
/// failed, and the records for the front end (with the unique words as
/// content, and with the full text as content).
pub struct ScrapeState {
    pub downloaded: Vec<UrlIDPair>,
    pub failed: Vec<UrlIDPair>,
    pub websites_data: Vec<WebsiteData>,
    pub websites_full_data: Vec<WebsiteData>,
}

/// What a page yields: title, description, text, distinct words, thumbnail.
pub struct ProcessedPage {
    pub title: String,
    pub description: String,
    pub content: String,
    pub unique_content: String,
    pub thumbnail: String,
}

/// What the `image` crate makes of a screenshot: decoded
/// (`image::load_from_memory`), resized to fit `width` x `height` with the
/// Gaussian filter (`DynamicImage::resize`) and encoded as JPEG at `quality`
/// (`JpegEncoder::new_with_quality`, `encode_image`); `None` where decoding
/// or encoding fails.
pub uninterp spec fn jpeg_thumbnail(image: Seq<u8>, width: u32, height: u32, quality: u8) -> Option<
    Seq<u8>,
>;

/// Decodes the screenshot, resizes it and encodes it as JPEG with the
/// `image` crate. The claim is that the bytes depend on the arguments alone;
/// nothing is claimed of the decoding, the scaling or the encoding.
#[verifier::external_body]
fn encode_thumbnail(image: &[u8], width: u32, height: u32, quality: u8) -> (r: Option<Vec<u8>>)
    ensures
        match jpeg_thumbnail(image@, width, height, quality) {
            None => r is None,
            Some(b) => r matches Some(v) && v@ == b,
        },
{
    let decoded = match image::load_from_memory(image) {
        Ok(d) => d,
        Err(_) => return None,
    };
    let scaled = decoded.resize(width, height, image::imageops::FilterType::Gaussian);
    let mut buffer: Vec<u8> = Vec::new();
    let written = image::codecs::jpeg::JpegEncoder::new_with_quality(&mut buffer, quality)
        .encode_image(&scaled);
    match written {
        Ok(()) => Some(buffer),
        Err(_) => None,
    }
}

/// What the `image` crate makes of a screenshot for the resized copy:
/// decoded (`image::load_from_memory`), resized to fit `width` x `height`
/// with the Gaussian filter (`DynamicImage::resize`) and encoded as PNG
/// (`DynamicImage::write_to` with `ImageFormat::Png`); `None` where decoding
/// or encoding fails.
pub uninterp spec fn png_resized(image: Seq<u8>, width: u32, height: u32) -> Option<Seq<u8>>;

/// Decodes the screenshot, resizes it and encodes it as PNG with the `image`
/// crate. The claim is that the bytes depend on the arguments alone; nothing
/// is claimed of the decoding, the scaling or the encoding.
#[verifier::external_body]
fn encode_resized_png(image: &[u8], width: u32, height: u32) -> (r: Option<Vec<u8>>)
    ensures
        match png_resized(image@, width, height) {
            None => r is None,
            Some(b) => r matches Some(v) && v@ == b,
        },
{
    let decoded = match image::load_from_memory(image) {
        Ok(d) => d,
        Err(_) => return None,
    };
    let scaled = decoded.resize(width, height, image::imageops::FilterType::Gaussian);
    let mut buffer: Vec<u8> = Vec::new();
    match scaled.write_to(&mut std::io::Cursor::new(&mut buffer), image::ImageFormat::Png) {
        Ok(()) => Some(buffer),
        Err(_) => None,
    }
}

/// The resized copy of a screenshot: at most 455x250 pixels, as PNG; `None`
/// where the screenshot cannot be decoded or the copy encoded.
pub fn resized_screenshot(screenshot: &[u8]) -> (png: Option<Vec<u8>>)
    ensures
        match png_resized(screenshot@, 455, 250) {
            None => png is None,
            Some(b) => png matches Some(v) && v@ == b,
        },
{
    encode_resized_png(screenshot, 455, 250)
}

/// `p` holds what a page yields: its title, description and searchable
/// text, `unique` as distinct words, and `thumbnail` as thumbnail text.
pub open spec fn page_matches(
    p: ProcessedPage,
    html: Seq<char>,
    wiki_title: Seq<char>,
    unique: Seq<char>,
    thumbnail: Seq<u8>,
) -> bool {
    &&& p.title@ == page_title(html, wiki_title)
    &&& p.description@ == page_description(html)
    &&& p.content@ == clean_text(page_text(html))
    &&& p.unique_content@ == unique
    &&& p.thumbnail@ == remove_pattern(base64_standard(thumbnail), JPEG_THUMBNAIL_PREFIX@)
}

/// What a freshly downloaded page yields; its distinct words are escaped
/// as a regular expression, its thumbnail is the screenshot at 50x27 pixels
/// and JPEG quality 80. `None` where the screenshot cannot be turned into a
/// thumbnail, or the thumbnail is too long to encode.
pub fn process_fetched_page(html: &str, website: &ExtractedWebsite, screenshot: &[u8]) -> (page:
    Option<ProcessedPage>)
    ensures
        match jpeg_thumbnail(screenshot@, 50, 27, 80) {
            Some(jpeg) => if jpeg.len() <= usize::MAX / 2 {
                page matches Some(p) && page_matches(
                    p,
                    html@,
                    website.title@,
                    regex_escaped(join_words(distinct_words(p.content@))),
                    jpeg,
                )
            } else {
                page is None
            },
            None => page is None,
        },
{
    let jpeg = match encode_thumbnail(screenshot, 50, 27, 80) {
        Some(j) => j,
        None => return None,
    };
    if jpeg.len() > usize::MAX / 2 {
        return None;
    }
    let content = filter_and_format_elements(html);
    let unique_content = unique_content_for_regex(content.as_str());
    Some(
        ProcessedPage {
            title: get_title(html, website),
            description: get_description(html),
            content,
            unique_content,
            thumbnail: thumbnail_text(jpeg.as_slice()),
        },
    )
}

/// What a page read back from disk yields; its distinct words are escaped
/// as `str::escape_default` does, its thumbnail is the screenshot at 50x27
/// pixels and JPEG quality 40. `None` where the screenshot cannot be turned
/// into a thumbnail, or the thumbnail is too long to encode.
pub fn process_loaded_page(html: &str, website: &ExtractedWebsite, screenshot: &[u8]) -> (page:
    Option<ProcessedPage>)
    ensures
        match jpeg_thumbnail(screenshot@, 50, 27, 40) {
            Some(jpeg) => if jpeg.len() <= usize::MAX / 2 {
                page matches Some(p) && page_matches(
                    p,
                    html@,
                    website.title@,
                    escaped_default(join_words(distinct_words(p.content@))),
                    jpeg,
                )
            } else {
                page is None
            },
            None => page is None,
        },
{
    let jpeg = match encode_thumbnail(screenshot, 50, 27, 40) {
        Some(j) => j,
        None => return None,
    };
    if jpeg.len() > usize::MAX / 2 {
        return None;
    }
    let content = filter_and_format_elements(html);
    let unique_content = unique_content_escaped(content.as_str());
    Some(
        ProcessedPage {
            title: get_title(html, website),
            description: get_description(html),
            content,
            unique_content,
            thumbnail: thumbnail_text(jpeg.as_slice()),
        },
    )
}

/// Some record in `data` has id `id`.
pub open spec fn has_record(data: Seq<WebsiteData>, id: u64) -> bool {
    exists|i: int| 0 <= i < data.len() && #[trigger] data[i].id == id
}

/// Some pair in `pairs` has id `id`.
pub open spec fn has_pair(pairs: Seq<UrlIDPair>, id: u64) -> bool {
    exists|i: int| 0 <= i < pairs.len() && #[trigger] pairs[i].id == id
}

/// The record of `website` with the given content.
pub open spec fn record_view(website: ExtractedWebsite, page: ProcessedPage, content: Seq<char>) -> WebsiteView {
    WebsiteView {
        id: website.id,
        title: page.title@,
        content: content,
        url: cleaned_url(website.url@),
        description: page.description@,
        thumbnail: page.thumbnail@,
        tags: website.tags@,
    }
}

impl ScrapeState {
    /// The compact and the full records describe the same websites, in the
    /// same order, and no website has two records.
    pub open spec fn records_consistent(&self) -> bool {
        &&& self.websites_data.len() == self.websites_full_data.len()
        &&& forall|i: int|
            0 <= i < self.websites_data.len() ==> #[trigger] self.websites_data@[i].id
                == self.websites_full_data@[i].id
        &&& forall|i: int, j: int|
            0 <= i < self.websites_full_data.len() && 0 <= j < self.websites_full_data.len() && i
                != j ==> #[trigger] self.websites_full_data@[i].id
                != #[trigger] self.websites_full_data@[j].id
    }

    pub fn new() -> (s: ScrapeState)
        ensures
            s.records_consistent(),
            s.downloaded@ == Seq::<UrlIDPair>::empty(),
            s.failed@ == Seq::<UrlIDPair>::empty(),
            s.websites_data@ == Seq::<WebsiteData>::empty(),
            s.websites_full_data@ == Seq::<WebsiteData>::empty(),
    {
        ScrapeState {
            downloaded: Vec::new(),
            failed: Vec::new(),
            websites_data: Vec::new(),
            websites_full_data: Vec::new(),
        }
    }

    fn contains_record(data: &Vec<WebsiteData>, id: u64) -> (b: bool)
        ensures
            b == has_record(data@, id),
    {
        let mut i: usize = 0;
        while i < data.len()
            invariant
                i <= data.len(),
                forall|q: int| 0 <= q < i ==> #[trigger] data@[q].id != id,
            decreases data.len() - i,
        {
            if data[i].id == id {
                return true;
            }
            i += 1;
        }
        false
    }

    fn contains_pair(pairs: &Vec<UrlIDPair>, id: u64) -> (b: bool)
        ensures
            b == has_pair(pairs@, id),
    {
        let mut i: usize = 0;
        while i < pairs.len()
            invariant
                i <= pairs.len(),
                forall|q: int| 0 <= q < i ==> #[trigger] pairs@[q].id != id,
            decreases pairs.len() - i,
        {
            if pairs[i].id == id {
                return true;
            }
            i += 1;
        }
        false
    }

    fn add_records(&mut self, website: &ExtractedWebsite, page: &ProcessedPage)
        ensures
            old(self).records_consistent() ==> final(self).records_consistent(),
            final(self).downloaded == old(self).downloaded,
            final(self).failed == old(self).failed,
            has_record(old(self).websites_full_data@, website.id) ==> final(self).websites_data
                == old(self).websites_data && final(self).websites_full_data == old(
                self,
            ).websites_full_data,
            !has_record(old(self).websites_full_data@, website.id) ==> data_seq_view(
                final(self).websites_full_data@,
            ) == data_seq_view(old(self).websites_full_data@).push(
                record_view(*website, *page, page.content@),
            ) && data_seq_view(final(self).websites_data@) == data_seq_view(
                old(self).websites_data@,
            ).push(record_view(*website, *page, page.unique_content@)),
    {
        if !Self::contains_record(&self.websites_full_data, website.id) {
            let ghost full = data_seq_view(self.websites_full_data@);
            let ghost compact = data_seq_view(self.websites_data@);
            let full_record = WebsiteData {
                id: website.id,
                url: clean_url(website.url.as_str()),
                content: page.content.clone(),
                thumbnail: page.thumbnail.clone(),
                title: page.title.clone(),
                description: page.description.clone(),
                tags: copy_tags(&website.tags),
            };
            let record = WebsiteData {
                id: website.id,
                url: clean_url(website.url.as_str()),
                content: page.unique_content.clone(),
                thumbnail: page.thumbnail.clone(),
                title: page.title.clone(),
                description: page.description.clone(),
                tags: copy_tags(&website.tags),
            };
            let ghost before = *self;
            self.websites_full_data.push(full_record);
            self.websites_data.push(record);
            proof {
                if before.records_consistent() {
                    let n = before.websites_full_data.len() as int;
                    assert forall|i: int| 0 <= i < n implies before.websites_full_data@[i].id
                        != website.id by {
                        if before.websites_full_data@[i].id == website.id {
                            assert(has_record(before.websites_full_data@, website.id));
                        }
                    }
                    assert(self.websites_full_data@[n].id == website.id);
                    assert(self.websites_data@[n].id == website.id);
                    assert forall|i: int| 0 <= i < self.websites_data.len() implies #[trigger] self.websites_data@[i].id
                        == self.websites_full_data@[i].id by {
                        if i < n {
                            assert(self.websites_data@[i] == before.websites_data@[i]);
                            assert(self.websites_full_data@[i] == before.websites_full_data@[i]);
                        }
                    }
                    assert forall|i: int, j: int|
                        0 <= i < self.websites_full_data.len() && 0 <= j
                            < self.websites_full_data.len() && i != j implies #[trigger] self.websites_full_data@[i].id
                        != #[trigger] self.websites_full_data@[j].id by {
                        if i < n {
                            assert(self.websites_full_data@[i] == before.websites_full_data@[i]);
                        }
                        if j < n {
                            assert(self.websites_full_data@[j] == before.websites_full_data@[j]);
                        }
                    }
                }
            }
            assert(data_seq_view(self.websites_full_data@) =~= full.push(
                record_view(*website, *page, page.content@),
            ));
            assert(data_seq_view(self.websites_data@) =~= compact.push(
                record_view(*website, *page, page.unique_content@),
            ));
        }
    }

    /// Records a website that was just downloaded: its pair is added to
    /// `downloaded`, and its records are added unless a record with its id
    /// is there already.
    pub fn record_fetched(&mut self, website: &ExtractedWebsite, page: &ProcessedPage)
        ensures
            old(self).records_consistent() ==> final(self).records_consistent(),
            pair_seq_view(final(self).downloaded@) == pair_seq_view(old(self).downloaded@).push(
                (website.id, cleaned_url(website.url@)),
            ),
            final(self).failed == old(self).failed,
            has_record(old(self).websites_full_data@, website.id) ==> final(self).websites_data
                == old(self).websites_data && final(self).websites_full_data == old(
                self,
            ).websites_full_data,
            !has_record(old(self).websites_full_data@, website.id) ==> data_seq_view(
                final(self).websites_full_data@,
            ) == data_seq_view(old(self).websites_full_data@).push(
                record_view(*website, *page, page.content@),
            ) && data_seq_view(final(self).websites_data@) == data_seq_view(
                old(self).websites_data@,
            ).push(record_view(*website, *page, page.unique_content@)),
    {
        let ghost before = pair_seq_view(self.downloaded@);
        let pair = UrlIDPair { id: website.id, url: clean_url(website.url.as_str()) };
        self.downloaded.push(pair);
        assert(pair_seq_view(self.downloaded@) =~= before.push(
            (website.id, cleaned_url(website.url@)),
        ));
        self.add_records(website, page);
    }

    /// Records a website that was read back from disk: its pair is added to
    /// `downloaded` unless a pair with its id is there already, and its
    /// records are added unless a record with its id is there already.
    pub fn record_loaded(&mut self, website: &ExtractedWebsite, page: &ProcessedPage)
        ensures
            old(self).records_consistent() ==> final(self).records_consistent(),
            has_pair(old(self).downloaded@, website.id) ==> final(self).downloaded == old(
                self,
            ).downloaded,
            !has_pair(old(self).downloaded@, website.id) ==> pair_seq_view(final(self).downloaded@)
                == pair_seq_view(old(self).downloaded@).push(
                (website.id, cleaned_url(website.url@)),
            ),
            final(self).failed == old(self).failed,
            has_record(old(self).websites_full_data@, website.id) ==> final(self).websites_data
                == old(self).websites_data && final(self).websites_full_data == old(
                self,
            ).websites_full_data,
            !has_record(old(self).websites_full_data@, website.id) ==> data_seq_view(
                final(self).websites_full_data@,
            ) == data_seq_view(old(self).websites_full_data@).push(
                record_view(*website, *page, page.content@),
            ) && data_seq_view(final(self).websites_data@) == data_seq_view(
                old(self).websites_data@,
            ).push(record_view(*website, *page, page.unique_content@)),
    {
        if !Self::contains_pair(&self.downloaded, website.id) {
            let ghost before = pair_seq_view(self.downloaded@);
            let pair = UrlIDPair { id: website.id, url: clean_url(website.url.as_str()) };
            self.downloaded.push(pair);
            assert(pair_seq_view(self.downloaded@) =~= before.push(
                (website.id, cleaned_url(website.url@)),
            ));
        }
        self.add_records(website, page);
    }
}

} // verus!
