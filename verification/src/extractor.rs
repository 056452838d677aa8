//! Reading `[title](url)` links out of the wiki's markdown files.
use vstd::prelude::*;
use vstd::string::StrSliceExecFns;
use crate::processor::{pair_seq_view, UrlIDPair};
use crate::text::{
    char_vec_views, chars_equal, chars_of, dedup, dedup_chars, find, find_char_in, find_pair_in,
    is_trimmed, lemma_dedup, lemma_find_first, lemma_find_none, lemma_find_range, occurs_at, lemma_trim_trimmed, lemma_occurs_char, lemma_occurs_pair, slice_chars, split_char, split_chars,
    string_from_chars, trim, trim_range,
};

verus! {

/// A link found in the wiki, with the tags of the file it was found in.
pub struct ExtractedWebsite {
    pub id: u64,
    pub title: String,
    pub url: String,
    pub tags: Vec<usize>,
}

/// A title that ends in a dash loses the dash and the whitespace before it.
pub open spec fn strip_dash(t: Seq<char>) -> Seq<char> {
    if t.len() > 0 && t.last() == '-' {
        trim(t.drop_last())
    } else {
        t
    }
}

/// The title of the link whose `[` stands at `open` and whose `](` stands at
/// `close`: the numbered label before the `[` (as in `1. Title - [link](url)`,
/// without its trailing dash) when the line has a nonempty one, otherwise the
/// text between the brackets.
pub open spec fn link_title(line: Seq<char>, open: int, close: int) -> Seq<char> {
    let bracket = trim(line.subrange(open + 1, close));
    match find(line, seq!['.']) {
        Some(dot) => if dot < open {
            let label = trim(line.subrange(dot + 1, open));
            if label.len() > 0 {
                strip_dash(label)
            } else {
                bracket
            }
        } else {
            bracket
        },
        None => bracket,
    }
}

/// The title of a link on a numbered line is its whole label, trimmed,
/// dashes inside included; only a dash that ends the label is dropped, with
/// the whitespace before it. An empty label leaves the text between the
/// brackets.
pub proof fn lemma_numbered_title(line: Seq<char>, open: int, close: int)
    requires
        find(line, seq!['.']) matches Some(dot) && dot < open,
    ensures
        ({
            let dot = find(line, seq!['.'])->0;
            let label = trim(line.subrange(dot + 1, open));
            &&& label.len() > 0 && label.last() != '-' ==> link_title(line, open, close) == label
            &&& label.len() > 0 && label.last() == '-' ==> link_title(line, open, close) == trim(
                label.drop_last(),
            )
            &&& label.len() == 0 ==> link_title(line, open, close) == trim(
                line.subrange(open + 1, close),
            )
        }),
{
}

/// The `(title, url)` pairs of one line, scanned left to right; `None` where
/// the first `](` of what is left of the line comes before its first `[`.
pub open spec fn line_links(line: Seq<char>) -> Option<Seq<(Seq<char>, Seq<char>)>>
    decreases line.len(),
{
    if line.len() == 0 {
        Some(seq![])
    } else {
        match find(line, seq!['[']) {
            None => Some(seq![]),
            Some(open) => match find(line, seq![']', '(']) {
                None => Some(seq![]),
                Some(close) => if close < open {
                    None
                } else {
                    match find(line.skip(close), seq![')']) {
                        None => Some(seq![]),
                        Some(rel) => {
                            proof {
                                lemma_find_range(line, seq![']', '(']);
                                lemma_find_range(line.skip(close), seq![')']);
                            }
                            let end = close + rel;
                            match line_links(line.skip(end + 1)) {
                                Some(rest) => Some(
                                    seq![(link_title(line, open, close), trim(line.subrange(close + 2, end)))]
                                        + rest,
                                ),
                                None => None,
                            }
                        },
                    }
                },
            },
        }
    }
}

/// A line without the `\r` of a `\r\n` ending.
pub open spec fn strip_cr(line: Seq<char>) -> Seq<char> {
    if line.len() > 0 && line.last() == '\r' {
        line.drop_last()
    } else {
        line
    }
}

/// The links of every line of `content` (split as `str::lines` does), in order.
pub open spec fn markdown_links(content: Seq<char>) -> Option<Seq<(Seq<char>, Seq<char>)>>
    decreases content.len(),
{
    if content.len() == 0 {
        Some(seq![])
    } else {
        match find(content, seq!['\n']) {
            None => line_links(content),
            Some(nl) => {
                proof {
                    lemma_find_range(content, seq!['\n']);
                }
                match (
                    line_links(strip_cr(content.take(nl))),
                    markdown_links(content.skip(nl + 1)),
                ) {
                    (Some(a), Some(b)) => Some(a + b),
                    _ => None,
                }
            },
        }
    }
}

proof fn lemma_line_links_trimmed(line: Seq<char>)
    ensures
        line_links(line) matches Some(ls) ==> forall|k: int|
            0 <= k < ls.len() ==> is_trimmed(#[trigger] ls[k].0) && is_trimmed(ls[k].1),
    decreases line.len(),
{
    if line.len() == 0 {
        assert(line_links(line) == Some(Seq::<(Seq<char>, Seq<char>)>::empty()));
        return;
    }
    let fo = find(line, seq!['[']);
    let fc = find(line, seq![']', '(']);
    if fo is None || fc is None {
        assert(line_links(line) == Some(Seq::<(Seq<char>, Seq<char>)>::empty()));
        return;
    }
    let open = fo->0;
    let close = fc->0;
    if close < open {
        assert(line_links(line) is None);
        return;
    }
    lemma_find_range(line, seq!['[']);
    lemma_find_range(line, seq![']', '(']);
    let fr = find(line.skip(close), seq![')']);
    if fr is None {
        assert(line_links(line) == Some(Seq::<(Seq<char>, Seq<char>)>::empty()));
        return;
    }
    let rel = fr->0;
    lemma_find_range(line.skip(close), seq![')']);
    let end = close + rel;
    lemma_line_links_trimmed(line.skip(end + 1));
    let rest_opt = line_links(line.skip(end + 1));
    if rest_opt is None {
        assert(line_links(line) is None);
        return;
    }
    let rest = rest_opt->0;
    lemma_trim_trimmed(line.subrange(open + 1, close));
    lemma_trim_trimmed(line.subrange(close + 2, end));
    if let Some(dot) = find(line, seq!['.']) {
        lemma_find_range(line, seq!['.']);
        if dot < open {
            let t = trim(line.subrange(dot + 1, open));
            lemma_trim_trimmed(line.subrange(dot + 1, open));
            if t.len() > 0 && t.last() == '-' {
                lemma_trim_trimmed(t.drop_last());
            }
        }
    }
    let first = (link_title(line, open, close), trim(line.subrange(close + 2, end)));
    let ls = seq![first] + rest;
    assert(line_links(line) == Some(ls));
    assert(is_trimmed(first.0) && is_trimmed(first.1));
    assert forall|k: int| 0 <= k < ls.len() implies is_trimmed(#[trigger] ls[k].0) && is_trimmed(
        ls[k].1,
    ) by {
        if k > 0 {
            assert(ls[k] == rest[k - 1]);
        }
    }
}

/// Markdown of one line (no newline) is scanned as that line.
proof fn lemma_single_line(a: Seq<char>)
    requires
        forall|j: int| 0 <= j < a.len() ==> a[j] != '\n',
    ensures
        markdown_links(a) == line_links(a),
{
    if a.len() > 0 {
        assert forall|j: int| !#[trigger] occurs_at(a, j, seq!['\n']) by {
            lemma_occurs_char(a, j, '\n');
        }
        lemma_find_none(a, seq!['\n']);
    } else {
        assert(line_links(a) == Some(Seq::<(Seq<char>, Seq<char>)>::empty()));
    }
}

/// Text is scanned line by line: a line, a newline and the rest give the
/// links of the line followed by those of the rest, and neither can be
/// scanned where one of them cannot.
#[verifier::rlimit(40)]
#[verifier::spinoff_prover]
pub proof fn lemma_links_line_by_line(a: Seq<char>, b: Seq<char>)
    requires
        forall|j: int| 0 <= j < a.len() ==> a[j] != '\n',
        !(a.len() > 0 && a.last() == '\r'),
    ensures
        markdown_links(a + seq!['\n'] + b) == match (markdown_links(a), markdown_links(b)) {
            (Some(x), Some(y)) => Some(x + y),
            _ => None::<Seq<(Seq<char>, Seq<char>)>>,
        },
{
    let s = a + seq!['\n'] + b;
    let n = a.len() as int;
    assert forall|j: int| 0 <= j < n implies !#[trigger] occurs_at(s, j, seq!['\n']) by {
        lemma_occurs_char(s, j, '\n');
        assert(s[j] == a[j]);
    }
    lemma_occurs_char(s, n, '\n');
    lemma_find_first(s, seq!['\n'], n);
    assert(s.take(n) =~= a);
    assert(strip_cr(a) == a);
    assert(s.skip(n + 1) =~= b);
    lemma_single_line(a);
}

/// Every title and url that `extract_titles_and_urls` gives is trimmed.
pub proof fn lemma_links_trimmed(content: Seq<char>)
    ensures
        markdown_links(content) matches Some(ls) ==> forall|k: int|
            0 <= k < ls.len() ==> is_trimmed(#[trigger] ls[k].0) && is_trimmed(ls[k].1),
    decreases content.len(),
{
    if content.len() > 0 {
        match find(content, seq!['\n']) {
            None => lemma_line_links_trimmed(content),
            Some(nl) => {
                lemma_find_range(content, seq!['\n']);
                lemma_line_links_trimmed(strip_cr(content.take(nl)));
                lemma_links_trimmed(content.skip(nl + 1));
                if let (Some(a), Some(b)) = (
                    line_links(strip_cr(content.take(nl))),
                    markdown_links(content.skip(nl + 1)),
                ) {
                    let ls = a + b;
                    assert(markdown_links(content) == Some(ls));
                    assert forall|k: int| 0 <= k < ls.len() implies is_trimmed(#[trigger] ls[k].0)
                        && is_trimmed(ls[k].1) by {
                        if k < a.len() {
                            assert(ls[k] == a[k]);
                            assert(is_trimmed(a[k].0) && is_trimmed(a[k].1));
                        } else {
                            assert(ls[k] == b[k - a.len()]);
                            assert(is_trimmed(b[k - a.len()].0) && is_trimmed(b[k - a.len()].1));
                        }
                    }
                }
            },
        }
    }
}

pub open spec fn pair_views(v: Seq<(&str, &str)>) -> Seq<(Seq<char>, Seq<char>)> {
    v.map_values(|p: (&str, &str)| (p.0@, p.1@))
}

/// Bounds inside `cs` of the title of the link at `open`/`close` on the line
/// `cs[from..to]`.
fn title_range(cs: &Vec<char>, from: usize, to: usize, open: usize, close: usize) -> (r: (
    usize,
    usize,
))
    requires
        from <= open < close < to <= cs.len(),
    ensures
        r.0 <= r.1 <= cs.len(),
        cs@.subrange(r.0 as int, r.1 as int) == link_title(
            cs@.subrange(from as int, to as int),
            open - from,
            close - from,
        ),
{
    let ghost line = cs@.subrange(from as int, to as int);
    let bracket = trim_range(cs, open + 1, close);
    assert(line.subrange(open - from + 1, close - from) =~= cs@.subrange(open + 1, close as int));
    match find_char_in(cs, from, to, '.') {
        Some(dot) => {
            if dot < open {
                let (a, b) = trim_range(cs, dot + 1, open);
                assert(line.subrange(dot - from + 1, open - from) =~= cs@.subrange(
                    dot + 1,
                    open as int,
                ));
                if b > a {
                    if cs[b - 1] == '-' {
                        assert(cs@.subrange(a as int, b as int).drop_last() =~= cs@.subrange(
                            a as int,
                            b - 1,
                        ));
                        trim_range(cs, a, b - 1)
                    } else {
                        (a, b)
                    }
                } else {
                    bracket
                }
            } else {
                bracket
            }
        },
        None => bracket,
    }
}

/// Appends the links of the line `cs[from..to]` to `links`; false, with
/// `links` in an unspecified state, where the line cannot be scanned.
fn scan_line<'a>(
    content: &'a str,
    cs: &Vec<char>,
    from: usize,
    to: usize,
    links: &mut Vec<(&'a str, &'a str)>,
) -> (ok: bool)
    requires
        cs@ == content@,
        from <= to <= cs.len(),
    ensures
        ok == line_links(cs@.subrange(from as int, to as int)) is Some,
        ok ==> pair_views(final(links)@) == pair_views(old(links)@) + line_links(
            cs@.subrange(from as int, to as int),
        )->0,
{
    let ghost start = pair_views(links@);
    let ghost whole = cs@.subrange(from as int, to as int);
    let mut cur = from;
    proof {
        if line_links(whole) is Some {
            assert(pair_views(links@) + line_links(cs@.subrange(cur as int, to as int))->0
                =~= start + line_links(whole)->0);
        }
    }
    while cur < to
        invariant
            cs@ == content@,
            start == pair_views(old(links)@),
            whole == cs@.subrange(from as int, to as int),
            from <= cur <= to <= cs.len(),
            (line_links(cs@.subrange(cur as int, to as int)) is Some) == (line_links(whole) is Some),
            line_links(whole) is Some ==> pair_views(links@) + line_links(
                cs@.subrange(cur as int, to as int),
            )->0 == start + line_links(whole)->0,
        decreases to - cur,
    {
        let ghost line = cs@.subrange(cur as int, to as int);
        let open = match find_char_in(cs, cur, to, '[') {
            Some(o) => o,
            None => {
                assert(line.len() > 0);
                assert(line_links(line) == Some(Seq::<(Seq<char>, Seq<char>)>::empty()));
                assert(pair_views(links@) + Seq::<(Seq<char>, Seq<char>)>::empty() =~= pair_views(links@));
                return true;
            },
        };
        let close = match find_pair_in(cs, cur, to, ']', '(') {
            Some(c) => c,
            None => {
                assert(line.len() > 0);
                assert(line_links(line) == Some(Seq::<(Seq<char>, Seq<char>)>::empty()));
                assert(pair_views(links@) + Seq::<(Seq<char>, Seq<char>)>::empty() =~= pair_views(links@));
                return true;
            },
        };
        proof {
            lemma_find_range(line, seq!['[']);
            lemma_find_range(line, seq![']', '(']);
            lemma_occurs_char(line, open - cur, '[');
            lemma_occurs_pair(line, close - cur, ']', '(');
        }
        if close < open {
            assert(line_links(line) is None);
            return false;
        }
        let end = match find_char_in(cs, close, to, ')') {
            Some(e) => e,
            None => {
                assert(line.skip(close - cur) =~= cs@.subrange(close as int, to as int));
                assert(pair_views(links@) + seq![] =~= pair_views(links@));
                return true;
            },
        };
        assert(line.skip(close - cur) =~= cs@.subrange(close as int, to as int));
        proof {
            lemma_find_range(cs@.subrange(close as int, to as int), seq![')']);
            lemma_occurs_char(cs@.subrange(close as int, to as int), end - close, ')');
        }
        let (tlo, thi) = title_range(cs, cur, to, open, close);
        let (ulo, uhi) = trim_range(cs, close + 2, end);
        assert(line.subrange(close - cur + 2, end - cur) =~= cs@.subrange(close + 2, end as int));
        assert(line.skip(end - cur + 1) =~= cs@.subrange(end + 1, to as int));
        let title = content.substring_char(tlo, thi);
        let url = content.substring_char(ulo, uhi);
        let ghost before = links@;
        links.push((title, url));
        proof {
            assert(pair_views(links@) =~= pair_views(before).push((title@, url@)));
        }
        cur = end + 1;
        proof {
            if line_links(whole) is Some {
                let rest = line_links(cs@.subrange(cur as int, to as int))->0;
                assert(pair_views(links@) + rest =~= pair_views(before) + (seq![(title@, url@)]
                    + rest));
            }
        }
    }
    assert(pair_views(links@) + seq![] =~= pair_views(links@));
    true
}

/// The links of a markdown text, as `extract_titles_and_urls` finds them;
/// `None` where a line has a `](` before its first `[`.
#[verifier::rlimit(40)]
#[verifier::spinoff_prover]
pub fn scan_links(content: &str) -> (links: Option<Vec<(&str, &str)>>)
    ensures
        match markdown_links(content@) {
            Some(ls) => links matches Some(v) && pair_views(v@) == ls,
            None => links is None,
        },
{
    let cs = chars_of(content);
    let n = cs.len();
    let mut links: Vec<(&str, &str)> = Vec::new();
    let mut pos: usize = 0;
    assert(cs@.subrange(0, n as int) =~= content@);
    proof {
        if markdown_links(content@) is Some {
            assert(pair_views(links@) + markdown_links(content@)->0 =~= markdown_links(content@)->0);
        }
    }
    while pos < n
        invariant
            cs@ == content@,
            n == cs.len(),
            pos <= n,
            (markdown_links(cs@.subrange(pos as int, n as int)) is Some) == (markdown_links(
                content@,
            ) is Some),
            markdown_links(content@) is Some ==> pair_views(links@) + markdown_links(
                cs@.subrange(pos as int, n as int),
            )->0 == markdown_links(content@)->0,
        decreases n - pos,
    {
        let ghost rest = cs@.subrange(pos as int, n as int);
        let ghost before = pair_views(links@);
        match find_char_in(&cs, pos, n, '\n') {
            Some(nl) => {
                let mut le = nl;
                if le > pos && cs[le - 1] == '\r' {
                    le = le - 1;
                }
                proof {
                    lemma_find_range(rest, seq!['\n']);
                    assert(strip_cr(rest.take(nl - pos)) =~= cs@.subrange(pos as int, le as int));
                    assert(rest.skip(nl - pos + 1) =~= cs@.subrange(nl + 1, n as int));
                }
                if !scan_line(content, &cs, pos, le, &mut links) {
                    return None;
                }
                proof {
                    if markdown_links(content@) is Some {
                        let a = line_links(cs@.subrange(pos as int, le as int))->0;
                        let b = markdown_links(cs@.subrange(nl + 1, n as int))->0;
                        assert(before + (a + b) =~= (before + a) + b);
                    }
                }
                pos = nl + 1;
            },
            None => {
                if !scan_line(content, &cs, pos, n, &mut links) {
                    return None;
                }
                pos = n;
                assert(cs@.subrange(n as int, n as int) =~= Seq::<char>::empty());
            },
        }
    }
    assert(cs@.subrange(n as int, n as int) =~= Seq::<char>::empty());
    assert(pair_views(links@) + seq![] =~= pair_views(links@));
    Some(links)
}

/// Every `[title](url)` link of a markdown text, line by line, with title and
/// url trimmed. Where a line numbers its entries (`1. Title - [link](url)`),
/// the numbered label is the title.
pub fn extract_titles_and_urls(content: &str) -> (links: Vec<(&str, &str)>)
    requires
        markdown_links(content@) is Some,
    ensures
        pair_views(links@) == markdown_links(content@)->0,
{
    match scan_links(content) {
        Some(links) => links,
        None => Vec::new(),
    }
}

// ---------------------------------------------------------------------------
// Tags from file paths
/// The pieces of a file path that tags come from: the path without `.` and
/// `/`, split at `\`.
pub open spec fn path_pieces(path: Seq<char>) -> Seq<Seq<char>> {
    split_char(path.filter(|c: char| c != '.' && c != '/'), '\\')
}

/// The tags a markdown file contributes: every piece of its path but the
/// last, except `NTHW`.
pub open spec fn file_tags(path: Seq<char>) -> Seq<Seq<char>> {
    path_pieces(path).drop_last().filter(|t: Seq<char>| t != "NTHW"@)
}

/// The tags of all files, in order, with repeats.
pub open spec fn all_file_tags(paths: Seq<Seq<char>>) -> Seq<Seq<char>>
    decreases paths.len(),
{
    if paths.len() == 0 {
        seq![]
    } else {
        all_file_tags(paths.drop_last()) + file_tags(paths.last())
    }
}

/// The tags of all files are those of some file, and none is `NTHW`.
proof fn lemma_all_file_tags(paths: Seq<Seq<char>>)
    ensures
        forall|x: Seq<char>|
            all_file_tags(paths).contains(x) <==> exists|j: int|
                0 <= j < paths.len() && #[trigger] file_tags(paths[j]).contains(x),
        forall|k: int|
            0 <= k < all_file_tags(paths).len() ==> #[trigger] all_file_tags(paths)[k] != "NTHW"@,
    decreases paths.len(),
{
    if paths.len() > 0 {
        let p = paths.drop_last();
        lemma_all_file_tags(p);
        let prev = all_file_tags(p);
        let last = file_tags(paths.last());
        let all = all_file_tags(paths);
        assert(all == prev + last);
        assert forall|k: int| 0 <= k < last.len() implies #[trigger] last[k] != "NTHW"@ by {
            path_pieces(paths.last()).drop_last().lemma_filter_pred(
                |t: Seq<char>| t != "NTHW"@,
                k,
            );
        }
        assert forall|k: int| 0 <= k < all.len() implies #[trigger] all[k] != "NTHW"@ by {
            if k < prev.len() {
                assert(all[k] == prev[k]);
            } else {
                assert(all[k] == last[k - prev.len()]);
            }
        }
        assert forall|x: Seq<char>| all.contains(x) <==> exists|j: int|
            0 <= j < paths.len() && #[trigger] file_tags(paths[j]).contains(x) by {
            if all.contains(x) {
                let i = choose|i: int| 0 <= i < all.len() && all[i] == x;
                if i < prev.len() {
                    assert(prev[i] == x);
                    assert(prev.contains(x));
                    let j = choose|j: int| 0 <= j < p.len() && #[trigger] file_tags(p[j]).contains(x);
                    assert(p[j] == paths[j]);
                } else {
                    assert(last[i - prev.len()] == x);
                    assert(paths[paths.len() - 1] == paths.last());
                    assert(file_tags(paths[paths.len() - 1]).contains(x));
                }
            }
            if exists|j: int| 0 <= j < paths.len() && #[trigger] file_tags(paths[j]).contains(x) {
                let j = choose|j: int| 0 <= j < paths.len() && #[trigger] file_tags(paths[j]).contains(x);
                if j < p.len() {
                    assert(p[j] == paths[j]);
                    assert(file_tags(p[j]).contains(x));
                    assert(prev.contains(x));
                    let i = choose|i: int| 0 <= i < prev.len() && prev[i] == x;
                    assert(all[i] == prev[i]);
                    assert(all[i] == x);
                } else {
                    assert(paths[j] == paths.last());
                    let i = choose|i: int| 0 <= i < last.len() && last[i] == x;
                    assert(all[prev.len() + i] == x);
                }
            }
        }
    }
}

/// The tags that `extract_tags` gives: each once, none of them `NTHW`, and
/// exactly the tags of the files.
pub proof fn lemma_tag_set(paths: Seq<Seq<char>>)
    ensures
        dedup(all_file_tags(paths)).no_duplicates(),
        forall|k: int|
            0 <= k < dedup(all_file_tags(paths)).len() ==> #[trigger] dedup(
                all_file_tags(paths),
            )[k] != "NTHW"@,
        forall|x: Seq<char>|
            dedup(all_file_tags(paths)).contains(x) <==> exists|j: int|
                0 <= j < paths.len() && #[trigger] file_tags(paths[j]).contains(x),
{
    let all = all_file_tags(paths);
    lemma_all_file_tags(paths);
    lemma_dedup(all);
    let d = dedup(all);
    assert forall|k: int| 0 <= k < d.len() implies #[trigger] d[k] != "NTHW"@ by {
        assert(d.contains(d[k]));
        assert(all.contains(d[k]));
        let i = choose|i: int| 0 <= i < all.len() && all[i] == d[k];
        assert(all[i] != "NTHW"@);
    }
    assert forall|x: Seq<char>| d.contains(x) <==> exists|j: int|
        0 <= j < paths.len() && #[trigger] file_tags(paths[j]).contains(x) by {
        assert(d.contains(x) <==> all.contains(x));
    }
}

pub open spec fn string_views(v: Seq<String>) -> Seq<Seq<char>> {
    v.map_values(|s: String| s@)
}

fn path_piece_chars(path: &str) -> (pieces: Vec<Vec<char>>)
    ensures
        char_vec_views(pieces@) == path_pieces(path@),
{
    let cs = chars_of(path);
    let mut kept: Vec<char> = Vec::new();
    let mut i: usize = 0;
    while i < cs.len()
        invariant
            cs@ == path@,
            i <= cs.len(),
            kept@ == cs@.take(i as int).filter(|c: char| c != '.' && c != '/'),
        decreases cs.len() - i,
    {
        proof {
            reveal_with_fuel(Seq::<_>::filter, 1);
            assert(cs@.take(i + 1).drop_last() =~= cs@.take(i as int));
        }
        if cs[i] != '.' && cs[i] != '/' {
            kept.push(cs[i]);
        }
        i += 1;
    }
    assert(cs@.take(cs.len() as int) =~= cs@);
    split_chars(&kept, '\\')
}

/// The tags of the markdown files at `paths`: the pieces of each path but
/// the last, without `NTHW`, each tag once, in order of first occurrence.
pub fn extract_tags(paths: &Vec<String>) -> (tags: Vec<String>)
    ensures
        string_views(tags@) == dedup(all_file_tags(string_views(paths@))),
{
    let ghost pv = string_views(paths@);
    let nthw = chars_of("NTHW");
    let mut all: Vec<Vec<char>> = Vec::new();
    let mut i: usize = 0;
    while i < paths.len()
        invariant
            pv == string_views(paths@),
            nthw@ == "NTHW"@,
            i <= paths.len(),
            char_vec_views(all@) == all_file_tags(pv.take(i as int)),
        decreases paths.len() - i,
    {
        let pieces = path_piece_chars(paths[i].as_str());
        let ghost pieces_v = char_vec_views(pieces@);
        let ghost base = char_vec_views(all@);
        let mut k: usize = 0;
        let last = if pieces.len() > 0 {
            pieces.len() - 1
        } else {
            0
        };
        while k < last
            invariant
                pieces_v == char_vec_views(pieces@),
                nthw@ == "NTHW"@,
                last <= pieces.len(),
                last == if pieces.len() > 0 { pieces.len() - 1 } else { 0 },
                k <= last,
                char_vec_views(all@) == base + pieces_v.take(k as int).filter(
                    |t: Seq<char>| t != "NTHW"@,
                ),
            decreases last - k,
        {
            proof {
                reveal_with_fuel(Seq::<_>::filter, 1);
                assert(pieces_v.take(k + 1).drop_last() =~= pieces_v.take(k as int));
            }
            if !chars_equal(&pieces[k], &nthw) {
                let ghost before = char_vec_views(all@);
                all.push(slice_chars(&pieces[k], 0, pieces[k].len()));
                assert(pieces@[k as int]@.subrange(0, pieces@[k as int]@.len() as int)
                    =~= pieces@[k as int]@);
                assert(char_vec_views(all@) =~= before.push(pieces_v[k as int]));
            }
            k += 1;
        }
        proof {
            assert(pieces_v.take(last as int) =~= pieces_v.drop_last());
            let t = pv.take(i + 1);
            assert(t.drop_last() =~= pv.take(i as int));
            assert(t.last() == paths@[i as int]@);
        }
        i += 1;
    }
    assert(pv.take(paths.len() as int) =~= pv);
    let distinct = dedup_chars(&all);
    let mut tags: Vec<String> = Vec::new();
    let mut j: usize = 0;
    while j < distinct.len()
        invariant
            j <= distinct.len(),
            string_views(tags@) == char_vec_views(distinct@).take(j as int),
        decreases distinct.len() - j,
    {
        let ghost before = string_views(tags@);
        tags.push(string_from_chars(&distinct[j]));
        assert(string_views(tags@) =~= before.push(distinct@[j as int]@));
        assert(char_vec_views(distinct@).take(j + 1) =~= char_vec_views(distinct@).take(
            j as int,
        ).push(distinct@[j as int]@));
        j += 1;
    }
    assert(char_vec_views(distinct@).take(distinct.len() as int) =~= char_vec_views(distinct@));
    tags
}

/// The index of the first occurrence of `t` in `tags`.
pub open spec fn position(tags: Seq<Seq<char>>, t: Seq<char>) -> Option<usize>
    decreases tags.len(),
{
    if tags.len() == 0 {
        None
    } else {
        match position(tags.drop_last(), t) {
            Some(i) => Some(i),
            None => if tags.last() == t {
                Some((tags.len() - 1) as usize)
            } else {
                None
            },
        }
    }
}

/// The indexes in `tags` of the pieces of `path` that are tags, in order.
pub open spec fn tag_indexes(path: Seq<char>, tags: Seq<Seq<char>>) -> Seq<usize> {
    path_pieces(path).filter_map(|p: Seq<char>| position(tags, p))
}

proof fn lemma_position(tags: Seq<Seq<char>>, t: Seq<char>)
    requires
        tags.len() <= usize::MAX,
    ensures
        position(tags, t) is Some <==> tags.contains(t),
        position(tags, t) matches Some(i) ==> i < tags.len() && tags[i as int] == t,
    decreases tags.len(),
{
    if tags.len() > 0 {
        let p = tags.drop_last();
        lemma_position(p, t);
        if p.contains(t) {
            let j = choose|j: int| 0 <= j < p.len() && p[j] == t;
            assert(tags[j] == t);
        }
        if tags.contains(t) && !p.contains(t) {
            let j = choose|j: int| 0 <= j < tags.len() && tags[j] == t;
            if j < p.len() {
                assert(p[j] == t);
            }
            assert(tags.last() == t);
        }
        if let Some(i) = position(p, t) {
            assert(tags[i as int] == p[i as int]);
        }
    }
}

proof fn lemma_piece_indexes(ps: Seq<Seq<char>>, tags: Seq<Seq<char>>, r: Seq<usize>)
    requires
        tags.len() <= usize::MAX,
        r == ps.filter_map(|p: Seq<char>| position(tags, p)),
    ensures
        r.len() == ps.filter(|p: Seq<char>| tags.contains(p)).len(),
        forall|k: int|
            0 <= k < r.len() ==> #[trigger] r[k] < tags.len() && ps.contains(tags[r[k] as int]),
        forall|j: int|
            0 <= j < ps.len() && tags.contains(#[trigger] ps[j]) ==> exists|k: int|
                0 <= k < r.len() && tags[r[k] as int] == ps[j],
    decreases ps.len(),
{
    reveal_with_fuel(Seq::<_>::filter, 1);
    if ps.len() > 0 {
        let rest = ps.drop_last();
        let r0 = rest.filter_map(|p: Seq<char>| position(tags, p));
        lemma_piece_indexes(rest, tags, r0);
        let last = ps.last();
        lemma_position(tags, last);
        assert forall|x: Seq<char>| rest.contains(x) implies ps.contains(x) by {
            let j = choose|j: int| 0 <= j < rest.len() && rest[j] == x;
            assert(ps[j] == x);
        }
        assert(ps[ps.len() - 1] == last);
        match position(tags, last) {
            Some(i) => {
                assert(r == r0 + seq![i]);
                assert forall|k: int| 0 <= k < r.len() implies #[trigger] r[k] < tags.len()
                    && ps.contains(tags[r[k] as int]) by {
                    if k < r0.len() {
                        assert(r[k] == r0[k]);
                    } else {
                        assert(r[k] == i);
                    }
                }
                assert forall|j: int| 0 <= j < ps.len() && tags.contains(#[trigger] ps[j]) implies exists|k: int|
                    0 <= k < r.len() && tags[r[k] as int] == ps[j] by {
                    if j < rest.len() {
                        assert(rest[j] == ps[j]);
                        assert(tags.contains(rest[j]));
                        let k = choose|k: int| 0 <= k < r0.len() && tags[r0[k] as int] == rest[j];
                        assert(r[k] == r0[k]);
                    } else {
                        assert(r[r0.len() as int] == i);
                    }
                }
            },
            None => {
                assert(r == r0);
                assert forall|j: int| 0 <= j < ps.len() && tags.contains(#[trigger] ps[j]) implies exists|k: int|
                    0 <= k < r.len() && tags[r[k] as int] == ps[j] by {
                    if j < rest.len() {
                        assert(rest[j] == ps[j]);
                        assert(tags.contains(rest[j]));
                        let k = choose|k: int| 0 <= k < r0.len() && tags[r0[k] as int] == rest[j];
                    }
                }
            },
        }
    }
}

/// A website's tags hold the index in `tags` of each piece of its file's
/// path that is a tag: one index per such piece, each pointing at a tag that
/// is a piece of the path, and every piece that is a tag has one.
pub proof fn lemma_tag_indexes(path: Seq<char>, tags: Seq<Seq<char>>)
    requires
        tags.len() <= usize::MAX,
    ensures
        tag_indexes(path, tags).len() == path_pieces(path).filter(|p: Seq<char>| tags.contains(p)).len(),
        forall|k: int|
            0 <= k < tag_indexes(path, tags).len() ==> #[trigger] tag_indexes(path, tags)[k]
                < tags.len() && path_pieces(path).contains(tags[tag_indexes(path, tags)[k] as int]),
        forall|j: int|
            0 <= j < path_pieces(path).len() && tags.contains(#[trigger] path_pieces(path)[j])
                ==> exists|k: int|
                0 <= k < tag_indexes(path, tags).len() && tags[tag_indexes(path, tags)[k] as int]
                    == path_pieces(path)[j],
{
    lemma_piece_indexes(path_pieces(path), tags, tag_indexes(path, tags));
}

fn find_position(tags: &Vec<Vec<char>>, t: &Vec<char>) -> (r: Option<usize>)
    ensures
        r == position(char_vec_views(tags@), t@),
{
    let ghost tv = char_vec_views(tags@);
    let mut i: usize = 0;
    while i < tags.len()
        invariant
            tv == char_vec_views(tags@),
            i <= tags.len(),
            position(tv.take(i as int), t@) is None,
        decreases tags.len() - i,
    {
        assert(tv.take(i + 1).drop_last() =~= tv.take(i as int));
        if chars_equal(&tags[i], t) {
            proof {
                assert(tv.take(i + 1).last() == tv[i as int]);
                assert(position(tv.take(i + 1), t@) == Some(i));
                lemma_position_prefix(tv, t@, (i + 1) as int);
            }
            return Some(i);
        }
        i += 1;
    }
    assert(tv.take(tags.len() as int) =~= tv);
    None
}

proof fn lemma_position_prefix(tags: Seq<Seq<char>>, t: Seq<char>, k: int)
    requires
        0 <= k <= tags.len(),
        position(tags.take(k), t) is Some,
    ensures
        position(tags, t) == position(tags.take(k), t),
    decreases tags.len() - k,
{
    if k < tags.len() {
        assert(tags.take(k + 1).drop_last() =~= tags.take(k));
        lemma_position_prefix(tags, t, k + 1);
    } else {
        assert(tags.take(k) =~= tags);
    }
}

fn tag_indexes_of(path: &str, tags: &Vec<Vec<char>>) -> (r: Vec<usize>)
    ensures
        r@ == tag_indexes(path@, char_vec_views(tags@)),
{
    let pieces = path_piece_chars(path);
    let ghost pv = char_vec_views(pieces@);
    let ghost f = |p: Seq<char>| position(char_vec_views(tags@), p);
    let mut r: Vec<usize> = Vec::new();
    let mut i: usize = 0;
    while i < pieces.len()
        invariant
            pv == char_vec_views(pieces@),
            pv == path_pieces(path@),
            f == (|p: Seq<char>| position(char_vec_views(tags@), p)),
            i <= pieces.len(),
            r@ == pv.take(i as int).filter_map(f),
        decreases pieces.len() - i,
    {
        assert(pv.take(i + 1).drop_last() =~= pv.take(i as int));
        assert(pv.take(i + 1).last() == pieces@[i as int]@);
        let ghost before = r@;
        match find_position(tags, &pieces[i]) {
            Some(q) => {
                r.push(q);
                assert(r@ =~= before + seq![q]);
            },
            None => {},
        }
        i += 1;
    }
    assert(pv.take(pieces.len() as int) =~= pv);
    r
}

// ---------------------------------------------------------------------------
// Ids
/// The id of the first pair with url `url`.
pub open spec fn lookup_id(pairs: Seq<(u64, Seq<char>)>, url: Seq<char>) -> Option<u64>
    decreases pairs.len(),
{
    if pairs.len() == 0 {
        None
    } else {
        match lookup_id(pairs.drop_last(), url) {
            Some(i) => Some(i),
            None => if pairs.last().1 == url {
                Some(pairs.last().0)
            } else {
                None
            },
        }
    }
}

/// The largest id among the pairs.
pub open spec fn max_id(pairs: Seq<(u64, Seq<char>)>) -> Option<u64>
    decreases pairs.len(),
{
    if pairs.len() == 0 {
        None
    } else {
        match max_id(pairs.drop_last()) {
            None => Some(pairs.last().0),
            Some(m) => Some(
                if pairs.last().0 > m {
                    pairs.last().0
                } else {
                    m
                },
            ),
        }
    }
}

/// The id a url gets: the id it already has, else one more than the
/// largest id, else 0.
pub open spec fn next_id(pairs: Seq<(u64, Seq<char>)>, url: Seq<char>) -> int {
    match lookup_id(pairs, url) {
        Some(i) => i as int,
        None => match max_id(pairs) {
            Some(m) => m + 1,
            None => 0,
        },
    }
}

pub open spec fn zip_ids(ids: Seq<u64>, urls: Seq<Seq<char>>) -> Seq<(u64, Seq<char>)> {
    Seq::new(ids.len(), |i: int| (ids[i], urls[i]))
}

/// The ids given to `urls` one after the other, each url's pair joining the
/// known pairs; `None` where an id would exceed `u64::MAX`.
pub open spec fn assign_ids(pairs: Seq<(u64, Seq<char>)>, urls: Seq<Seq<char>>) -> Option<Seq<u64>>
    decreases urls.len(),
{
    if urls.len() == 0 {
        Some(seq![])
    } else {
        match assign_ids(pairs, urls.drop_last()) {
            None => None,
            Some(prev) => {
                let id = next_id(pairs + zip_ids(prev, urls.drop_last()), urls.last());
                if id > u64::MAX {
                    None
                } else {
                    Some(prev.push(id as u64))
                }
            },
        }
    }
}

proof fn lemma_assign_ids_len(pairs: Seq<(u64, Seq<char>)>, urls: Seq<Seq<char>>)
    ensures
        assign_ids(pairs, urls) matches Some(ids) ==> ids.len() == urls.len(),
    decreases urls.len(),
{
    if urls.len() > 0 {
        lemma_assign_ids_len(pairs, urls.drop_last());
    }
}

fn url_eq(pair: &UrlIDPair, url: &Vec<char>) -> (b: bool)
    ensures
        b == (pair.url@ == url@),
{
    let cs = chars_of(pair.url.as_str());
    chars_equal(&cs, url)
}

fn compute_next_id(pairs: &Vec<UrlIDPair>, url: &Vec<char>) -> (id: Option<u64>)
    ensures
        match id {
            Some(i) => next_id(pair_seq_view(pairs@), url@) == i as int,
            None => next_id(pair_seq_view(pairs@), url@) > u64::MAX,
        },
{
    let ghost pv = pair_seq_view(pairs@);
    let mut found: Option<u64> = None;
    let mut max: Option<u64> = None;
    let mut i: usize = 0;
    while i < pairs.len()
        invariant
            pv == pair_seq_view(pairs@),
            i <= pairs.len(),
            found == lookup_id(pv.take(i as int), url@),
            max == max_id(pv.take(i as int)),
        decreases pairs.len() - i,
    {
        assert(pv.take(i + 1).drop_last() =~= pv.take(i as int));
        assert(pv.take(i + 1).last() == pairs@[i as int]@);
        if found.is_none() && url_eq(&pairs[i], url) {
            found = Some(pairs[i].id);
        }
        let p = pairs[i].id;
        max = match max {
            None => Some(p),
            Some(m) => Some(if p > m { p } else { m }),
        };
        i += 1;
    }
    assert(pv.take(pairs.len() as int) =~= pv);
    match found {
        Some(f) => Some(f),
        None => match max {
            Some(m) => if m < u64::MAX {
                Some(m + 1)
            } else {
                None
            },
            None => Some(0),
        },
    }
}

// ---------------------------------------------------------------------------
// Websites from markdown files
/// A markdown file of the wiki.
pub struct MarkdownFile {
    pub path: String,
    pub content: String,
}

/// The links of the files in order: title, url and the index of the file.
pub open spec fn found_links(files: Seq<MarkdownFile>) -> Seq<(Seq<char>, Seq<char>, int)>
    decreases files.len(),
{
    if files.len() == 0 {
        seq![]
    } else {
        let k = files.len() - 1;
        found_links(files.drop_last()) + markdown_links(files.last().content@)->0.map_values(
            |l: (Seq<char>, Seq<char>)| (l.0, l.1, k),
        )
    }
}

pub open spec fn link_urls(links: Seq<(Seq<char>, Seq<char>, int)>) -> Seq<Seq<char>> {
    links.map_values(|l: (Seq<char>, Seq<char>, int)| l.1)
}

/// The markdown of every file can be scanned.
pub open spec fn scannable(files: Seq<MarkdownFile>) -> bool {
    forall|i: int| 0 <= i < files.len() ==> markdown_links(#[trigger] files[i].content@) is Some
}

struct FoundLink {
    title: String,
    url: String,
    file: usize,
}

spec fn found_views(v: Seq<FoundLink>) -> Seq<(Seq<char>, Seq<char>, int)> {
    v.map_values(|l: FoundLink| (l.title@, l.url@, l.file as int))
}

fn collect_links(files: &Vec<MarkdownFile>) -> (links: Vec<FoundLink>)
    requires
        scannable(files@),
    ensures
        found_views(links@) == found_links(files@),
        forall|i: int| 0 <= i < links.len() ==> #[trigger] links@[i].file < files.len(),
{
    let mut links: Vec<FoundLink> = Vec::new();
    let mut i: usize = 0;
    while i < files.len()
        invariant
            scannable(files@),
            i <= files.len(),
            found_views(links@) == found_links(files@.take(i as int)),
            forall|q: int| 0 <= q < links.len() ==> #[trigger] links@[q].file < i,
        decreases files.len() - i,
    {
        assert(markdown_links(files@[i as int].content@) is Some);
        let pairs = extract_titles_and_urls(files[i].content.as_str());
        let ghost ml = markdown_links(files@[i as int].content@)->0;
        let ghost base = found_views(links@);
        let mut k: usize = 0;
        while k < pairs.len()
            invariant
                pair_views(pairs@) == ml,
                i < files.len(),
                k <= pairs.len(),
                found_views(links@) == base + ml.take(k as int).map_values(
                    |l: (Seq<char>, Seq<char>)| (l.0, l.1, i as int),
                ),
                forall|q: int| 0 <= q < links.len() ==> #[trigger] links@[q].file <= i,
            decreases pairs.len() - k,
        {
            let (title, url) = pairs[k];
            let ghost before = found_views(links@);
            links.push(FoundLink { title: title.to_owned(), url: url.to_owned(), file: i });
            assert(ml[k as int] == (title@, url@));
            assert(found_views(links@) =~= before.push((title@, url@, i as int)));
            assert(ml.take(k + 1) =~= ml.take(k as int).push(ml[k as int]));
            assert(ml.take(k + 1).map_values(|l: (Seq<char>, Seq<char>)| (l.0, l.1, i as int))
                =~= ml.take(k as int).map_values(
                |l: (Seq<char>, Seq<char>)| (l.0, l.1, i as int),
            ).push((title@, url@, i as int)));
            k += 1;
        }
        proof {
            assert(ml.take(pairs.len() as int) =~= ml);
            let t = files@.take(i + 1);
            assert(t.drop_last() =~= files@.take(i as int));
            assert(t.last() == files@[i as int]);
        }
        i += 1;
    }
    assert(files@.take(files.len() as int) =~= files@);
    links
}

fn all_scannable(files: &Vec<MarkdownFile>) -> (b: bool)
    ensures
        b == scannable(files@),
{
    let mut i: usize = 0;
    while i < files.len()
        invariant
            i <= files.len(),
            forall|q: int| 0 <= q < i ==> markdown_links(#[trigger] files@[q].content@) is Some,
        decreases files.len() - i,
    {
        if scan_links(files[i].content.as_str()).is_none() {
            return false;
        }
        i += 1;
    }
    true
}

proof fn lemma_assign_none_prefix(pairs: Seq<(u64, Seq<char>)>, urls: Seq<Seq<char>>, k: int)
    requires
        0 <= k <= urls.len(),
        assign_ids(pairs, urls.take(k)) is None,
    ensures
        assign_ids(pairs, urls) is None,
    decreases urls.len() - k,
{
    if k == urls.len() {
        assert(urls.take(k) =~= urls);
    } else {
        assert(urls.take(k + 1).drop_last() =~= urls.take(k));
        lemma_assign_none_prefix(pairs, urls, k + 1);
    }
}

/// The website found as the `k`-th link, given the ids and the tags.
pub open spec fn website_matches(
    w: ExtractedWebsite,
    files: Seq<MarkdownFile>,
    link: (Seq<char>, Seq<char>, int),
    id: u64,
    tags: Seq<Seq<char>>,
) -> bool {
    &&& w.id == id
    &&& w.title@ == link.0
    &&& w.url@ == link.1
    &&& w.tags@ == tag_indexes(files[link.2].path@, tags)
}

/// The websites linked from the markdown files, in order of files and of
/// links. A website keeps the id its url has in `downloaded_websites` (or
/// got from an earlier link); a new url gets one more than the largest id
/// so far, or 0. Its tags are the indexes in `tags` of the pieces of its
/// file's path.
pub fn extract_links(
    files: &Vec<MarkdownFile>,
    downloaded_websites: Vec<UrlIDPair>,
    tags: &Vec<String>,
) -> (websites: Option<Vec<ExtractedWebsite>>)
    ensures
        websites is Some <==> scannable(files@) && assign_ids(
            pair_seq_view(downloaded_websites@),
            link_urls(found_links(files@)),
        ) is Some,
        websites matches Some(ws) ==> ws.len() == found_links(files@).len() && forall|k: int|
            0 <= k < ws.len() ==> website_matches(
                #[trigger] ws@[k],
                files@,
                found_links(files@)[k],
                assign_ids(pair_seq_view(downloaded_websites@), link_urls(found_links(files@)))->0[k],
                string_views(tags@),
            ),
{
    if !all_scannable(files) {
        return None;
    }
    let links = collect_links(files);
    let ghost lv = found_links(files@);
    let ghost urls = link_urls(lv);
    let ghost pairs0 = pair_seq_view(downloaded_websites@);
    let mut tag_chars: Vec<Vec<char>> = Vec::new();
    let mut t: usize = 0;
    while t < tags.len()
        invariant
            t <= tags.len(),
            char_vec_views(tag_chars@) == string_views(tags@).take(t as int),
        decreases tags.len() - t,
    {
        let ghost before = char_vec_views(tag_chars@);
        tag_chars.push(chars_of(tags[t].as_str()));
        assert(char_vec_views(tag_chars@) =~= before.push(tags@[t as int]@));
        assert(string_views(tags@).take(t + 1) =~= string_views(tags@).take(t as int).push(
            tags@[t as int]@,
        ));
        t += 1;
    }
    assert(string_views(tags@).take(tags.len() as int) =~= string_views(tags@));
    let mut downloaded = downloaded_websites;
    let mut websites: Vec<ExtractedWebsite> = Vec::new();
    let ghost mut ids: Seq<u64> = seq![];
    let mut k: usize = 0;
    assert(urls.take(0) =~= Seq::<Seq<char>>::empty());
    assert(zip_ids(ids, urls.take(0)) =~= Seq::<(u64, Seq<char>)>::empty());
    assert(pair_seq_view(downloaded@) =~= pairs0 + zip_ids(ids, urls.take(0)));
    while k < links.len()
        invariant
            found_views(links@) == lv,
            lv == found_links(files@),
            urls == link_urls(lv),
            urls.len() == links.len(),
            scannable(files@),
            pairs0 == pair_seq_view(downloaded_websites@),
            forall|i: int| 0 <= i < links.len() ==> #[trigger] links@[i].file < files.len(),
            char_vec_views(tag_chars@) == string_views(tags@),
            k <= links.len(),
            assign_ids(pairs0, urls.take(k as int)) == Some(ids),
            ids.len() == k,
            pair_seq_view(downloaded@) == pairs0 + zip_ids(ids, urls.take(k as int)),
            websites.len() == k,
            forall|q: int|
                0 <= q < k ==> website_matches(
                    #[trigger] websites@[q],
                    files@,
                    lv[q],
                    ids[q],
                    string_views(tags@),
                ),
        decreases links.len() - k,
    {
        let link = &links[k];
        let url_chars = chars_of(link.url.as_str());
        let ghost prefix = urls.take(k + 1);
        proof {
            assert(prefix.drop_last() =~= urls.take(k as int));
            assert(lv[k as int] == (links@[k as int].title@, links@[k as int].url@, links@[
                k as int
            ].file as int));
            assert(urls[k as int] == lv[k as int].1);
            assert(prefix.last() == url_chars@);
        }
        let id = match compute_next_id(&downloaded, &url_chars) {
            Some(i) => i,
            None => {
                proof {
                    assert(pair_seq_view(downloaded@) == pairs0 + zip_ids(ids, prefix.drop_last()));
                    assert(assign_ids(pairs0, prefix.drop_last()) == Some(ids));
                    assert(assign_ids(pairs0, prefix) is None);
                    lemma_assign_none_prefix(pairs0, urls, k + 1);
                }
                return None;
            },
        };
        let ghost before = pair_seq_view(downloaded@);
        downloaded.push(UrlIDPair { id, url: link.url.clone() });
        let tag_idx = tag_indexes_of(files[link.file].path.as_str(), &tag_chars);
        websites.push(ExtractedWebsite {
            id,
            title: link.title.clone(),
            url: link.url.clone(),
            tags: tag_idx,
        });
        proof {
            let old_ids = ids;
            ids = ids.push(id);
            assert(assign_ids(pairs0, prefix) == Some(ids));
            assert(lv[k as int].2 == links@[k as int].file as int);
            assert(website_matches(websites@[k as int], files@, lv[k as int], ids[k as int], string_views(tags@)));
            assert forall|q: int| 0 <= q < k + 1 implies website_matches(
                #[trigger] websites@[q],
                files@,
                lv[q],
                ids[q],
                string_views(tags@),
            ) by {
                if q < k {
                    assert(ids[q] == old_ids[q]);
                }
            }
            assert(pair_seq_view(downloaded@) =~= before.push((id, link.url@)));
            assert(zip_ids(ids, urls.take(k + 1)) =~= zip_ids(old_ids, urls.take(
                k as int,
            )).push((id, link.url@)));
            assert(pair_seq_view(downloaded@) =~= pairs0 + zip_ids(ids, urls.take(k + 1)));
        }
        k += 1;
    }
    assert(urls.take(links.len() as int) =~= urls);
    Some(websites)
}

proof fn lemma_assign_prefix(pairs: Seq<(u64, Seq<char>)>, urls: Seq<Seq<char>>, k: int)
    requires
        0 <= k <= urls.len(),
        assign_ids(pairs, urls) is Some,
    ensures
        assign_ids(pairs, urls.take(k)) == Some(assign_ids(pairs, urls)->0.take(k)),
    decreases urls.len() - k,
{
    lemma_assign_ids_len(pairs, urls);
    if k == urls.len() {
        assert(urls.take(k) =~= urls);
        assert(assign_ids(pairs, urls)->0.take(k) =~= assign_ids(pairs, urls)->0);
    } else {
        lemma_assign_prefix(pairs, urls, k + 1);
        let t = urls.take(k + 1);
        assert(t.drop_last() =~= urls.take(k));
        lemma_assign_ids_len(pairs, t);
        assert(assign_ids(pairs, urls)->0.take(k + 1).drop_last() =~= assign_ids(
            pairs,
            urls,
        )->0.take(k));
    }
}

// ---------------------------------------------------------------------------
// Laws of id assignment
proof fn lemma_lookup_prefix(s: Seq<(u64, Seq<char>)>, t: Seq<(u64, Seq<char>)>, url: Seq<char>)
    requires
        s.len() <= t.len(),
        t.take(s.len() as int) == s,
        lookup_id(s, url) is Some,
    ensures
        lookup_id(t, url) == lookup_id(s, url),
    decreases t.len(),
{
    if t.len() > s.len() {
        assert(t.drop_last().take(s.len() as int) =~= s);
        lemma_lookup_prefix(s, t.drop_last(), url);
    } else {
        assert(t =~= s);
    }
}

proof fn lemma_lookup_pushed(s: Seq<(u64, Seq<char>)>, id: u64, url: Seq<char>)
    requires
        lookup_id(s, url) is None,
    ensures
        lookup_id(s.push((id, url)), url) == Some(id),
{
    assert(s.push((id, url)).drop_last() =~= s);
}

/// The pairs known when the `k`-th url gets its id.
pub open spec fn known_pairs(pairs: Seq<(u64, Seq<char>)>, urls: Seq<Seq<char>>, ids: Seq<u64>, k: int) -> Seq<(u64, Seq<char>)> {
    pairs + zip_ids(ids.take(k), urls.take(k))
}

proof fn lemma_assigned_id(pairs: Seq<(u64, Seq<char>)>, urls: Seq<Seq<char>>, k: int)
    requires
        0 <= k < urls.len(),
        assign_ids(pairs, urls) is Some,
    ensures
        assign_ids(pairs, urls)->0.len() == urls.len(),
        assign_ids(pairs, urls)->0[k] as int == next_id(
            known_pairs(pairs, urls, assign_ids(pairs, urls)->0, k),
            urls[k],
        ),
{
    let ids = assign_ids(pairs, urls)->0;
    lemma_assign_ids_len(pairs, urls);
    lemma_assign_prefix(pairs, urls, k + 1);
    lemma_assign_prefix(pairs, urls, k);
    let t = urls.take(k + 1);
    assert(t.drop_last() =~= urls.take(k));
    assert(ids.take(k + 1).drop_last() =~= ids.take(k));
    assert(ids.take(k + 1)[k] == ids[k]);
}

/// A url that `downloaded_websites` already holds keeps the id of its first
/// pair there.
pub proof fn lemma_known_url_keeps_id(pairs: Seq<(u64, Seq<char>)>, urls: Seq<Seq<char>>, k: int)
    requires
        0 <= k < urls.len(),
        assign_ids(pairs, urls) is Some,
        lookup_id(pairs, urls[k]) is Some,
    ensures
        assign_ids(pairs, urls)->0[k] == lookup_id(pairs, urls[k])->0,
{
    let ids = assign_ids(pairs, urls)->0;
    lemma_assigned_id(pairs, urls, k);
    let known = known_pairs(pairs, urls, ids, k);
    assert(known.take(pairs.len() as int) =~= pairs);
    lemma_lookup_prefix(pairs, known, urls[k]);
}

/// Links with the same url get the same id.
pub proof fn lemma_same_url_same_id(pairs: Seq<(u64, Seq<char>)>, urls: Seq<Seq<char>>, k: int, m: int)
    requires
        0 <= k < m < urls.len(),
        urls[k] == urls[m],
        assign_ids(pairs, urls) is Some,
    ensures
        assign_ids(pairs, urls)->0[k] == assign_ids(pairs, urls)->0[m],
{
    let ids = assign_ids(pairs, urls)->0;
    let u = urls[k];
    lemma_assigned_id(pairs, urls, k);
    lemma_assigned_id(pairs, urls, m);
    let sk = known_pairs(pairs, urls, ids, k);
    let sm = known_pairs(pairs, urls, ids, m);
    let sk1 = sk.push((ids[k], u));
    assert(sm.take(sk1.len() as int) =~= sk1) by {
        assert forall|i: int| 0 <= i < sk1.len() implies sm.take(sk1.len() as int)[i] == sk1[i] by {
            if i >= pairs.len() {
                let q = i - pairs.len();
                assert(zip_ids(ids.take(m), urls.take(m))[q] == (ids[q], urls[q]));
                if q < k {
                    assert(zip_ids(ids.take(k), urls.take(k))[q] == (ids[q], urls[q]));
                }
            }
        }
    }
    if lookup_id(sk, u) is Some {
        assert(sk1.take(sk.len() as int) =~= sk);
        lemma_lookup_prefix(sk, sk1, u);
        lemma_lookup_prefix(sk1, sm, u);
    } else {
        lemma_lookup_pushed(sk, ids[k], u);
        lemma_lookup_prefix(sk1, sm, u);
    }
}


/// No id of `pairs` stands for two urls.
pub open spec fn ids_identify_urls(pairs: Seq<(u64, Seq<char>)>) -> bool {
    forall|i: int, j: int|
        0 <= i < pairs.len() && 0 <= j < pairs.len() && #[trigger] pairs[i].0 == #[trigger] pairs[j].0
            ==> pairs[i].1 == pairs[j].1
}

proof fn lemma_lookup_found(s: Seq<(u64, Seq<char>)>, url: Seq<char>)
    ensures
        lookup_id(s, url) matches Some(i) ==> exists|p: int|
            0 <= p < s.len() && #[trigger] s[p] == (i, url),
    decreases s.len(),
{
    if s.len() > 0 {
        lemma_lookup_found(s.drop_last(), url);
        if let Some(i) = lookup_id(s.drop_last(), url) {
            let p = choose|p: int| 0 <= p < s.drop_last().len() && #[trigger] s.drop_last()[p] == (i, url);
            assert(s[p] == (i, url));
        } else if s.last().1 == url {
            assert(s[s.len() - 1] == (s.last().0, url));
        }
    }
}

proof fn lemma_max_bound(s: Seq<(u64, Seq<char>)>)
    ensures
        max_id(s) matches Some(m) ==> forall|q: int| 0 <= q < s.len() ==> #[trigger] s[q].0 <= m,
        max_id(s) is None ==> s.len() == 0,
    decreases s.len(),
{
    if s.len() > 0 {
        lemma_max_bound(s.drop_last());
        assert forall|q: int| 0 <= q < s.len() - 1 implies #[trigger] s[q] == s.drop_last()[q] by {}
    }
}

proof fn lemma_known_pairs_identify(pairs: Seq<(u64, Seq<char>)>, urls: Seq<Seq<char>>, j: int)
    requires
        0 <= j <= urls.len(),
        assign_ids(pairs, urls) is Some,
        ids_identify_urls(pairs),
    ensures
        ids_identify_urls(known_pairs(pairs, urls, assign_ids(pairs, urls)->0, j)),
    decreases j,
{
    let ids = assign_ids(pairs, urls)->0;
    lemma_assign_ids_len(pairs, urls);
    if j == 0 {
        assert(known_pairs(pairs, urls, ids, 0) =~= pairs);
    } else {
        let k = j - 1;
        lemma_known_pairs_identify(pairs, urls, k);
        lemma_assigned_id(pairs, urls, k);
        let before = known_pairs(pairs, urls, ids, k);
        let after = known_pairs(pairs, urls, ids, j);
        assert(after =~= before.push((ids[k], urls[k])));
        let n = before.len() as int;
        lemma_lookup_found(before, urls[k]);
        lemma_max_bound(before);
        assert forall|a: int, b: int|
            0 <= a < after.len() && 0 <= b < after.len() && #[trigger] after[a].0
                == #[trigger] after[b].0 implies after[a].1 == after[b].1 by {
            if a < n && b < n {
                assert(after[a] == before[a]);
                assert(after[b] == before[b]);
            } else if a != b {
                let q = if a < n { a } else { b };
                assert(after[q] == before[q]);
                assert(after[n] == (ids[k], urls[k]));
                match lookup_id(before, urls[k]) {
                    Some(i) => {
                        let p = choose|p: int| 0 <= p < before.len() && #[trigger] before[p] == (i, urls[k]);
                        assert(before[p].0 == before[q].0);
                    },
                    None => {
                        assert(before[q].0 <= max_id(before)->0);
                    },
                }
            }
        }
    }
}

/// When the known pairs give no id to two urls, links to different urls
/// get different ids.
pub proof fn lemma_different_urls_different_ids(
    pairs: Seq<(u64, Seq<char>)>,
    urls: Seq<Seq<char>>,
    k: int,
    m: int,
)
    requires
        0 <= k < urls.len(),
        0 <= m < urls.len(),
        urls[k] != urls[m],
        assign_ids(pairs, urls) is Some,
        ids_identify_urls(pairs),
    ensures
        assign_ids(pairs, urls)->0[k] != assign_ids(pairs, urls)->0[m],
{
    let ids = assign_ids(pairs, urls)->0;
    lemma_assign_ids_len(pairs, urls);
    lemma_known_pairs_identify(pairs, urls, urls.len() as int);
    let all = known_pairs(pairs, urls, ids, urls.len() as int);
    let n = pairs.len() as int;
    assert(all[n + k] == (ids[k], urls[k]));
    assert(all[n + m] == (ids[m], urls[m]));
    if ids[k] == ids[m] {
        assert(all[n + k].0 == all[n + m].0);
        assert(all[n + k].1 == all[n + m].1);
    }
}

} // verus!
