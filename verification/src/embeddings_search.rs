//! The parts of the semantic search that do not rank by similarity: which
//! websites take part, and the word chunks their texts are embedded in.
use vstd::prelude::*;
use vstd::string::StrSliceExecFns;
use crate::text::{bounded_pieces, chars_of, word_bounds, words};

verus! {

/// `s` cut into pieces of `n` elements, the last one possibly shorter
/// (`slice::chunks`).
pub open spec fn chunks<A>(s: Seq<A>, n: nat) -> Seq<Seq<A>>
    decreases s.len(),
{
    if s.len() == 0 || n == 0 {
        seq![]
    } else if s.len() <= n {
        seq![s]
    } else {
        seq![s.take(n as int)] + chunks(s.skip(n as int), n)
    }
}

pub open spec fn str_views(v: Seq<&str>) -> Seq<Seq<char>> {
    v.map_values(|s: &str| s@)
}

/// The words of `content` in groups of `chunk_size`.
pub fn get_word_chunks(content: &str, chunk_size: usize) -> (groups: Vec<Vec<&str>>)
    requires
        chunk_size > 0,
    ensures
        groups.len() == chunks(words(content@), chunk_size as nat).len(),
        forall|i: int|
            0 <= i < groups.len() ==> str_views(#[trigger] groups@[i]@) == chunks(
                words(content@),
                chunk_size as nat,
            )[i],
{
    let cs = chars_of(content);
    let bounds = word_bounds(&cs);
    let ghost ws = words(content@);
    let n = bounds.len();
    let mut groups: Vec<Vec<&str>> = Vec::new();
    let mut i: usize = 0;
    assert(ws.skip(0) =~= ws);
    while i < n
        invariant
            cs@ == content@,
            n == bounds.len(),
            bounded_pieces(cs@, bounds@) == ws,
            forall|q: int| 0 <= q < bounds.len() ==> #[trigger] bounds@[q].0 <= bounds@[q].1
                <= cs.len(),
            chunk_size > 0,
            i <= n,
            forall|q: int|
                0 <= q < groups.len() ==> str_views(#[trigger] groups@[q]@) == chunks(
                    ws,
                    chunk_size as nat,
                )[q],
            groups.len() + chunks(ws.skip(i as int), chunk_size as nat).len() == chunks(
                ws,
                chunk_size as nat,
            ).len(),
            forall|q: int|
                0 <= q < chunks(ws.skip(i as int), chunk_size as nat).len() ==> chunks(
                    ws.skip(i as int),
                    chunk_size as nat,
                )[q] == chunks(ws, chunk_size as nat)[groups.len() + q],
        decreases n - i,
    {
        let ghost rest = ws.skip(i as int);
        let end = if n - i <= chunk_size {
            n
        } else {
            i + chunk_size
        };
        let mut group: Vec<&str> = Vec::new();
        let mut k = i;
        while k < end
            invariant
                cs@ == content@,
                n == bounds.len(),
                bounded_pieces(cs@, bounds@) == ws,
                forall|q: int| 0 <= q < bounds.len() ==> #[trigger] bounds@[q].0 <= bounds@[q].1
                    <= cs.len(),
                i <= k <= end <= n,
                str_views(group@) == ws.subrange(i as int, k as int),
            decreases end - k,
        {
            let (a, b) = bounds[k];
            let w = content.substring_char(a, b);
            let ghost before = str_views(group@);
            group.push(w);
            assert(str_views(group@) =~= before.push(ws[k as int]));
            k += 1;
            assert(str_views(group@) =~= ws.subrange(i as int, k as int));
        }
        proof {
            let c = chunks(rest, chunk_size as nat);
            if n - i <= chunk_size {
                assert(ws.subrange(i as int, n as int) =~= rest);
                assert(c =~= seq![rest]);
                assert(ws.skip(n as int) =~= Seq::<Seq<char>>::empty());
            } else {
                assert(ws.subrange(i as int, end as int) =~= rest.take(chunk_size as int));
                assert(rest.skip(chunk_size as int) =~= ws.skip(end as int));
                assert(c == seq![rest.take(chunk_size as int)] + chunks(ws.skip(end as int), chunk_size as nat));
                assert forall|q: int| 0 <= q < chunks(ws.skip(end as int), chunk_size as nat).len() implies chunks(
                    ws.skip(end as int),
                    chunk_size as nat,
                )[q] == chunks(ws, chunk_size as nat)[groups.len() + 1 + q] by {
                    assert(c[q + 1] == chunks(ws.skip(end as int), chunk_size as nat)[q]);
                }
            }
            assert(c[0] == ws.subrange(i as int, end as int));
        }
        groups.push(group);
        i = end;
    }
    groups
}

/// What the selection needs of a website: its id, its tags and how many
/// embeddings it has.
pub struct WebsiteSummary {
    pub id: u64,
    pub tags: Vec<i32>,
    pub embedding_count: usize,
}

/// The website carries at least one tag of the filter.
pub open spec fn has_any_tag(tags: Seq<i32>, filter: Seq<i32>) -> bool {
    exists|i: int| 0 <= i < filter.len() && tags.contains(#[trigger] filter[i])
}

/// A website takes part: the filter is empty or it carries one of its tags,
/// and it has at least one embedding.
pub open spec fn takes_part(w: WebsiteSummary, filter: Seq<i32>) -> bool {
    (filter.len() == 0 || has_any_tag(w.tags@, filter)) && w.embedding_count > 0
}

/// Some selected website has id `id`.
pub open spec fn id_selected(websites: Seq<WebsiteSummary>, selected: Seq<usize>, id: u64) -> bool {
    exists|j: int| 0 <= j < selected.len() && websites[#[trigger] selected[j] as int].id == id
}

/// The indexes of the websites that take part, each id only with its first
/// website, in order.
pub open spec fn selected_websites(websites: Seq<WebsiteSummary>, filter: Seq<i32>) -> Seq<usize>
    decreases websites.len(),
{
    if websites.len() == 0 {
        seq![]
    } else {
        let prev = selected_websites(websites.drop_last(), filter);
        let w = websites.last();
        if takes_part(w, filter) && !id_selected(websites.drop_last(), prev, w.id) {
            prev.push((websites.len() - 1) as usize)
        } else {
            prev
        }
    }
}

proof fn lemma_selected_bounded(websites: Seq<WebsiteSummary>, filter: Seq<i32>)
    ensures
        forall|j: int|
            0 <= j < selected_websites(websites, filter).len() ==> #[trigger] selected_websites(
                websites,
                filter,
            )[j] < websites.len(),
    decreases websites.len(),
{
    if websites.len() > 0 {
        lemma_selected_bounded(websites.drop_last(), filter);
        let prev = selected_websites(websites.drop_last(), filter);
        assert forall|j: int| 0 <= j < prev.len() implies #[trigger] prev[j] < websites.len() by {
            assert(prev[j] < websites.drop_last().len());
        }
    }
}

/// A website with embeddings that carries some tag of the filter (any tag
/// when the filter is empty), and whose id no earlier website has, is
/// selected; and every selected website has embeddings and carries some tag
/// of the filter (when the filter is not empty).
pub proof fn lemma_selection(websites: Seq<WebsiteSummary>, filter: Seq<i32>)
    requires
        websites.len() <= usize::MAX,
    ensures
        forall|j: int|
            0 <= j < websites.len() && websites[j].embedding_count > 0 && (filter.len() == 0
                || exists|i: int| 0 <= i < filter.len() && websites[j].tags@.contains(#[trigger] filter[i]))
                && (forall|k: int| 0 <= k < j ==> #[trigger] websites[k].id != websites[j].id)
                ==> selected_websites(websites, filter).contains(j as usize),
        forall|q: int|
            0 <= q < selected_websites(websites, filter).len() ==> {
                let w = websites[#[trigger] selected_websites(websites, filter)[q] as int];
                &&& w.embedding_count > 0
                &&& (filter.len() == 0 || exists|i: int|
                    0 <= i < filter.len() && w.tags@.contains(#[trigger] filter[i]))
            },
    decreases websites.len(),
{
    if websites.len() > 0 {
        let n = websites.len() as int;
        let p = websites.drop_last();
        lemma_selection(p, filter);
        lemma_selected_bounded(p, filter);
        let prev = selected_websites(p, filter);
        let sel = selected_websites(websites, filter);
        let last = websites.last();
        assert(websites[n - 1] == last);
        assert forall|x: usize| prev.contains(x) implies sel.contains(x) by {
            let q = choose|q: int| 0 <= q < prev.len() && prev[q] == x;
            if sel != prev {
                assert(sel == prev.push((n - 1) as usize));
                assert(sel[q] == x);
            }
        }
        assert forall|j: int|
            0 <= j < websites.len() && websites[j].embedding_count > 0 && (filter.len() == 0
                || exists|i: int| 0 <= i < filter.len() && websites[j].tags@.contains(#[trigger] filter[i]))
                && (forall|k: int| 0 <= k < j ==> #[trigger] websites[k].id != websites[j].id)
            implies sel.contains(j as usize) by {
            if j < n - 1 {
                assert(p[j] == websites[j]);
                assert forall|k: int| 0 <= k < j implies #[trigger] p[k].id != p[j].id by {
                    assert(p[k] == websites[k]);
                }
                assert(prev.contains(j as usize));
            } else {
                assert(takes_part(last, filter));
                if id_selected(p, prev, last.id) {
                    let q = choose|q: int| 0 <= q < prev.len() && p[#[trigger] prev[q] as int].id == last.id;
                    let k = prev[q] as int;
                    assert(k < n - 1);
                    assert(p[k] == websites[k]);
                    assert(websites[k].id != websites[j].id);
                }
                assert(sel == prev.push((n - 1) as usize));
                assert(sel[prev.len() as int] == (n - 1) as usize);
            }
        }
        let grew = takes_part(last, filter) && !id_selected(p, prev, last.id);
        if grew {
            assert(sel == prev.push((n - 1) as usize));
        } else {
            assert(sel == prev);
        }
        assert forall|q: int| 0 <= q < sel.len() implies {
            let w = websites[#[trigger] sel[q] as int];
            &&& w.embedding_count > 0
            &&& (filter.len() == 0 || exists|i: int|
                0 <= i < filter.len() && w.tags@.contains(#[trigger] filter[i]))
        } by {
            if q < prev.len() {
                assert(sel[q] == prev[q]);
                let x = prev[q] as int;
                assert(x < p.len());
                assert(p[x] == websites[x]);
                assert(p[x].embedding_count > 0);
                assert(filter.len() == 0 || exists|i: int|
                    0 <= i < filter.len() && p[x].tags@.contains(#[trigger] filter[i]));
            } else {
                assert(sel[q] == (n - 1) as usize);
                assert(takes_part(last, filter));
                assert(filter.len() == 0 || has_any_tag(last.tags@, filter));
                assert(filter.len() == 0 || exists|i: int|
                    0 <= i < filter.len() && last.tags@.contains(#[trigger] filter[i]));
            }
        }
    }
}

fn carries_any_tag(tags: &Vec<i32>, filter: &Vec<i32>) -> (b: bool)
    ensures
        b == has_any_tag(tags@, filter@),
{
    let mut i: usize = 0;
    while i < filter.len()
        invariant
            i <= filter.len(),
            forall|q: int| 0 <= q < i ==> !tags@.contains(#[trigger] filter@[q]),
        decreases filter.len() - i,
    {
        let f = filter[i];
        let mut j: usize = 0;
        while j < tags.len()
            invariant
                i < filter.len(),
                f == filter@[i as int],
                j <= tags.len(),
                forall|q: int| 0 <= q < j ==> tags@[q] != f,
            decreases tags.len() - j,
        {
            if tags[j] == f {
                assert(tags@[j as int] == filter@[i as int]);
                assert(tags@.contains(filter@[i as int]));
                return true;
            }
            j += 1;
        }
        assert(!tags@.contains(filter@[i as int]));
        i += 1;
    }
    false
}

/// The websites whose similarity to the query is computed.
pub fn select_websites(websites: &Vec<WebsiteSummary>, filter_by_tags: &Vec<i32>) -> (selected:
    Vec<usize>)
    ensures
        selected@ == selected_websites(websites@, filter_by_tags@),
        forall|j: int|
            0 <= j < websites.len() && websites@[j].embedding_count > 0 && (filter_by_tags.len()
                == 0 || exists|i: int|
                0 <= i < filter_by_tags.len() && websites@[j].tags@.contains(
                    #[trigger] filter_by_tags@[i],
                )) && (forall|k: int| 0 <= k < j ==> #[trigger] websites@[k].id != websites@[j].id)
                ==> selected@.contains(j as usize),
        forall|q: int|
            0 <= q < selected.len() ==> websites@[#[trigger] selected@[q] as int].embedding_count > 0
                && (filter_by_tags.len() == 0 || exists|i: int|
                0 <= i < filter_by_tags.len() && websites@[selected@[q] as int].tags@.contains(
                    #[trigger] filter_by_tags@[i],
                )),
{
    let mut selected: Vec<usize> = Vec::new();
    let mut i: usize = 0;
    while i < websites.len()
        invariant
            i <= websites.len(),
            selected@ == selected_websites(websites@.take(i as int), filter_by_tags@),
        decreases websites.len() - i,
    {
        let ghost t = websites@.take(i + 1);
        assert(t.drop_last() =~= websites@.take(i as int));
        assert(t.last() == websites@[i as int]);
        proof {
            lemma_selected_bounded(websites@.take(i as int), filter_by_tags@);
        }
        let w = &websites[i];
        let part = (filter_by_tags.len() == 0 || carries_any_tag(&w.tags, filter_by_tags))
            && w.embedding_count > 0;
        if part {
            let mut seen = false;
            let mut j: usize = 0;
            while j < selected.len()
                invariant
                    i < websites.len(),
                    j <= selected.len(),
                    forall|q: int| 0 <= q < selected.len() ==> #[trigger] selected@[q] < i,
                    seen == exists|q: int|
                        0 <= q < j && websites@[#[trigger] selected@[q] as int].id == websites@[i as int].id,
                decreases selected.len() - j,
            {
                let same = websites[selected[j]].id == websites[i].id;
                proof {
                    if same {
                        assert(websites@[selected@[j as int] as int].id == websites@[i as int].id);
                    } else {
                        assert forall|q: int|
                            0 <= q < j + 1 && websites@[#[trigger] selected@[q] as int].id
                                == websites@[i as int].id implies q < j by {}
                    }
                }
                if same {
                    seen = true;
                }
                j += 1;
            }
            proof {
                assert forall|q: int| 0 <= q < selected.len() implies websites@.take(i as int)[#[trigger] selected@[q] as int]
                    == websites@[selected@[q] as int] by {}
                if seen {
                    let q = choose|q: int|
                        0 <= q < selected.len() && websites@[#[trigger] selected@[q] as int].id == websites@[i as int].id;
                    assert(websites@.take(i as int)[selected@[q] as int].id == w.id);
                }
            }
            if !seen {
                selected.push(i);
            }
        }
        i += 1;
    }
    assert(websites@.take(websites.len() as int) =~= websites@);
    proof {
        lemma_selection(websites@, filter_by_tags@);
    }
    selected
}

} // verus!
