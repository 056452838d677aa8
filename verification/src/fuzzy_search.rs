//! The in-browser search over the scraped websites: a worker's share of the
//! data set, fuzzy search (scored by `nucleo`) and plain substring search.
use vstd::prelude::*;
use crate::ranking::{is_top_k, ranks_before, top_k, top_k_spec};
use crate::text::{char_vec_views, lemma_filter_subset, lemma_split_joined, chars_of, contains, contains_chars, split_char, split_chars};

verus! {

/// How many results a search returns at most.
pub const LIMIT: usize = 12;

/// One website of the data set the search runs over. Tag slots that are
/// not used hold `-1`.
pub struct WebsiteEntry {
    pub id: u64,
    pub title: String,
    pub description: String,
    pub content: String,
    pub thumbnail: String,
    pub url: String,
    pub tags: Vec<i32>,
}

/// The tag slots of a data set entry: the tags, then `-1` up to five slots.
pub fn padded_tags(tags: &Vec<usize>) -> (slots: Vec<i32>)
    requires
        tags.len() <= 5,
    ensures
        slots.len() == 5,
        forall|i: int| 0 <= i < tags.len() ==> #[trigger] slots@[i] == tags@[i] as i32,
        forall|i: int| tags.len() <= i < 5 ==> #[trigger] slots@[i] == -1,
{
    let mut slots: Vec<i32> = Vec::new();
    let mut i: usize = 0;
    while i < 5
        invariant
            tags.len() <= 5,
            i <= 5,
            slots.len() == i,
            forall|q: int| 0 <= q < i && q < tags.len() ==> #[trigger] slots@[q] == tags@[q] as i32,
            forall|q: int| tags.len() <= q < i ==> #[trigger] slots@[q] == -1,
        decreases 5 - i,
    {
        if i < tags.len() {
            slots.push(tags[i] as i32);
        } else {
            slots.push(-1);
        }
        i += 1;
    }
    slots
}

/// The data set and the part of it (by index) that this worker searches.
pub struct SearchIndex {
    pub websites: Vec<WebsiteEntry>,
    pub chunk: Vec<usize>,
}

/// One hit, as handed to the page.
pub struct SearchResult {
    pub id: u64,
    pub title: String,
    pub description: String,
    pub thumbnail: String,
    pub url: String,
    pub score: u16,
    pub tags: Vec<i32>,
}

impl SearchIndex {
    /// Every index of the chunk points into the data set.
    pub open spec fn wf(&self) -> bool {
        forall|i: int| 0 <= i < self.chunk.len() ==> #[trigger] self.chunk[i] < self.websites.len()
    }

    /// An index over `websites` whose chunk is still empty.
    pub fn new(websites: Vec<WebsiteEntry>) -> (index: SearchIndex)
        ensures
            index.websites@ == websites@,
            index.chunk@ == Seq::<usize>::empty(),
            index.wf(),
    {
        SearchIndex { websites, chunk: Vec::new() }
    }
}

/// The slice `[worker_idx * size, (worker_idx + 1) * size)` of `n` entries
/// cut into `worker_count` chunks of `size = n / worker_count` entries.
pub open spec fn worker_share(n: int, worker_count: int, worker_idx: int) -> Seq<usize> {
    let size = n / worker_count;
    Seq::new(size as nat, |i: int| (worker_idx * size + i) as usize)
}

/// Adds worker `worker_idx`'s share of the data set to the chunk it searches.
pub fn init(index: &mut SearchIndex, worker_count: usize, worker_idx: usize)
    requires
        old(index).wf(),
        0 < worker_count <= old(index).websites.len(),
        worker_idx < old(index).websites.len() / (old(index).websites.len() / worker_count),
    ensures
        final(index).websites == old(index).websites,
        final(index).chunk@ == old(index).chunk@ + worker_share(
            old(index).websites.len() as int,
            worker_count as int,
            worker_idx as int,
        ),
        final(index).wf(),
{
    let n = index.websites.len();
    let size = n / worker_count;
    proof {
        assert(size >= 1) by (nonlinear_arith)
            requires
                0 < worker_count <= n,
                size == n / worker_count,
        ;
        assert(worker_idx * size + size <= n) by (nonlinear_arith)
            requires
                size >= 1,
                worker_idx < n / size,
                size == n / worker_count,
        ;
    }
    let start = worker_idx * size;
    let ghost before = index.chunk@;
    let mut k: usize = 0;
    while k < size
        invariant
            n == index.websites.len(),
            index.websites == old(index).websites,
            start + size <= n,
            k <= size,
            index.chunk@ == before + Seq::new(k as nat, |i: int| (start + i) as usize),
            forall|i: int| 0 <= i < index.chunk.len() ==> #[trigger] index.chunk[i] < n,
        decreases size - k,
    {
        index.chunk.push(start + k);
        k += 1;
        assert(index.chunk@ =~= before + Seq::new(k as nat, |i: int| (start + i) as usize));
    }
    assert(Seq::new(size as nat, |i: int| (start + i) as usize) =~= worker_share(
        n as int,
        worker_count as int,
        worker_idx as int,
    ));
}

/// Each worker's share lies within the data set, and two different workers
/// get no website in common.
pub proof fn lemma_worker_shares(n: int, worker_count: int, a: int, b: int)
    requires
        0 < worker_count <= n <= usize::MAX,
        0 <= a < n / (n / worker_count),
        0 <= b < n / (n / worker_count),
        a != b,
    ensures
        forall|i: int|
            0 <= i < worker_share(n, worker_count, a).len() ==> #[trigger] worker_share(
                n,
                worker_count,
                a,
            )[i] < n,
        forall|i: int, j: int|
            0 <= i < worker_share(n, worker_count, a).len() && 0 <= j < worker_share(
                n,
                worker_count,
                b,
            ).len() ==> #[trigger] worker_share(n, worker_count, a)[i] != #[trigger] worker_share(
                n,
                worker_count,
                b,
            )[j],
{
    let size = n / worker_count;
    assert(size >= 1) by (nonlinear_arith)
        requires
            0 < worker_count <= n,
            size == n / worker_count,
    ;
    assert(a * size + size <= n) by (nonlinear_arith)
        requires
            size >= 1,
            0 <= a < n / size,
            size == n / worker_count,
    ;
    assert(b * size + size <= n) by (nonlinear_arith)
        requires
            size >= 1,
            0 <= b < n / size,
            size == n / worker_count,
    ;
    assert(a < b ==> a * size + size <= b * size) by (nonlinear_arith)
        requires
            size >= 1,
    ;
    assert(b < a ==> b * size + size <= a * size) by (nonlinear_arith)
        requires
            size >= 1,
    ;
    assert(0 <= a * size && 0 <= b * size) by (nonlinear_arith)
        requires
            size >= 1,
            0 <= a,
            0 <= b,
    ;
    let sa = worker_share(n, worker_count, a);
    let sb = worker_share(n, worker_count, b);
    assert forall|i: int| 0 <= i < sa.len() implies #[trigger] sa[i] < n && sa[i] == a * size + i by {
    }
    assert forall|j: int| 0 <= j < sb.len() implies #[trigger] sb[j] == b * size + j by {
    }
}

/// The shares of workers `0` to `k - 1`, in worker order.
pub open spec fn shares_upto(n: int, worker_count: int, k: int) -> Seq<usize>
    decreases k,
{
    if k <= 0 {
        seq![]
    } else {
        shares_upto(n, worker_count, k - 1) + worker_share(n, worker_count, k - 1)
    }
}

/// The shares of the first `k` workers, in worker order, are the first
/// `k * (n / worker_count)` websites; so the shares of all workers are the
/// first `worker_count * (n / worker_count)` websites, and the last
/// `n % worker_count` are in none.
pub proof fn lemma_worker_shares_cover(n: int, worker_count: int, k: int)
    requires
        0 < worker_count <= n <= usize::MAX,
        0 <= k <= worker_count,
    ensures
        shares_upto(n, worker_count, k) == Seq::new(
            (k * (n / worker_count)) as nat,
            |i: int| i as usize,
        ),
    decreases k,
{
    let size = n / worker_count;
    if k == 0 {
        assert(shares_upto(n, worker_count, 0) =~= Seq::new(
            (0 * size) as nat,
            |i: int| i as usize,
        ));
    } else {
        lemma_worker_shares_cover(n, worker_count, k - 1);
        assert((k - 1) * size + size == k * size) by (nonlinear_arith);
        assert(k * size <= n) by (nonlinear_arith)
            requires
                0 < worker_count <= n,
                0 < k <= worker_count,
                size == n / worker_count,
        {
            assert(worker_count * size <= n);
            assert(k * size <= worker_count * size);
        }
        assert(0 <= (k - 1) * size) by (nonlinear_arith)
            requires
                k >= 1,
                size >= 0,
        ;
        let prev = shares_upto(n, worker_count, k - 1);
        let sh = worker_share(n, worker_count, k - 1);
        let all = shares_upto(n, worker_count, k);
        assert(all == prev + sh);
        assert(all =~= Seq::new((k * size) as nat, |i: int| i as usize)) by {
            assert forall|i: int| 0 <= i < all.len() implies #[trigger] all[i] == i as usize by {
                if i < prev.len() {
                    assert(all[i] == prev[i]);
                } else {
                    assert(all[i] == sh[i - prev.len()]);
                }
            }
        }
    }
}

/// The website carries every tag of the filter.
pub open spec fn has_all_tags(tags: Seq<i32>, filter: Seq<i32>) -> bool {
    forall|i: int| 0 <= i < filter.len() ==> tags.contains(#[trigger] filter[i])
}

pub fn carries_all_tags(tags: &Vec<i32>, filter: &Vec<i32>) -> (b: bool)
    ensures
        b == has_all_tags(tags@, filter@),
{
    let mut i: usize = 0;
    while i < filter.len()
        invariant
            i <= filter.len(),
            forall|q: int| 0 <= q < i ==> tags@.contains(#[trigger] filter@[q]),
        decreases filter.len() - i,
    {
        let f = filter[i];
        let mut j: usize = 0;
        let mut found = false;
        while j < tags.len()
            invariant
                j <= tags.len(),
                found ==> tags@.contains(f),
                !found ==> forall|q: int| 0 <= q < j ==> tags@[q] != f,
            decreases tags.len() - j,
        {
            if tags[j] == f {
                found = true;
            }
            j += 1;
        }
        if !found {
            assert(!tags@.contains(filter@[i as int]));
            return false;
        }
        i += 1;
    }
    true
}

/// The tags shown with a result: the used slots.
pub open spec fn visible_tags(tags: Seq<i32>) -> Seq<i32> {
    tags.filter(|t: i32| t != -1)
}

pub fn shown_tags(tags: &Vec<i32>) -> (r: Vec<i32>)
    ensures
        r@ == visible_tags(tags@),
{
    let mut r: Vec<i32> = Vec::new();
    let mut i: usize = 0;
    while i < tags.len()
        invariant
            i <= tags.len(),
            r@ == tags@.take(i as int).filter(|t: i32| t != -1),
        decreases tags.len() - i,
    {
        proof {
            reveal_with_fuel(Seq::<_>::filter, 1);
            assert(tags@.take(i + 1).drop_last() =~= tags@.take(i as int));
        }
        if tags[i] != -1 {
            r.push(tags[i]);
        }
        i += 1;
    }
    assert(tags@.take(tags.len() as int) =~= tags@);
    r
}

/// `r` is the result for website `w` with score `score`.
pub open spec fn result_matches(r: SearchResult, w: WebsiteEntry, score: u16) -> bool {
    &&& r.id == w.id
    &&& r.title@ == w.title@
    &&& r.description@ == w.description@
    &&& r.thumbnail@ == w.thumbnail@
    &&& r.url@ == w.url@
    &&& r.score == score
    &&& r.tags@ == visible_tags(w.tags@)
}

/// `results` are the websites and scores of `ranked`, in that order.
pub open spec fn results_match(
    websites: Seq<WebsiteEntry>,
    results: Seq<SearchResult>,
    ranked: Seq<(usize, u16)>,
) -> bool {
    &&& results.len() == ranked.len()
    &&& forall|i: int|
        0 <= i < results.len() ==> result_matches(
            #[trigger] results[i],
            websites[ranked[i].0 as int],
            ranked[i].1,
        )
}

fn to_result(w: &WebsiteEntry, score: u16) -> (r: SearchResult)
    ensures
        result_matches(r, *w, score),
{
    SearchResult {
        id: w.id,
        title: w.title.clone(),
        description: w.description.clone(),
        thumbnail: w.thumbnail.clone(),
        url: w.url.clone(),
        score,
        tags: shown_tags(&w.tags),
    }
}

pub open spec fn tag_filter(websites: Seq<WebsiteEntry>, filter: Seq<i32>) -> spec_fn(usize) -> bool {
    |i: usize| has_all_tags(websites[i as int].tags@, filter)
}

/// The websites of the chunk that carry every tag of the filter, in chunk order.
pub open spec fn candidates(websites: Seq<WebsiteEntry>, chunk: Seq<usize>, filter: Seq<i32>) -> Seq<
    usize,
> {
    chunk.filter(tag_filter(websites, filter))
}

proof fn lemma_candidates(websites: Seq<WebsiteEntry>, chunk: Seq<usize>, filter: Seq<i32>, c: usize)
    requires
        candidates(websites, chunk, filter).contains(c),
    ensures
        chunk.contains(c),
        has_all_tags(websites[c as int].tags@, filter),
{
    let cs = candidates(websites, chunk, filter);
    let i = choose|i: int| 0 <= i < cs.len() && cs[i] == c;
    chunk.lemma_filter_pred(tag_filter(websites, filter), i);
    lemma_filter_subset(chunk, tag_filter(websites, filter), c);
}

/// The ranking of a search is well ranked.
proof fn lemma_well_ranked_cases(
    websites: Seq<WebsiteEntry>,
    chunk: Seq<usize>,
    filter: Seq<i32>,
    ranked: Seq<(usize, u16)>,
)
    requires
        ranked.len() <= LIMIT,
        forall|i: int, j: int| 0 <= i < j < ranked.len() ==> ranked[i].1 >= ranked[j].1,
        forall|i: int|
            0 <= i < ranked.len() ==> candidates(websites, chunk, filter).contains(
                #[trigger] ranked[i].0,
            ),
    ensures
        well_ranked(websites, chunk, filter, ranked),
{
    assert forall|i: int| 0 <= i < ranked.len() implies chunk.contains(#[trigger] ranked[i].0)
        && has_all_tags(websites[ranked[i].0 as int].tags@, filter) by {
        lemma_candidates(websites, chunk, filter, ranked[i].0);
    }
}

fn find_candidates(index: &SearchIndex, filter: &Vec<i32>) -> (c: Vec<usize>)
    requires
        index.wf(),
    ensures
        c@ == candidates(index.websites@, index.chunk@, filter@),
        forall|i: int| 0 <= i < c.len() ==> #[trigger] c@[i] < index.websites.len(),
{
    let ghost pred = tag_filter(index.websites@, filter@);
    let mut c: Vec<usize> = Vec::new();
    let mut i: usize = 0;
    while i < index.chunk.len()
        invariant
            index.wf(),
            pred == tag_filter(index.websites@, filter@),
            i <= index.chunk.len(),
            c@ == index.chunk@.take(i as int).filter(pred),
            forall|q: int| 0 <= q < c.len() ==> #[trigger] c@[q] < index.websites.len(),
        decreases index.chunk.len() - i,
    {
        proof {
            reveal_with_fuel(Seq::<_>::filter, 1);
            assert(index.chunk@.take(i + 1).drop_last() =~= index.chunk@.take(i as int));
        }
        let w = index.chunk[i];
        if carries_all_tags(&index.websites[w].tags, filter) {
            c.push(w);
        }
        i += 1;
    }
    assert(index.chunk@.take(index.chunk.len() as int) =~= index.chunk@);
    c
}

/// A result list at most `LIMIT` long, best score first, of websites of the
/// chunk that carry every tag of the filter.
pub open spec fn well_ranked(
    websites: Seq<WebsiteEntry>,
    chunk: Seq<usize>,
    filter: Seq<i32>,
    ranked: Seq<(usize, u16)>,
) -> bool {
    &&& ranked.len() <= LIMIT
    &&& forall|i: int, j: int| 0 <= i < j < ranked.len() ==> ranked[i].1 >= ranked[j].1
    &&& forall|i: int|
        0 <= i < ranked.len() ==> chunk.contains(#[trigger] ranked[i].0) && has_all_tags(
            websites[ranked[i].0 as int].tags@,
            filter,
        )
}

/// The candidates at the ranks `top_k` picks from their scores, with their scores.
pub open spec fn ranked(cands: Seq<usize>, scores: Seq<u16>) -> Seq<(usize, u16)> {
    top_k_spec(scores, LIMIT as int).map_values(|r: usize| (cands[r as int], scores[r as int]))
}

/// The candidates with the `LIMIT` best scores, best first, ties in the
/// candidates' order.
pub fn rank_results(websites: &Vec<WebsiteEntry>, cands: &Vec<usize>, scores: &Vec<u16>) -> (results:
    Vec<SearchResult>)
    requires
        cands.len() == scores.len(),
        forall|i: int| 0 <= i < cands.len() ==> #[trigger] cands@[i] < websites.len(),
    ensures
        results_match(websites@, results@, ranked(cands@, scores@)),
        ranked(cands@, scores@).len() <= LIMIT,
        forall|i: int, j: int|
            0 <= i < j < ranked(cands@, scores@).len() ==> ranked(cands@, scores@)[i].1
                >= ranked(cands@, scores@)[j].1,
        forall|i: int|
            0 <= i < ranked(cands@, scores@).len() ==> cands@.contains(
                #[trigger] ranked(cands@, scores@)[i].0,
            ),
        forall|i: int|
            0 <= i < ranked(cands@, scores@).len() ==> #[trigger] top_k_spec(scores@, LIMIT as int)[i]
                < scores.len(),
{
    let order = top_k(scores, LIMIT);
    let ghost want = ranked(cands@, scores@);
    let mut results: Vec<SearchResult> = Vec::new();
    let mut i: usize = 0;
    while i < order.len()
        invariant
            cands.len() == scores.len(),
            forall|q: int| 0 <= q < cands.len() ==> #[trigger] cands@[q] < websites.len(),
            is_top_k(scores@, LIMIT as int, order@),
            order@ == top_k_spec(scores@, LIMIT as int),
            want == ranked(cands@, scores@),
            want.len() == order.len(),
            i <= order.len(),
            results.len() == i,
            forall|q: int|
                0 <= q < i ==> result_matches(
                    #[trigger] results@[q],
                    websites@[want[q].0 as int],
                    want[q].1,
                ),
        decreases order.len() - i,
    {
        let o = order[i];
        assert(o < scores.len());
        let r = to_result(&websites[cands[o]], scores[o]);
        results.push(r);
        i += 1;
    }
    proof {
        assert forall|x: int, y: int| 0 <= x < y < want.len() implies want[x].1 >= want[y].1 by {
            assert(ranks_before(scores@, order@[x] as int, order@[y] as int));
        }
        assert forall|x: int| 0 <= x < want.len() implies cands@.contains(#[trigger] want[x].0) by {
            assert(order@[x] < scores.len());
            assert(cands@[order@[x] as int] == want[x].0);
        }
        assert forall|x: int| 0 <= x < want.len() implies #[trigger] top_k_spec(scores@, LIMIT as int)[x]
            < scores.len() by {
            assert(order@[x] < scores.len());
        }
    }
    results
}

/// Each ranked candidate comes with its own score.
proof fn lemma_ranked_scores(cands: Seq<usize>, scores: Seq<u16>, f: spec_fn(usize) -> u16)
    requires
        scores == cands.map_values(f),
        forall|i: int|
            0 <= i < ranked(cands, scores).len() ==> #[trigger] top_k_spec(scores, LIMIT as int)[i]
                < scores.len(),
    ensures
        forall|i: int|
            0 <= i < ranked(cands, scores).len() ==> #[trigger] ranked(cands, scores)[i].1 == f(
                ranked(cands, scores)[i].0,
            ),
{
    assert forall|i: int| 0 <= i < ranked(cands, scores).len() implies #[trigger] ranked(
        cands,
        scores,
    )[i].1 == f(ranked(cands, scores)[i].0) by {
        let r = top_k_spec(scores, LIMIT as int)[i] as int;
        assert(0 <= r < scores.len());
        assert(ranked(cands, scores)[i] == (cands[r], scores[r]));
        assert(scores[r] == f(cands[r]));
    }
}

/// The first `LIMIT` candidates, each with score 1.
pub open spec fn first_candidates(cands: Seq<usize>) -> Seq<(usize, u16)> {
    cands.take(LIMIT as int).map_values(|c: usize| (c, 1u16))
}

fn first_results(websites: &Vec<WebsiteEntry>, cands: &Vec<usize>) -> (results: Vec<
    SearchResult,
>)
    requires
        cands.len() >= LIMIT,
        forall|i: int| 0 <= i < cands.len() ==> #[trigger] cands@[i] < websites.len(),
    ensures
        results_match(websites@, results@, first_candidates(cands@)),
        first_candidates(cands@).len() == LIMIT,
        forall|i: int|
            0 <= i < LIMIT ==> #[trigger] first_candidates(cands@)[i] == (cands@[i], 1u16),
{
    let ghost want = first_candidates(cands@);
    let mut results: Vec<SearchResult> = Vec::new();
    let mut i: usize = 0;
    while i < LIMIT
        invariant
            cands.len() >= LIMIT,
            forall|q: int| 0 <= q < cands.len() ==> #[trigger] cands@[q] < websites.len(),
            want == first_candidates(cands@),
            i <= LIMIT,
            results.len() == i,
            forall|q: int|
                0 <= q < i ==> result_matches(
                    #[trigger] results@[q],
                    websites@[want[q].0 as int],
                    want[q].1,
                ),
        decreases LIMIT - i,
    {
        let r = to_result(&websites[cands[i]], 1);
        results.push(r);
        i += 1;
    }
    results
}

/// Haystacks that `nucleo` accepts: at most `u32::MAX` bytes.
pub open spec fn fits_matcher(s: Seq<char>) -> bool {
    vstd::utf8::encode_utf8(s).len() <= u32::MAX
}

/// The longest query, in bytes, whose score `nucleo` cannot overflow a `u16`
/// whatever the haystack: the first matched byte of the needle adds at most
/// 36 to the score, each other one at most 26, and a prefix bonus at most 8,
/// and `36 + 26 * 2518 + 8 <= 65535`. Longer queries that match little may
/// still score without overflow; they are left out all the same.
pub const MAX_QUERY_BYTES: usize = 2519;

/// Needles whose score cannot overflow a `u16`.
pub open spec fn fits_needle(s: Seq<char>) -> bool {
    vstd::utf8::encode_utf8(s).len() <= MAX_QUERY_BYTES
}

/// What `nucleo::Matcher::fuzzy_match` returns for a haystack and a needle,
/// both handed over as bytes, with the matcher configured for paths.
pub uninterp spec fn nucleo_path_score(haystack: Seq<char>, needle: Seq<char>) -> Option<u16>;

/// Calls `nucleo::Matcher::fuzzy_match` on a fresh matcher whose
/// configuration is `Config::DEFAULT` with `set_match_paths`. The claim is
/// only that the score depends on nothing but the two strings; nothing is
/// claimed of its value. The matcher asserts that the haystack has at most
/// `u32::MAX` bytes, and adds the score up in a `u16`, which a needle of more
/// than `MAX_QUERY_BYTES` bytes can overflow.
#[verifier::external_body]
fn fuzzy_match(haystack: &str, needle: &str) -> (score: Option<u16>)
    requires
        fits_matcher(haystack@),
        fits_needle(needle@),
    ensures
        score == nucleo_path_score(haystack@, needle@),
{
    let mut config = nucleo::Config::DEFAULT;
    config.set_match_paths();
    let mut matcher = nucleo::Matcher::new(config);
    matcher.fuzzy_match(
        nucleo::Utf32Str::Ascii(haystack.as_bytes()),
        nucleo::Utf32Str::Ascii(needle.as_bytes()),
    )
}

pub open spec fn score_or_zero(s: Option<u16>) -> int {
    match s {
        Some(x) => x as int,
        None => 0,
    }
}

/// The score of a title match plus the score of a content match (a missed
/// match counts 0), wrapping at 2^16.
pub fn combined_score(title: Option<u16>, content: Option<u16>) -> (score: u16)
    ensures
        score == (score_or_zero(title) + score_or_zero(content)) % 0x10000,
{
    let tv: u32 = match title {
        Some(x) => x as u32,
        None => 0,
    };
    let cv: u32 = match content {
        Some(x) => x as u32,
        None => 0,
    };
    ((tv + cv) % 0x10000) as u16
}

/// A website's fuzzy score: title score plus content score, wrapping at 2^16.
pub open spec fn fuzzy_score(w: WebsiteEntry, query: Seq<char>) -> u16 {
    ((score_or_zero(nucleo_path_score(w.title@, query)) + score_or_zero(
        nucleo_path_score(w.content@, query),
    )) % 0x10000) as u16
}

pub open spec fn fuzzy_scorer(websites: Seq<WebsiteEntry>, query: Seq<char>) -> spec_fn(
    usize,
) -> u16 {
    |c: usize| fuzzy_score(websites[c as int], query)
}

/// The websites and scores a fuzzy search returns: with an empty query and
/// a tag filter that at least `LIMIT` websites pass, the first `LIMIT` of
/// them with score 1; otherwise the `LIMIT` best fuzzy scores among the
/// websites that pass the filter, best first, ties in chunk order.
pub open spec fn fuzzy_ranking(
    websites: Seq<WebsiteEntry>,
    chunk: Seq<usize>,
    query: Seq<char>,
    filter: Seq<i32>,
) -> Seq<(usize, u16)> {
    let cands = candidates(websites, chunk, filter);
    if query.len() == 0 && filter.len() > 0 && cands.len() >= LIMIT {
        first_candidates(cands)
    } else {
        ranked(cands, cands.map_values(fuzzy_scorer(websites, query)))
    }
}

/// Every title and content of the data set fits the matcher.
pub open spec fn matchable(websites: Seq<WebsiteEntry>) -> bool {
    forall|i: int|
        0 <= i < websites.len() ==> fits_matcher(#[trigger] websites[i].title@) && fits_matcher(
            websites[i].content@,
        )
}

/// Fuzzy search of the chunk for `query`, keeping the websites that carry
/// every tag of `filter_by_tags`.
pub fn search(index: &SearchIndex, query: &str, filter_by_tags: &Vec<i32>) -> (results: Vec<
    SearchResult,
>)
    requires
        index.wf(),
        matchable(index.websites@),
        fits_needle(query@),
    ensures
        results_match(
            index.websites@,
            results@,
            fuzzy_ranking(index.websites@, index.chunk@, query@, filter_by_tags@),
        ),
        well_ranked(
            index.websites@,
            index.chunk@,
            filter_by_tags@,
            fuzzy_ranking(index.websites@, index.chunk@, query@, filter_by_tags@),
        ),
        forall|i: int|
            0 <= i < results.len() && !(query@.len() == 0 && filter_by_tags@.len() > 0 && candidates(
                index.websites@,
                index.chunk@,
                filter_by_tags@,
            ).len() >= LIMIT) ==> #[trigger] results@[i].score as int == (score_or_zero(
                nucleo_path_score(
                    index.websites@[fuzzy_ranking(
                        index.websites@,
                        index.chunk@,
                        query@,
                        filter_by_tags@,
                    )[i].0 as int].title@,
                    query@,
                ),
            ) + score_or_zero(
                nucleo_path_score(
                    index.websites@[fuzzy_ranking(
                        index.websites@,
                        index.chunk@,
                        query@,
                        filter_by_tags@,
                    )[i].0 as int].content@,
                    query@,
                ),
            )) % 0x10000,
{
    let cands = find_candidates(index, filter_by_tags);
    if query.is_empty() && filter_by_tags.len() > 0 && cands.len() >= LIMIT {
        let results = first_results(&index.websites, &cands);
        proof {
            let fc = first_candidates(cands@);
            assert forall|i: int| 0 <= i < fc.len() implies cands@.contains(#[trigger] fc[i].0) by {
                assert(fc[i] == (cands@[i], 1u16));
            }
            assert forall|i: int, j: int| 0 <= i < j < fc.len() implies fc[i].1 >= fc[j].1 by {
                assert(fc[i] == (cands@[i], 1u16));
                assert(fc[j] == (cands@[j], 1u16));
            }
            lemma_well_ranked_cases(index.websites@, index.chunk@, filter_by_tags@, fc);
        }
        return results;
    }
    let ghost f = fuzzy_scorer(index.websites@, query@);
    let mut scores: Vec<u16> = Vec::new();
    let mut i: usize = 0;
    while i < cands.len()
        invariant
            index.wf(),
            matchable(index.websites@),
            fits_needle(query@),
            f == fuzzy_scorer(index.websites@, query@),
            forall|q: int| 0 <= q < cands.len() ==> #[trigger] cands@[q] < index.websites.len(),
            i <= cands.len(),
            scores@ == cands@.take(i as int).map_values(f),
        decreases cands.len() - i,
    {
        let w = &index.websites[cands[i]];
        let t = fuzzy_match(w.title.as_str(), query);
        let c = fuzzy_match(w.content.as_str(), query);
        let s = combined_score(t, c);
        scores.push(s);
        i += 1;
        assert(scores@ =~= cands@.take(i as int).map_values(f));
    }
    assert(cands@.take(cands.len() as int) =~= cands@);
    let results = rank_results(&index.websites, &cands, &scores);
    proof {
        lemma_well_ranked_cases(index.websites@, index.chunk@, filter_by_tags@, ranked(cands@, scores@));
        lemma_ranked_scores(cands@, scores@, f);
    }
    results
}

/// How many of the words occur in the title plus how many occur in the content.
pub open spec fn word_hits(title: Seq<char>, content: Seq<char>, words: Seq<Seq<char>>) -> nat
    decreases words.len(),
{
    if words.len() == 0 {
        0
    } else {
        word_hits(title, content, words.drop_last()) + (if contains(title, words.last()) {
            1nat
        } else {
            0nat
        }) + (if contains(content, words.last()) {
            1nat
        } else {
            0nat
        })
    }
}

/// A website's substring score for the words of a query, wrapping at 2^16.
pub open spec fn substring_score(w: WebsiteEntry, query: Seq<char>) -> u16 {
    (word_hits(w.title@, w.content@, split_char(query, ' ')) % 0x10000) as u16
}

pub open spec fn substring_scorer(websites: Seq<WebsiteEntry>, query: Seq<char>) -> spec_fn(
    usize,
) -> u16 {
    |c: usize| substring_score(websites[c as int], query)
}

proof fn lemma_word_hits_concat(title: Seq<char>, content: Seq<char>, a: Seq<Seq<char>>, b: Seq<Seq<char>>)
    ensures
        word_hits(title, content, a + b) == word_hits(title, content, a) + word_hits(title, content, b),
    decreases b.len(),
{
    if b.len() == 0 {
        assert(a + b =~= a);
    } else {
        lemma_word_hits_concat(title, content, a, b.drop_last());
        assert((a + b).drop_last() =~= a + b.drop_last());
        assert((a + b).last() == b.last());
    }
}

/// The substring score of two queries joined by a space is the sum of their
/// scores: every space-separated word counts on its own.
pub proof fn lemma_substring_score_adds(w: WebsiteEntry, q1: Seq<char>, q2: Seq<char>)
    ensures
        word_hits(w.title@, w.content@, split_char(q1 + seq![' '] + q2, ' ')) == word_hits(
            w.title@,
            w.content@,
            split_char(q1, ' '),
        ) + word_hits(w.title@, w.content@, split_char(q2, ' ')),
        substring_score(w, q1 + seq![' '] + q2) == (substring_score(w, q1) + substring_score(w, q2))
            % 0x10000,
{
    lemma_split_joined(q1, q2, ' ');
    lemma_word_hits_concat(w.title@, w.content@, split_char(q1, ' '), split_char(q2, ' '));
    let x = word_hits(w.title@, w.content@, split_char(q1, ' ')) as int;
    let y = word_hits(w.title@, w.content@, split_char(q2, ' ')) as int;
    vstd::arithmetic::div_mod::lemma_add_mod_noop(x, y, 0x10000);
}

/// As `fuzzy_ranking`, scored by `substring_score`.
pub open spec fn substring_ranking(
    websites: Seq<WebsiteEntry>,
    chunk: Seq<usize>,
    query: Seq<char>,
    filter: Seq<i32>,
) -> Seq<(usize, u16)> {
    let cands = candidates(websites, chunk, filter);
    if query.len() == 0 && filter.len() > 0 && cands.len() >= LIMIT {
        first_candidates(cands)
    } else {
        ranked(cands, cands.map_values(substring_scorer(websites, query)))
    }
}

fn count_word_hits(title: &Vec<char>, content: &Vec<char>, words: &Vec<Vec<char>>) -> (score:
    u16)
    ensures
        score == word_hits(title@, content@, char_vec_views(words@)) % 0x10000,
{
    let ghost ws = char_vec_views(words@);
    let mut score: u16 = 0;
    let mut i: usize = 0;
    while i < words.len()
        invariant
            ws == char_vec_views(words@),
            i <= words.len(),
            score == word_hits(title@, content@, ws.take(i as int)) % 0x10000,
        decreases words.len() - i,
    {
        let ghost prev = word_hits(title@, content@, ws.take(i as int));
        assert(ws.take(i + 1).drop_last() =~= ws.take(i as int));
        assert(ws.take(i + 1).last() == words@[i as int]@);
        let mut add: u32 = 0;
        if contains_chars(title, &words[i]) {
            add = add + 1;
        }
        if contains_chars(content, &words[i]) {
            add = add + 1;
        }
        let next = ((score as u32 + add) % 0x10000) as u16;
        proof {
            vstd::arithmetic::div_mod::lemma_add_mod_noop(prev as int, add as int, 0x10000);
            vstd::arithmetic::div_mod::lemma_small_mod(add as nat, 0x10000);
            vstd::arithmetic::div_mod::lemma_mod_twice(prev as int, 0x10000);
        }
        score = next;
        i += 1;
    }
    assert(ws.take(words.len() as int) =~= ws);
    score
}

/// Substring search of the chunk: every space-separated word of `query`
/// found in a title or a content adds one to the website's score.
pub fn substring_search(index: &SearchIndex, query: &str, filter_by_tags: &Vec<i32>) -> (results:
    Vec<SearchResult>)
    requires
        index.wf(),
    ensures
        results_match(
            index.websites@,
            results@,
            substring_ranking(index.websites@, index.chunk@, query@, filter_by_tags@),
        ),
        well_ranked(
            index.websites@,
            index.chunk@,
            filter_by_tags@,
            substring_ranking(index.websites@, index.chunk@, query@, filter_by_tags@),
        ),
        forall|i: int|
            0 <= i < results.len() && !(query@.len() == 0 && filter_by_tags@.len() > 0 && candidates(
                index.websites@,
                index.chunk@,
                filter_by_tags@,
            ).len() >= LIMIT) ==> #[trigger] results@[i].score as int == word_hits(
                index.websites@[substring_ranking(
                    index.websites@,
                    index.chunk@,
                    query@,
                    filter_by_tags@,
                )[i].0 as int].title@,
                index.websites@[substring_ranking(
                    index.websites@,
                    index.chunk@,
                    query@,
                    filter_by_tags@,
                )[i].0 as int].content@,
                split_char(query@, ' '),
            ) % 0x10000,
{
    let cands = find_candidates(index, filter_by_tags);
    if query.is_empty() && filter_by_tags.len() > 0 && cands.len() >= LIMIT {
        let results = first_results(&index.websites, &cands);
        proof {
            let fc = first_candidates(cands@);
            assert forall|i: int| 0 <= i < fc.len() implies cands@.contains(#[trigger] fc[i].0) by {
                assert(fc[i] == (cands@[i], 1u16));
            }
            assert forall|i: int, j: int| 0 <= i < j < fc.len() implies fc[i].1 >= fc[j].1 by {
                assert(fc[i] == (cands@[i], 1u16));
                assert(fc[j] == (cands@[j], 1u16));
            }
            lemma_well_ranked_cases(index.websites@, index.chunk@, filter_by_tags@, fc);
        }
        return results;
    }
    let query_chars = chars_of(query);
    let words = split_chars(&query_chars, ' ');
    let ghost f = substring_scorer(index.websites@, query@);
    let mut scores: Vec<u16> = Vec::new();
    let mut i: usize = 0;
    while i < cands.len()
        invariant
            index.wf(),
            f == substring_scorer(index.websites@, query@),
            char_vec_views(words@) == split_char(query@, ' '),
            forall|q: int| 0 <= q < cands.len() ==> #[trigger] cands@[q] < index.websites.len(),
            i <= cands.len(),
            scores@ == cands@.take(i as int).map_values(f),
        decreases cands.len() - i,
    {
        let w = &index.websites[cands[i]];
        let title = chars_of(w.title.as_str());
        let content = chars_of(w.content.as_str());
        let s = count_word_hits(&title, &content, &words);
        scores.push(s);
        i += 1;
        assert(scores@ =~= cands@.take(i as int).map_values(f));
    }
    assert(cands@.take(cands.len() as int) =~= cands@);
    let results = rank_results(&index.websites, &cands, &scores);
    proof {
        lemma_well_ranked_cases(index.websites@, index.chunk@, filter_by_tags@, ranked(cands@, scores@));
        lemma_ranked_scores(cands@, scores@, f);
    }
    results
}

} // verus!
