//! Character-level text primitives shared by the extractor, the page
//! processor and the search code: whitespace, trimming, pattern search.
use vstd::prelude::*;

verus! {

/// The Unicode `White_Space` property, as used by `char::is_whitespace`.
pub open spec fn is_ws(c: char) -> bool {
    let n = c as u32;
    ||| 9 <= n <= 13
    ||| n == 32
    ||| n == 0x85
    ||| n == 0xA0
    ||| n == 0x1680
    ||| 0x2000 <= n <= 0x200A
    ||| n == 0x2028
    ||| n == 0x2029
    ||| n == 0x202F
    ||| n == 0x205F
    ||| n == 0x3000
}

pub fn is_whitespace(c: char) -> (b: bool)
    ensures
        b == is_ws(c),
{
    let n = c as u32;
    (9 <= n && n <= 13) || n == 32 || n == 0x85 || n == 0xA0 || n == 0x1680 || (0x2000 <= n
        && n <= 0x200A) || n == 0x2028 || n == 0x2029 || n == 0x202F || n == 0x205F || n
        == 0x3000
}

/// `s` with its leading whitespace removed.
pub open spec fn trim_start(s: Seq<char>) -> Seq<char>
    decreases s.len(),
{
    if s.len() > 0 && is_ws(s[0]) {
        trim_start(s.drop_first())
    } else {
        s
    }
}

/// `s` with its trailing whitespace removed.
pub open spec fn trim_end(s: Seq<char>) -> Seq<char>
    decreases s.len(),
{
    if s.len() > 0 && is_ws(s.last()) {
        trim_end(s.drop_last())
    } else {
        s
    }
}

/// `str::trim`: whitespace removed from both ends.
pub open spec fn trim(s: Seq<char>) -> Seq<char> {
    trim_end(trim_start(s))
}

/// No whitespace at either end.
pub open spec fn is_trimmed(t: Seq<char>) -> bool {
    t.len() == 0 || (!is_ws(t[0]) && !is_ws(t.last()))
}

proof fn lemma_trim_start(s: Seq<char>)
    ensures
        trim_start(s).len() > 0 ==> !is_ws(trim_start(s)[0]),
    decreases s.len(),
{
    if s.len() > 0 && is_ws(s[0]) {
        lemma_trim_start(s.drop_first());
    }
}

proof fn lemma_trim_end(s: Seq<char>)
    ensures
        trim_end(s).len() > 0 ==> !is_ws(trim_end(s).last()),
        trim_end(s).len() <= s.len(),
        trim_end(s) == s.take(trim_end(s).len() as int),
    decreases s.len(),
{
    if s.len() > 0 && is_ws(s.last()) {
        lemma_trim_end(s.drop_last());
        let t = trim_end(s.drop_last());
        assert(s.drop_last().take(t.len() as int) =~= s.take(t.len() as int));
    } else {
        assert(s.take(s.len() as int) =~= s);
    }
}

/// `str::trim` leaves no whitespace at either end.
pub proof fn lemma_trim_trimmed(s: Seq<char>)
    ensures
        is_trimmed(trim(s)),
{
    lemma_trim_start(s);
    let a = trim_start(s);
    lemma_trim_end(a);
    let t = trim_end(a);
    if t.len() > 0 {
        assert(t[0] == a[0]);
    }
}

/// `p` occurs in `s` starting at index `i`.
pub open spec fn occurs_at(s: Seq<char>, i: int, p: Seq<char>) -> bool {
    0 <= i && i + p.len() <= s.len() && s.subrange(i, i + p.len()) == p
}

/// `i` is the leftmost occurrence of `p` in `s`.
pub open spec fn first_occurrence(s: Seq<char>, i: int, p: Seq<char>) -> bool {
    occurs_at(s, i, p) && forall|j: int| 0 <= j < i ==> !#[trigger] occurs_at(s, j, p)
}

/// `str::find`: the index of the leftmost occurrence of `p` in `s`.
pub open spec fn find(s: Seq<char>, p: Seq<char>) -> Option<int> {
    if exists|i: int| first_occurrence(s, i, p) {
        Some(choose|i: int| first_occurrence(s, i, p))
    } else {
        None
    }
}

/// `str::contains`.
pub open spec fn contains(s: Seq<char>, p: Seq<char>) -> bool {
    exists|i: int| occurs_at(s, i, p)
}

/// The leftmost occurrence is what `find` gives.
pub proof fn lemma_find_first(s: Seq<char>, p: Seq<char>, i: int)
    requires
        first_occurrence(s, i, p),
    ensures
        find(s, p) == Some(i),
{
    let k = choose|k: int| first_occurrence(s, k, p);
    assert(first_occurrence(s, k, p));
    if k < i {
        assert(!occurs_at(s, k, p));
    }
    if i < k {
        assert(!occurs_at(s, i, p));
    }
}

/// Without an occurrence, `find` gives nothing.
pub proof fn lemma_find_none(s: Seq<char>, p: Seq<char>)
    requires
        forall|j: int| !#[trigger] occurs_at(s, j, p),
    ensures
        find(s, p) is None,
        !contains(s, p),
{
}

/// What `find` gives is the leftmost occurrence, inside the text.
pub proof fn lemma_find_range(s: Seq<char>, p: Seq<char>)
    ensures
        find(s, p) matches Some(i) ==> first_occurrence(s, i, p) && 0 <= i && i + p.len()
            <= s.len(),
{
}

/// A one-character pattern occurs where that character stands.
pub proof fn lemma_occurs_char(s: Seq<char>, i: int, c: char)
    ensures
        occurs_at(s, i, seq![c]) <==> (0 <= i < s.len() && s[i] == c),
{
    if 0 <= i < s.len() && s[i] == c {
        assert(s.subrange(i, i + 1) =~= seq![c]);
    }
    if occurs_at(s, i, seq![c]) {
        assert(s.subrange(i, i + 1)[0] == s[i]);
    }
}

/// A two-character pattern occurs where those characters stand in turn.
pub proof fn lemma_occurs_pair(s: Seq<char>, i: int, a: char, b: char)
    ensures
        occurs_at(s, i, seq![a, b]) <==> (0 <= i && i + 1 < s.len() && s[i] == a && s[i + 1]
            == b),
{
    if 0 <= i && i + 1 < s.len() && s[i] == a && s[i + 1] == b {
        assert(s.subrange(i, i + 2) =~= seq![a, b]);
    }
    if occurs_at(s, i, seq![a, b]) {
        assert(s.subrange(i, i + 2)[0] == s[i]);
        assert(s.subrange(i, i + 2)[1] == s[i + 1]);
    }
}

/// The characters of `s`, in order.
pub fn chars_of(s: &str) -> (v: Vec<char>)
    ensures
        v@ == s@,
{
    let mut v: Vec<char> = Vec::new();
    for c in it: s.chars()
        invariant
            v@ == it.seq().take(it.index() as int),
    {
        v.push(c);
    }
    v
}

/// Leftmost `c` in `cs[from..to]`, as an absolute index.
pub fn find_char_in(cs: &Vec<char>, from: usize, to: usize, c: char) -> (r: Option<usize>)
    requires
        from <= to <= cs.len(),
    ensures
        match r {
            Some(i) => from <= i < to && find(cs@.subrange(from as int, to as int), seq![c])
                == Some(i - from),
            None => find(cs@.subrange(from as int, to as int), seq![c]) is None,
        },
{
    let ghost s = cs@.subrange(from as int, to as int);
    let ghost pat = seq![c];
    let mut i = from;
    while i < to
        invariant
            from <= i <= to <= cs.len(),
            s == cs@.subrange(from as int, to as int),
            pat == seq![c],
            forall|j: int| from <= j < i ==> cs@[j] != c,
        decreases to - i,
    {
        if cs[i] == c {
            proof {
                lemma_occurs_char(s, i - from, c);
                assert forall|j: int| 0 <= j < i - from implies !#[trigger] occurs_at(s, j, pat) by {
                    lemma_occurs_char(s, j, c);
                }
                lemma_find_first(s, pat, i - from);
            }
            return Some(i);
        }
        i += 1;
    }
    proof {
        assert forall|j: int| !#[trigger] occurs_at(s, j, pat) by {
            lemma_occurs_char(s, j, c);
        }
        lemma_find_none(s, pat);
    }
    None
}

/// Leftmost `a` immediately followed by `b` in `cs[from..to]`, as an absolute index.
pub fn find_pair_in(cs: &Vec<char>, from: usize, to: usize, a: char, b: char) -> (r: Option<
    usize,
>)
    requires
        from <= to <= cs.len(),
    ensures
        match r {
            Some(i) => from <= i && i + 1 < to && find(
                cs@.subrange(from as int, to as int),
                seq![a, b],
            ) == Some(i - from),
            None => find(cs@.subrange(from as int, to as int), seq![a, b]) is None,
        },
{
    let ghost s = cs@.subrange(from as int, to as int);
    let ghost pat = seq![a, b];
    let mut i = from;
    while to - i >= 2
        invariant
            from <= i <= to <= cs.len(),
            s == cs@.subrange(from as int, to as int),
            pat == seq![a, b],
            forall|j: int| from <= j < i && j + 1 < to ==> !(#[trigger] cs@[j] == a && cs@[j + 1] == b),
        decreases to - i,
    {
        if cs[i] == a && cs[i + 1] == b {
            proof {
                lemma_occurs_pair(s, i - from, a, b);
                assert forall|j: int| 0 <= j < i - from implies !#[trigger] occurs_at(s, j, pat) by {
                    lemma_occurs_pair(s, j, a, b);
                }
                lemma_find_first(s, pat, i - from);
            }
            return Some(i);
        }
        i += 1;
    }
    proof {
        assert forall|j: int| !#[trigger] occurs_at(s, j, pat) by {
            lemma_occurs_pair(s, j, a, b);
        }
        lemma_find_none(s, pat);
    }
    None
}

/// The bounds of `trim(cs[from..to])` inside `cs`.
pub fn trim_range(cs: &Vec<char>, from: usize, to: usize) -> (r: (usize, usize))
    requires
        from <= to <= cs.len(),
    ensures
        from <= r.0 <= r.1 <= to,
        cs@.subrange(r.0 as int, r.1 as int) == trim(cs@.subrange(from as int, to as int)),
{
    let mut lo = from;
    while lo < to && is_whitespace(cs[lo])
        invariant
            from <= lo <= to <= cs.len(),
            trim_start(cs@.subrange(from as int, to as int)) == trim_start(
                cs@.subrange(lo as int, to as int),
            ),
        decreases to - lo,
    {
        assert(cs@.subrange(lo as int, to as int).drop_first() =~= cs@.subrange(
            lo + 1,
            to as int,
        ));
        lo += 1;
    }
    assert(trim_start(cs@.subrange(lo as int, to as int)) == cs@.subrange(lo as int, to as int));
    let mut hi = to;
    while hi > lo && is_whitespace(cs[hi - 1])
        invariant
            from <= lo <= hi <= to <= cs.len(),
            trim_end(cs@.subrange(lo as int, to as int)) == trim_end(
                cs@.subrange(lo as int, hi as int),
            ),
        decreases hi,
    {
        assert(cs@.subrange(lo as int, hi as int).drop_last() =~= cs@.subrange(
            lo as int,
            hi - 1,
        ));
        hi -= 1;
    }
    (lo, hi)
}

/// `s` split at every `c` (as `str::split` with a `char` pattern does).
pub open spec fn split_char(s: Seq<char>, c: char) -> Seq<Seq<char>>
    decreases s.len(),
{
    match find(s, seq![c]) {
        None => seq![s],
        Some(i) => {
            proof {
                lemma_find_range(s, seq![c]);
            }
            seq![s.take(i)] + split_char(s.skip(i + 1), c)
        },
    }
}

/// A pattern that occurs somewhere is found.
proof fn lemma_occurs_found(s: Seq<char>, p: Seq<char>, j: int)
    requires
        occurs_at(s, j, p),
    ensures
        find(s, p) is Some,
    decreases j,
{
    if exists|k: int| 0 <= k < j && occurs_at(s, k, p) {
        let k = choose|k: int| 0 <= k < j && occurs_at(s, k, p);
        lemma_occurs_found(s, p, k);
    } else {
        assert forall|k: int| 0 <= k < j implies !#[trigger] occurs_at(s, k, p) by {}
        assert(first_occurrence(s, j, p));
    }
}

proof fn lemma_split_at_first(s: Seq<char>, c: char, i: int)
    requires
        0 <= i < s.len(),
        s[i] == c,
        forall|j: int| 0 <= j < i ==> s[j] != c,
    ensures
        split_char(s, c) == seq![s.take(i)] + split_char(s.skip(i + 1), c),
{
    lemma_occurs_char(s, i, c);
    assert forall|j: int| 0 <= j < i implies !#[trigger] occurs_at(s, j, seq![c]) by {
        lemma_occurs_char(s, j, c);
    }
    lemma_find_first(s, seq![c], i);
}

proof fn lemma_no_separator(a: Seq<char>, c: char)
    requires
        find(a, seq![c]) is None,
    ensures
        split_char(a, c) == seq![a],
        forall|j: int| 0 <= j < a.len() ==> a[j] != c,
{
    assert forall|j: int| 0 <= j < a.len() implies a[j] != c by {
        lemma_occurs_char(a, j, c);
        if a[j] == c {
            lemma_occurs_found(a, seq![c], j);
        }
    }
}

/// Splitting two texts joined by the separator gives the pieces of the one
/// followed by the pieces of the other.
pub proof fn lemma_split_joined(a: Seq<char>, b: Seq<char>, c: char)
    ensures
        split_char(a + seq![c] + b, c) == split_char(a, c) + split_char(b, c),
    decreases a.len(),
{
    let s = a + seq![c] + b;
    lemma_find_range(a, seq![c]);
    if let Some(i) = find(a, seq![c]) {
        lemma_occurs_char(a, i, c);
        assert forall|j: int| 0 <= j < i implies a[j] != c by {
            lemma_occurs_char(a, j, c);
        }
        lemma_split_at_first(a, c, i);
        assert forall|j: int| 0 <= j < i implies s[j] != c by {
            assert(s[j] == a[j]);
        }
        assert(s[i] == a[i]);
        lemma_split_at_first(s, c, i);
        let t = a.skip(i + 1);
        assert(s.take(i) =~= a.take(i));
        assert(s.skip(i + 1) =~= t + seq![c] + b);
        lemma_split_joined(t, b, c);
        assert(split_char(s, c) =~= split_char(a, c) + split_char(b, c));
    } else {
        let n = a.len() as int;
        lemma_no_separator(a, c);
        assert forall|j: int| 0 <= j < n implies s[j] != c by {
            assert(s[j] == a[j]);
        }
        lemma_split_at_first(s, c, n);
        assert(s.take(n) =~= a);
        assert(s.skip(n + 1) =~= b);
        assert(split_char(s, c) =~= split_char(a, c) + split_char(b, c));
    }
}

pub open spec fn char_vec_views(v: Seq<Vec<char>>) -> Seq<Seq<char>> {
    v.map_values(|x: Vec<char>| x@)
}

/// A copy of `cs[from..to]`.
pub fn slice_chars(cs: &Vec<char>, from: usize, to: usize) -> (v: Vec<char>)
    requires
        from <= to <= cs.len(),
    ensures
        v@ == cs@.subrange(from as int, to as int),
{
    let mut v: Vec<char> = Vec::new();
    let mut i = from;
    while i < to
        invariant
            from <= i <= to <= cs.len(),
            v@ == cs@.subrange(from as int, i as int),
        decreases to - i,
    {
        v.push(cs[i]);
        i += 1;
        assert(v@ =~= cs@.subrange(from as int, i as int));
    }
    v
}

/// The pieces of `cs` between the occurrences of `c`.
pub fn split_chars(cs: &Vec<char>, c: char) -> (pieces: Vec<Vec<char>>)
    ensures
        char_vec_views(pieces@) == split_char(cs@, c),
{
    let n = cs.len();
    let mut pieces: Vec<Vec<char>> = Vec::new();
    let mut pos: usize = 0;
    assert(cs@.subrange(0, n as int) =~= cs@);
    loop
        invariant
            n == cs.len(),
            pos <= n,
            char_vec_views(pieces@) + split_char(cs@.subrange(pos as int, n as int), c)
                == split_char(cs@, c),
        decreases n - pos,
    {
        let ghost rest = cs@.subrange(pos as int, n as int);
        let ghost before = char_vec_views(pieces@);
        match find_char_in(cs, pos, n, c) {
            Some(i) => {
                let piece = slice_chars(cs, pos, i);
                pieces.push(piece);
                proof {
                    lemma_find_range(rest, seq![c]);
                    assert(rest.take(i - pos) =~= cs@.subrange(pos as int, i as int));
                    assert(rest.skip(i - pos + 1) =~= cs@.subrange(i + 1, n as int));
                    assert(char_vec_views(pieces@) =~= before.push(cs@.subrange(pos as int, i as int)));
                    let tail = split_char(cs@.subrange(i + 1, n as int), c);
                    assert(before + (seq![cs@.subrange(pos as int, i as int)] + tail)
                        =~= char_vec_views(pieces@) + tail);
                }
                pos = i + 1;
            },
            None => {
                let piece = slice_chars(cs, pos, n);
                pieces.push(piece);
                proof {
                    assert(char_vec_views(pieces@) =~= before + seq![rest]);
                }
                return pieces;
            },
        }
    }
}

/// Whether `p` occurs in `s` at `i`.
pub fn occurs_at_exec(s: &Vec<char>, i: usize, p: &Vec<char>) -> (b: bool)
    requires
        i <= s.len(),
    ensures
        b == occurs_at(s@, i as int, p@),
{
    if p.len() > s.len() - i {
        return false;
    }
    let mut k: usize = 0;
    while k < p.len()
        invariant
            i + p.len() <= s.len(),
            k <= p.len(),
            forall|q: int| 0 <= q < k ==> s@[i + q] == p@[q],
        decreases p.len() - k,
    {
        if s[i + k] != p[k] {
            assert(s@.subrange(i as int, i + p.len())[k as int] != p@[k as int]);
            return false;
        }
        k += 1;
    }
    assert(s@.subrange(i as int, i + p.len()) =~= p@);
    true
}

/// Whether `p` occurs anywhere in `s`.
pub fn contains_chars(s: &Vec<char>, p: &Vec<char>) -> (b: bool)
    ensures
        b == contains(s@, p@),
{
    if p.len() > s.len() {
        assert forall|j: int| !#[trigger] occurs_at(s@, j, p@) by {}
        return false;
    }
    let last = s.len() - p.len();
    let mut i: usize = 0;
    loop
        invariant
            p.len() <= s.len(),
            last == s.len() - p.len(),
            i <= last,
            forall|j: int| 0 <= j < i ==> !#[trigger] occurs_at(s@, j, p@),
        ensures
            forall|j: int| 0 <= j <= last ==> !#[trigger] occurs_at(s@, j, p@),
        decreases last - i,
    {
        if occurs_at_exec(s, i, p) {
            return true;
        }
        if i == last {
            break;
        }
        i += 1;
    }
    assert forall|j: int| !#[trigger] occurs_at(s@, j, p@) by {
        if 0 <= j <= last {
        }
    }
    false
}

/// `String::push`, which appends `c` to the string; the claim restates its
/// documentation.
#[verifier::external_body]
fn string_push(s: &mut String, c: char)
    ensures
        final(s)@ == old(s)@.push(c),
{
    s.push(c);
}

/// A `String` holding the characters `cs`.
pub fn string_from_chars(cs: &Vec<char>) -> (s: String)
    ensures
        s@ == cs@,
{
    let mut s = String::new();
    let mut i: usize = 0;
    while i < cs.len()
        invariant
            i <= cs.len(),
            s@ == cs@.take(i as int),
        decreases cs.len() - i,
    {
        string_push(&mut s, cs[i]);
        i += 1;
        assert(s@ =~= cs@.take(i as int));
    }
    assert(cs@.take(cs.len() as int) =~= cs@);
    s
}

/// Whether two character sequences are equal.
pub fn chars_equal(a: &Vec<char>, b: &Vec<char>) -> (r: bool)
    ensures
        r == (a@ == b@),
{
    if a.len() != b.len() {
        return false;
    }
    let mut i: usize = 0;
    while i < a.len()
        invariant
            a.len() == b.len(),
            i <= a.len(),
            forall|q: int| 0 <= q < i ==> a@[q] == b@[q],
        decreases a.len() - i,
    {
        if a[i] != b[i] {
            return false;
        }
        i += 1;
    }
    assert(a@ =~= b@);
    true
}

/// `s.replace(p, "")`: the leftmost non-overlapping occurrences of `p` removed.
pub open spec fn remove_pattern(s: Seq<char>, p: Seq<char>) -> Seq<char>
    decreases s.len(),
{
    if p.len() == 0 || s.len() < p.len() {
        s
    } else if s.take(p.len() as int) == p {
        remove_pattern(s.skip(p.len() as int), p)
    } else {
        seq![s[0]] + remove_pattern(s.drop_first(), p)
    }
}

pub fn remove_pattern_chars(s: &Vec<char>, p: &Vec<char>) -> (r: Vec<char>)
    ensures
        r@ == remove_pattern(s@, p@),
{
    if p.len() == 0 {
        return slice_chars(s, 0, s.len());
    }
    let mut r: Vec<char> = Vec::new();
    let mut i: usize = 0;
    assert(s@.skip(0) =~= s@);
    while i < s.len()
        invariant
            p.len() > 0,
            i <= s.len(),
            r@ + remove_pattern(s@.skip(i as int), p@) == remove_pattern(s@, p@),
        decreases s.len() - i,
    {
        let ghost rest = s@.skip(i as int);
        if occurs_at_exec(s, i, p) {
            assert(rest.take(p.len() as int) =~= s@.subrange(i as int, i + p.len()));
            assert(rest.skip(p.len() as int) =~= s@.skip(i + p.len()));
            i = i + p.len();
        } else {
            proof {
                if rest.len() >= p.len() {
                    assert(rest.take(p.len() as int) =~= s@.subrange(i as int, i + p.len()));
                }
            }
            assert(rest.drop_first() =~= s@.skip(i + 1));
            let ghost before = r@;
            r.push(s[i]);
            assert(before + (seq![s@[i as int]] + remove_pattern(s@.skip(i + 1), p@)) =~= r@
                + remove_pattern(s@.skip(i + 1), p@));
            i += 1;
        }
    }
    assert(s@.skip(i as int) =~= Seq::<char>::empty());
    assert(r@ + Seq::<char>::empty() =~= r@);
    r
}

/// The words of `s`: its maximal runs of non-whitespace characters.
pub open spec fn words(s: Seq<char>) -> Seq<Seq<char>>
    decreases s.len(),
{
    if s.len() == 0 {
        seq![]
    } else {
        let prev = words(s.drop_last());
        let c = s.last();
        if is_ws(c) {
            prev
        } else if s.len() >= 2 && !is_ws(s[s.len() - 2]) {
            prev.drop_last().push(prev.last().push(c))
        } else {
            prev.push(seq![c])
        }
    }
}

proof fn lemma_words_nonempty(s: Seq<char>)
    requires
        s.len() > 0,
        !is_ws(s.last()),
    ensures
        words(s).len() > 0,
    decreases s.len(),
{
    if s.len() >= 2 && !is_ws(s[s.len() - 2]) {
        assert(s.drop_last().last() == s[s.len() - 2]);
        lemma_words_nonempty(s.drop_last());
    }
}

/// `str::split_whitespace`.
pub fn split_words(s: &Vec<char>) -> (ws: Vec<Vec<char>>)
    ensures
        char_vec_views(ws@) == words(s@),
{
    let mut ws: Vec<Vec<char>> = Vec::new();
    let mut cur: Vec<char> = Vec::new();
    let mut in_word = false;
    let mut i: usize = 0;
    while i < s.len()
        invariant
            i <= s.len(),
            in_word == (i > 0 && !is_ws(s@[i - 1])),
            in_word ==> char_vec_views(ws@).push(cur@) == words(s@.take(i as int)),
            !in_word ==> char_vec_views(ws@) == words(s@.take(i as int)),
        decreases s.len() - i,
    {
        let c = s[i];
        let ghost t = s@.take(i + 1);
        assert(t.drop_last() =~= s@.take(i as int));
        assert(t.last() == c);
        if is_whitespace(c) {
            if in_word {
                ws.push(cur);
                cur = Vec::new();
                assert(char_vec_views(ws@) =~= words(s@.take(i as int)));
            }
            in_word = false;
        } else {
            if in_word {
                assert(t[t.len() - 2] == s@[i - 1]);
                let ghost prev = words(s@.take(i as int));
                assert(char_vec_views(ws@).push(cur@).drop_last() =~= char_vec_views(ws@));
                cur.push(c);
                assert(char_vec_views(ws@).push(cur@) =~= prev.drop_last().push(prev.last().push(c)));
            } else {
                if i > 0 {
                    assert(t[t.len() - 2] == s@[i - 1]);
                }
                cur = Vec::new();
                cur.push(c);
                assert(cur@ =~= seq![c]);
            }
            in_word = true;
        }
        i += 1;
    }
    assert(s@.take(s.len() as int) =~= s@);
    if in_word {
        ws.push(cur);
        assert(char_vec_views(ws@) =~= words(s@));
    }
    ws
}

/// The words joined by single spaces.
pub open spec fn join_words(ws: Seq<Seq<char>>) -> Seq<char>
    decreases ws.len(),
{
    if ws.len() == 0 {
        seq![]
    } else if ws.len() == 1 {
        ws[0]
    } else {
        join_words(ws.drop_last()) + seq![' '] + ws.last()
    }
}

pub fn join_chars(ws: &Vec<Vec<char>>) -> (r: Vec<char>)
    ensures
        r@ == join_words(char_vec_views(ws@)),
{
    let ghost v = char_vec_views(ws@);
    let mut r: Vec<char> = Vec::new();
    let mut i: usize = 0;
    while i < ws.len()
        invariant
            v == char_vec_views(ws@),
            i <= ws.len(),
            r@ == join_words(v.take(i as int)),
        decreases ws.len() - i,
    {
        let ghost t = v.take(i + 1);
        assert(t.drop_last() =~= v.take(i as int));
        assert(t.last() == ws@[i as int]@);
        if i > 0 {
            r.push(' ');
        }
        let w = &ws[i];
        let ghost base = r@;
        let mut k: usize = 0;
        while k < w.len()
            invariant
                k <= w.len(),
                r@ == base + w@.take(k as int),
            decreases w.len() - k,
        {
            r.push(w[k]);
            k += 1;
            assert(r@ =~= base + w@.take(k as int));
        }
        assert(w@.take(w.len() as int) =~= w@);
        if i == 0 {
            assert(r@ =~= t[0]);
        }
        i += 1;
    }
    assert(v.take(ws.len() as int) =~= v);
    r
}

/// `split_whitespace().collect::<Vec<_>>().join(" ")`: runs of whitespace
/// collapsed to one space, none at either end.
pub open spec fn collapse_whitespace(s: Seq<char>) -> Seq<char> {
    join_words(words(s))
}

/// The sequence without later repeats of an element, first occurrences in order.
pub open spec fn dedup<A>(s: Seq<A>) -> Seq<A>
    decreases s.len(),
{
    if s.len() == 0 {
        s
    } else {
        let d = dedup(s.drop_last());
        if d.contains(s.last()) {
            d
        } else {
            d.push(s.last())
        }
    }
}

/// The distinct character sequences of `ws`, in order of first occurrence.
pub fn dedup_chars(ws: &Vec<Vec<char>>) -> (r: Vec<Vec<char>>)
    ensures
        char_vec_views(r@) == dedup(char_vec_views(ws@)),
{
    let ghost v = char_vec_views(ws@);
    let mut r: Vec<Vec<char>> = Vec::new();
    let mut i: usize = 0;
    while i < ws.len()
        invariant
            v == char_vec_views(ws@),
            i <= ws.len(),
            char_vec_views(r@) == dedup(v.take(i as int)),
        decreases ws.len() - i,
    {
        let ghost t = v.take(i + 1);
        assert(t.drop_last() =~= v.take(i as int));
        assert(t.last() == ws@[i as int]@);
        let mut seen = false;
        let mut k: usize = 0;
        while k < r.len()
            invariant
                i < ws.len(),
                k <= r.len(),
                seen == exists|q: int| 0 <= q < k && #[trigger] r@[q]@ == ws@[i as int]@,
            decreases r.len() - k,
        {
            if chars_equal(&r[k], &ws[i]) {
                seen = true;
            }
            k += 1;
        }
        let ghost rv = char_vec_views(r@);
        if seen {
            assert(rv.contains(ws@[i as int]@)) by {
                let q = choose|q: int| 0 <= q < r.len() && #[trigger] r@[q]@ == ws@[i as int]@;
                assert(rv[q] == ws@[i as int]@);
            }
        } else {
            assert(!rv.contains(ws@[i as int]@)) by {
                if rv.contains(ws@[i as int]@) {
                    let q = choose|q: int| 0 <= q < rv.len() && rv[q] == ws@[i as int]@;
                    assert(r@[q]@ == ws@[i as int]@);
                }
            }
            r.push(slice_chars(&ws[i], 0, ws[i].len()));
            assert(ws@[i as int]@.subrange(0, ws@[i as int]@.len() as int) =~= ws@[i as int]@);
            assert(char_vec_views(r@) =~= rv.push(ws@[i as int]@));
        }
        i += 1;
    }
    assert(v.take(ws.len() as int) =~= v);
    r
}

/// The pieces of `s` between the bounds.
pub open spec fn bounded_pieces(s: Seq<char>, b: Seq<(usize, usize)>) -> Seq<Seq<char>> {
    b.map_values(|p: (usize, usize)| s.subrange(p.0 as int, p.1 as int))
}

/// Where the words of `s` start and end.
pub fn word_bounds(s: &Vec<char>) -> (b: Vec<(usize, usize)>)
    ensures
        bounded_pieces(s@, b@) == words(s@),
        forall|i: int| 0 <= i < b.len() ==> #[trigger] b@[i].0 <= b@[i].1 <= s.len(),
{
    let mut b: Vec<(usize, usize)> = Vec::new();
    let mut start: usize = 0;
    let mut in_word = false;
    let mut i: usize = 0;
    while i < s.len()
        invariant
            i <= s.len(),
            in_word == (i > 0 && !is_ws(s@[i - 1])),
            in_word ==> start < i && bounded_pieces(s@, b@).push(s@.subrange(start as int, i as int))
                == words(s@.take(i as int)),
            !in_word ==> bounded_pieces(s@, b@) == words(s@.take(i as int)),
            forall|q: int| 0 <= q < b.len() ==> #[trigger] b@[q].0 <= b@[q].1 <= s.len(),
        decreases s.len() - i,
    {
        let c = s[i];
        let ghost t = s@.take(i + 1);
        assert(t.drop_last() =~= s@.take(i as int));
        assert(t.last() == c);
        if is_whitespace(c) {
            if in_word {
                let ghost before = bounded_pieces(s@, b@);
                b.push((start, i));
                assert(bounded_pieces(s@, b@) =~= before.push(s@.subrange(start as int, i as int)));
            }
            in_word = false;
        } else {
            if in_word {
                assert(t[t.len() - 2] == s@[i - 1]);
                let ghost prev = words(s@.take(i as int));
                let ghost bp = bounded_pieces(s@, b@);
                assert(bp.push(s@.subrange(start as int, i as int)).drop_last() =~= bp);
                assert(s@.subrange(start as int, i + 1) =~= s@.subrange(start as int, i as int).push(c));
                assert(bp.push(s@.subrange(start as int, i + 1)) =~= prev.drop_last().push(
                    prev.last().push(c),
                ));
            } else {
                if i > 0 {
                    assert(t[t.len() - 2] == s@[i - 1]);
                }
                start = i;
                assert(s@.subrange(start as int, i + 1) =~= seq![c]);
            }
            in_word = true;
        }
        i += 1;
    }
    assert(s@.take(s.len() as int) =~= s@);
    if in_word {
        let ghost before = bounded_pieces(s@, b@);
        let ghost old_b = b@;
        b.push((start, s.len()));
        assert(bounded_pieces(s@, b@) =~= before.push(s@.subrange(start as int, s.len() as int)));
        assert forall|q: int| 0 <= q < b.len() implies #[trigger] b@[q].0 <= b@[q].1 <= s.len() by {
            if q < old_b.len() {
                assert(b@[q] == old_b[q]);
            }
        }
    }
    b
}

// ---------------------------------------------------------------------------
// Laws of the text primitives
/// What a filter keeps was in the sequence.
pub proof fn lemma_filter_subset<A>(s: Seq<A>, pred: spec_fn(A) -> bool, x: A)
    requires
        s.filter(pred).contains(x),
    ensures
        s.contains(x),
    decreases s.len(),
{
    reveal_with_fuel(Seq::<_>::filter, 1);
    if s.len() > 0 {
        let f = s.drop_last().filter(pred);
        if f.contains(x) {
            lemma_filter_subset(s.drop_last(), pred, x);
            let j = choose|j: int| 0 <= j < s.drop_last().len() && s.drop_last()[j] == x;
            assert(s[j] == x);
        } else {
            let out = s.filter(pred);
            let j = choose|j: int| 0 <= j < out.len() && out[j] == x;
            if pred(s.last()) {
                assert(out == f.push(s.last()));
                if j < f.len() {
                    assert(f[j] == x);
                    assert(false);
                }
                assert(s[s.len() - 1] == x);
            } else {
                assert(out == f);
                assert(false);
            }
        }
    }
}

/// Every element of `dedup(s)` is in `s` and the other way round, and
/// `dedup(s)` holds no element twice.
pub proof fn lemma_dedup<A>(s: Seq<A>)
    ensures
        dedup(s).no_duplicates(),
        forall|x: A| dedup(s).contains(x) <==> s.contains(x),
    decreases s.len(),
{
    if s.len() > 0 {
        let p = s.drop_last();
        lemma_dedup(p);
        let d = dedup(p);
        assert forall|x: A| s.contains(x) <==> (p.contains(x) || x == s.last()) by {
            if s.contains(x) {
                let j = choose|j: int| 0 <= j < s.len() && s[j] == x;
                if j < p.len() {
                    assert(p[j] == x);
                }
            }
            if p.contains(x) {
                let j = choose|j: int| 0 <= j < p.len() && p[j] == x;
                assert(s[j] == x);
            }
            if x == s.last() {
                assert(s[s.len() - 1] == x);
            }
        }
        if !d.contains(s.last()) {
            let e = d.push(s.last());
            assert forall|x: A| e.contains(x) <==> (d.contains(x) || x == s.last()) by {
                if e.contains(x) {
                    let j = choose|j: int| 0 <= j < e.len() && e[j] == x;
                    if j < d.len() {
                        assert(d[j] == x);
                    }
                }
                if d.contains(x) {
                    let j = choose|j: int| 0 <= j < d.len() && d[j] == x;
                    assert(e[j] == x);
                }
                if x == s.last() {
                    assert(e[d.len() as int] == x);
                }
            }
            assert forall|i: int, j: int| 0 <= i < e.len() && 0 <= j < e.len() && i != j implies e[i]
                != e[j] by {
                if i == d.len() {
                    assert(d[j] == e[j]);
                } else if j == d.len() {
                    assert(d[i] == e[i]);
                }
            }
        }
    }
}

/// No whitespace but single spaces between other characters.
pub open spec fn is_collapsed(s: Seq<char>) -> bool {
    forall|i: int|
        0 <= i < s.len() && is_ws(#[trigger] s[i]) ==> s[i] == ' ' && 0 < i && i + 1 < s.len()
            && !is_ws(s[i - 1]) && !is_ws(s[i + 1])
}

/// The words of `s` are nonempty, hold no whitespace, and hold only
/// characters of `s`.
pub proof fn lemma_words(s: Seq<char>, ok: spec_fn(char) -> bool)
    requires
        forall|i: int| 0 <= i < s.len() ==> is_ws(#[trigger] s[i]) || ok(s[i]),
    ensures
        forall|k: int| 0 <= k < words(s).len() ==> (#[trigger] words(s)[k]).len() > 0,
        forall|k: int, i: int|
            0 <= k < words(s).len() && 0 <= i < words(s)[k].len() ==> !is_ws(
                #[trigger] words(s)[k][i],
            ) && ok(words(s)[k][i]),
    decreases s.len(),
{
    if s.len() > 0 {
        let p = s.drop_last();
        lemma_words(p, ok);
        let prev = words(p);
        let c = s.last();
        assert(ok(c) || is_ws(c)) by {
            assert(s[s.len() - 1] == c);
        }
        if is_ws(c) {
        } else if s.len() >= 2 && !is_ws(s[s.len() - 2]) {
            assert(p.last() == s[s.len() - 2]);
            lemma_words_nonempty(p);
            let w = words(s);
            assert forall|k: int, i: int|
                0 <= k < w.len() && 0 <= i < w[k].len() implies !is_ws(#[trigger] w[k][i]) && ok(
                w[k][i],
            ) by {
                if k < w.len() - 1 {
                    assert(w[k] == prev[k]);
                } else {
                    if i < prev.last().len() {
                        assert(w[k][i] == prev[prev.len() - 1][i]);
                    }
                }
            }
            assert forall|k: int| 0 <= k < w.len() implies (#[trigger] w[k]).len() > 0 by {
                if k < w.len() - 1 {
                    assert(w[k] == prev[k]);
                }
            }
        } else {
            let w = words(s);
            assert forall|k: int, i: int|
                0 <= k < w.len() && 0 <= i < w[k].len() implies !is_ws(#[trigger] w[k][i]) && ok(
                w[k][i],
            ) by {
                if k < w.len() - 1 {
                    assert(w[k] == prev[k]);
                }
            }
            assert forall|k: int| 0 <= k < w.len() implies (#[trigger] w[k]).len() > 0 by {
                if k < w.len() - 1 {
                    assert(w[k] == prev[k]);
                }
            }
        }
    }
}

/// Nonempty words without whitespace, joined by spaces, give a collapsed
/// text whose other characters come from the words.
pub proof fn lemma_join_words(ws: Seq<Seq<char>>, ok: spec_fn(char) -> bool)
    requires
        forall|k: int| 0 <= k < ws.len() ==> (#[trigger] ws[k]).len() > 0,
        forall|k: int, i: int|
            0 <= k < ws.len() && 0 <= i < ws[k].len() ==> !is_ws(#[trigger] ws[k][i]) && ok(
                ws[k][i],
            ),
    ensures
        is_collapsed(join_words(ws)),
        forall|i: int|
            0 <= i < join_words(ws).len() ==> #[trigger] join_words(ws)[i] == ' ' || ok(
                join_words(ws)[i],
            ),
        ws.len() > 0 ==> join_words(ws).len() > 0 && !is_ws(join_words(ws)[0]) && !is_ws(
            join_words(ws).last(),
        ),
    decreases ws.len(),
{
    if ws.len() == 1 {
        let j = join_words(ws);
        assert(j == ws[0]);
        assert forall|i: int| 0 <= i < j.len() implies !is_ws(#[trigger] j[i]) && ok(j[i]) by {
            assert(j[i] == ws[0][i]);
        }
        assert(!is_ws(j[j.len() - 1]));
    } else if ws.len() > 1 {
        let p = ws.drop_last();
        assert forall|k: int| 0 <= k < p.len() implies (#[trigger] p[k]).len() > 0 by {
            assert(p[k] == ws[k]);
        }
        assert forall|k: int, i: int|
            0 <= k < p.len() && 0 <= i < p[k].len() implies !is_ws(#[trigger] p[k][i]) && ok(
            p[k][i],
        ) by {
            assert(p[k] == ws[k]);
        }
        lemma_join_words(p, ok);
        let a = join_words(p);
        let l = ws.last();
        let j = join_words(ws);
        assert(j == a + seq![' '] + l);
        assert(l == ws[ws.len() - 1]);
        assert forall|i: int| 0 <= i < l.len() implies !is_ws(#[trigger] l[i]) && ok(l[i]) by {
            assert(l[i] == ws[ws.len() - 1][i]);
        }
        assert(!is_ws(a[a.len() - 1]));
        assert forall|i: int| 0 <= i < j.len() && is_ws(#[trigger] j[i]) implies j[i] == ' ' && 0
            < i && i + 1 < j.len() && !is_ws(j[i - 1]) && !is_ws(j[i + 1]) by {
            if i < a.len() {
                assert(j[i] == a[i]);
                assert(j[i - 1] == a[i - 1]);
                assert(j[i + 1] == a[i + 1]);
            } else if i == a.len() {
                assert(j[i - 1] == a[a.len() - 1]);
                assert(j[i + 1] == l[0]);
            } else {
                assert(j[i] == l[i - a.len() - 1]);
            }
        }
        assert forall|i: int| 0 <= i < j.len() implies #[trigger] j[i] == ' ' || ok(j[i]) by {
            if i < a.len() {
                assert(j[i] == a[i]);
            } else if i > a.len() {
                assert(j[i] == l[i - a.len() - 1]);
            }
        }
        assert(j[0] == a[0]);
        assert(j.last() == l[l.len() - 1]);
    }
}

/// Collapsing whitespace gives a collapsed text whose other characters come
/// from the input.
pub proof fn lemma_collapse_whitespace(s: Seq<char>, ok: spec_fn(char) -> bool)
    requires
        forall|i: int| 0 <= i < s.len() ==> is_ws(#[trigger] s[i]) || ok(s[i]),
    ensures
        is_collapsed(collapse_whitespace(s)),
        forall|i: int|
            0 <= i < collapse_whitespace(s).len() ==> #[trigger] collapse_whitespace(s)[i] == ' '
                || ok(collapse_whitespace(s)[i]),
{
    lemma_words(s, ok);
    lemma_join_words(words(s), ok);
}

/// Removing a pattern keeps only characters of the input.
pub proof fn lemma_remove_pattern(s: Seq<char>, p: Seq<char>, ok: spec_fn(char) -> bool)
    requires
        forall|i: int| 0 <= i < s.len() ==> ok(#[trigger] s[i]),
    ensures
        forall|i: int| 0 <= i < remove_pattern(s, p).len() ==> ok(#[trigger] remove_pattern(s, p)[i]),
    decreases s.len(),
{
    if p.len() == 0 || s.len() < p.len() {
    } else if s.take(p.len() as int) == p {
        let t = s.skip(p.len() as int);
        assert forall|i: int| 0 <= i < t.len() implies ok(#[trigger] t[i]) by {
            assert(t[i] == s[i + p.len()]);
        }
        lemma_remove_pattern(t, p, ok);
        assert(remove_pattern(s, p) == remove_pattern(t, p));
    } else {
        let t = s.drop_first();
        assert forall|i: int| 0 <= i < t.len() implies ok(#[trigger] t[i]) by {
            assert(t[i] == s[i + 1]);
        }
        lemma_remove_pattern(t, p, ok);
        let r = remove_pattern(s, p);
        assert forall|i: int| 0 <= i < r.len() implies ok(#[trigger] r[i]) by {
            if i > 0 {
                assert(r[i] == remove_pattern(t, p)[i - 1]);
            } else {
                assert(r[0] == s[0]);
            }
        }
    }
}

} // verus!
