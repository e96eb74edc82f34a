use vstd::prelude::*;

verus! {

/// One scanned word: its case-folded bytes and the absolute offset where it begins.
pub type Token = (Vec<u8>, u64);

/// The bytes that end a word: space, newline, tab, apostrophe, `[`, `]`, `|`, backslash.
pub open spec fn is_delim(b: u8) -> bool {
    b == 32 || b == 10 || b == 9 || b == 39 || b == 91 || b == 93 || b == 124 || b == 92
}

/// ASCII lowercasing; every other byte is kept as it is.
pub open spec fn fold(b: u8) -> u8 {
    if 65 <= b <= 90 {
        (b + 32) as u8
    } else {
        b
    }
}

pub open spec fn fold_seq(s: Seq<u8>) -> Seq<u8> {
    s.map_values(|b: u8| fold(b))
}

/// The first position at or after `p` that holds a delimiter, or the end of `data`.
pub open spec fn run_end(data: Seq<u8>, p: int) -> int
    decreases data.len() - p,
{
    if p >= data.len() || p < 0 || is_delim(data[p]) {
        if p < 0 { 0 } else if p >= data.len() { data.len() as int } else { p }
    } else {
        run_end(data, p + 1)
    }
}

/// The word that a scan starting at `p` reads: the folded run of non-delimiters there.
pub open spec fn word_at(data: Seq<u8>, p: int) -> Seq<u8> {
    fold_seq(data.subrange(p, run_end(data, p)))
}

/// The tokens that a scan of `[p, e)` emits, starting outside any word.
/// A word is emitted when a delimiter inside the range ends it, or when it runs
/// to the end of `data` and the range does too; a word cut off by the end of a
/// shorter range is not emitted.
pub open spec fn tokens(data: Seq<u8>, p: int, e: int) -> Seq<(Seq<u8>, u64)>
    decreases e - p
    via tokens_decreases
{
    if p >= e || p < 0 || e > data.len() {
        Seq::empty()
    } else if is_delim(data[p]) {
        tokens(data, p + 1, e)
    } else {
        let q = run_end(data, p);
        if q < e || (q == e && e == data.len()) {
            seq![(word_at(data, p), p as u64)] + tokens(data, q, e)
        } else {
            Seq::empty()
        }
    }
}

#[via_fn]
proof fn tokens_decreases(data: Seq<u8>, p: int, e: int) {
    if p < e && p >= 0 && e <= data.len() && !is_delim(data[p]) {
        lemma_run_end_bounds(data, p + 1);
    }
}

pub open spec fn token_view(t: (Vec<u8>, u64)) -> (Seq<u8>, u64) {
    (t.0@, t.1)
}

pub open spec fn tokens_view(v: Seq<(Vec<u8>, u64)>) -> Seq<(Seq<u8>, u64)> {
    v.map_values(|t: (Vec<u8>, u64)| token_view(t))
}

pub proof fn lemma_run_end_bounds(data: Seq<u8>, p: int)
    requires
        0 <= p <= data.len(),
    ensures
        p <= run_end(data, p) <= data.len(),
        run_end(data, p) < data.len() ==> is_delim(data[run_end(data, p)]),
        forall|i: int| p <= i < run_end(data, p) ==> !is_delim(#[trigger] data[i]),
    decreases data.len() - p,
{
    if p < data.len() && !is_delim(data[p]) {
        lemma_run_end_bounds(data, p + 1);
    }
}

/// Every run of non-delimiters from `p` to `q` shares its end with the run from `q`.
proof fn lemma_run_end_skip(data: Seq<u8>, p: int, q: int)
    requires
        0 <= p <= q <= data.len(),
        forall|i: int| p <= i < q ==> !is_delim(#[trigger] data[i]),
    ensures
        run_end(data, p) == run_end(data, q),
    decreases q - p,
{
    if p < q {
        lemma_run_end_skip(data, p + 1, q);
    }
}

/// A position that no word straddles: the start or end of `data`, or just after a delimiter.
pub open spec fn aligned(data: Seq<u8>, m: int) -> bool {
    m == 0 || m == data.len() || (0 < m < data.len() && is_delim(data[m - 1]))
}

/// What a scan emits is what its tokens promise: offsets inside the range, strictly
/// increasing, each carrying the word that a scan from that offset reads.
pub open spec fn well_scanned(toks: Seq<(Seq<u8>, u64)>, data: Seq<u8>, s: int, e: int) -> bool {
    &&& forall|i: int| 0 <= i < toks.len() ==> s <= (#[trigger] toks[i]).1 < e
    &&& forall|i: int| 0 <= i < toks.len() ==> (#[trigger] toks[i]).0 == word_at(data, toks[i].1 as int)
    &&& forall|i: int, j: int| 0 <= i < j < toks.len() ==> (#[trigger] toks[i]).1 < (#[trigger] toks[j]).1
    &&& forall|i: int| 0 <= i < toks.len() ==> !is_delim(data[(#[trigger] toks[i]).1 as int])
    &&& forall|i: int| 0 <= i < toks.len() ==> (#[trigger] toks[i]).1 == s || is_delim(data[toks[i].1 - 1])
}

pub proof fn lemma_tokens_well_scanned(data: Seq<u8>, p: int, e: int)
    requires
        0 <= p <= e <= data.len(),
        e <= u64::MAX,
    ensures
        well_scanned(tokens(data, p, e), data, p, e),
    decreases e - p,
{
    if p < e {
        if is_delim(data[p]) {
            lemma_tokens_well_scanned(data, p + 1, e);
        } else {
            lemma_run_end_bounds(data, p + 1);
            lemma_run_end_bounds(data, p);
            let q = run_end(data, p);
            if q < e || (q == e && e == data.len()) {
                lemma_tokens_well_scanned(data, q, e);
                let rest = tokens(data, q, e);
                let all = tokens(data, p, e);
                assert(all == seq![(word_at(data, p), p as u64)] + rest);
                assert forall|i: int| 0 < i < all.len() implies all[i] == rest[i - 1] by {}
                assert forall|i: int, j: int| 0 <= i < j < all.len() implies (#[trigger] all[i]).1 < (#[trigger] all[j]).1 by {
                    if i > 0 {
                        assert(all[i] == rest[i - 1]);
                    }
                    assert(all[j] == rest[j - 1]);
                }
            }
        }
    }
}

/// A scan may stop at any aligned position and go on from there: the tokens of
/// `[s, e)` are those of `[s, m)` followed by those of `[m, e)`.
pub proof fn lemma_tokens_split(data: Seq<u8>, s: int, m: int, e: int)
    requires
        0 <= s <= m <= e <= data.len(),
        aligned(data, m),
    ensures
        tokens(data, s, e) == tokens(data, s, m) + tokens(data, m, e),
    decreases m - s,
{
    if m == e {
        assert(tokens(data, m, e) =~= Seq::empty());
        assert(tokens(data, s, e) + Seq::empty() =~= tokens(data, s, e));
    } else if s == m {
        assert(tokens(data, s, m) =~= Seq::empty());
        assert(Seq::empty() + tokens(data, m, e) =~= tokens(data, m, e));
    } else {
        assert(is_delim(data[m - 1]));
        if is_delim(data[s]) {
            lemma_tokens_split(data, s + 1, m, e);
        } else {
            lemma_run_end_bounds(data, s);
            lemma_run_end_bounds(data, s + 1);
            let q = run_end(data, s);
            assert(q <= m - 1);
            lemma_tokens_split(data, q, m, e);
            let w = seq![(word_at(data, s), s as u64)];
            assert(w + (tokens(data, q, m) + tokens(data, m, e)) =~= (w + tokens(data, q, m)) + tokens(data, m, e));
        }
    }
}

/// True of the bytes that end a word.
pub fn is_delimiter(b: u8) -> (r: bool)
    ensures
        r == is_delim(b),
{
    b == 32 || b == 10 || b == 9 || b == 39 || b == 91 || b == 93 || b == 124 || b == 92
}

/// ASCII lowercasing of one byte.
pub fn fold_byte(b: u8) -> (r: u8)
    ensures
        r == fold(b),
{
    if 65 <= b && b <= 90 {
        b + 32
    } else {
        b
    }
}

/// Case-folds a query or a word byte by byte.
pub fn normalize(s: &[u8]) -> (r: Vec<u8>)
    ensures
        r@ == fold_seq(s@),
{
    let mut r: Vec<u8> = Vec::new();
    let mut i: usize = 0;
    while i < s.len()
        invariant
            i <= s@.len(),
            r@ == fold_seq(s@.subrange(0, i as int)),
        decreases s@.len() - i,
    {
        r.push(fold_byte(s[i]));
        assert(s@.subrange(0, i + 1) =~= s@.subrange(0, i as int).push(s@[i as int]));
        i = i + 1;
    }
    assert(s@.subrange(0, s@.len() as int) =~= s@);
    r
}

/// Scans the range `[start, end)` of `data`, beginning outside any word, and
/// returns the words it completes, in the order of their offsets.
pub fn scan(data: &[u8], start: usize, end: usize) -> (r: Vec<Token>)
    requires
        start <= end <= data@.len(),
    ensures
        tokens_view(r@) == tokens(data@, start as int, end as int),
{
    let ghost d = data@;
    let mut r: Vec<Token> = Vec::new();
    let e: usize = end;
    let mut p: usize = start;
    assert(tokens_view(r@) =~= Seq::empty());
    assert(tokens_view(r@) + tokens(d, p as int, e as int) =~= tokens(d, start as int, e as int));
    while p < e
        invariant
            start <= p <= e,
            e == end,
            end <= d.len(),
            d == data@,
            tokens_view(r@) + tokens(d, p as int, e as int) == tokens(d, start as int, e as int),
        decreases e - p,
    {
        if is_delimiter(data[p]) {
            p = p + 1;
        } else {
            let ghost p0 = p as int;
            let mut word: Vec<u8> = Vec::new();
            let mut q: usize = p;
            while q < e && !is_delimiter(data[q])
                invariant
                    0 <= p0 <= q <= e,
                    p0 == p,
                    e <= d.len(),
                    d == data@,
                    word@ == fold_seq(d.subrange(p0, q as int)),
                    forall|i: int| p0 <= i < q ==> !is_delim(#[trigger] d[i]),
                decreases e - q,
            {
                word.push(fold_byte(data[q]));
                assert(d.subrange(p0, q + 1) =~= d.subrange(p0, q as int).push(d[q as int]));
                q = q + 1;
            }
            proof {
                lemma_run_end_skip(d, p0, q as int);
                lemma_run_end_bounds(d, q as int);
            }
            if q < e || e == data.len() {
                assert(run_end(d, p0) == q);
                let ghost before = tokens_view(r@);
                r.push((word, p as u64));
                assert(tokens_view(r@) == before.push((word_at(d, p0), p0 as u64)));
                assert(tokens(d, p0, e as int) == seq![(word_at(d, p0), p0 as u64)] + tokens(d, q as int, e as int));
                assert(before + tokens(d, p0, e as int) == tokens_view(r@) + tokens(d, q as int, e as int));
                p = q;
            } else {
                assert(run_end(d, p0) >= e);
                assert(tokens(d, p0, e as int) =~= Seq::empty());
                assert(tokens_view(r@) + tokens(d, e as int, e as int) =~= tokens_view(r@));
                p = e;
            }
        }
    }
    assert(tokens(d, p as int, e as int) =~= Seq::empty());
    assert(tokens_view(r@) + Seq::empty() =~= tokens_view(r@));
    r
}

} // verus!
