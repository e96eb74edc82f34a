use vstd::prelude::*;
use crate::order::{compare_bytes, lemma_lex_asymmetric, lemma_lex_transitive, lex_lt};
use crate::partition::{boundary, lemma_boundaries, lemma_partition_tokens, partition_tokens, split};
use crate::tokenizer::{fold_seq, is_delim, lemma_run_end_bounds, lemma_tokens_well_scanned, run_end, scan, tokens, tokens_view, well_scanned, Token, word_at};

verus! {

/// A term with its occurrence list, as held in an index.
pub type Entry = (Vec<u8>, Vec<u64>);

/// A map from each term to the offsets where it occurs, its keys distinct and
/// kept in byte-wise order.
pub struct Index {
    pub entries: Vec<Entry>,
}

pub open spec fn entry_view(e: Entry) -> (Seq<u8>, Seq<u64>) {
    (e.0@, e.1@)
}

pub open spec fn entries_view(v: Seq<Entry>) -> Seq<(Seq<u8>, Seq<u64>)> {
    v.map_values(|e: Entry| entry_view(e))
}

/// The occurrence list of `t` in a list of entries; empty when `t` is absent.
pub open spec fn find(s: Seq<(Seq<u8>, Seq<u64>)>, t: Seq<u8>) -> Seq<u64>
    decreases s.len(),
{
    if s.len() == 0 {
        Seq::empty()
    } else if s.last().0 == t {
        s.last().1
    } else {
        find(s.drop_last(), t)
    }
}

/// The offsets at which `t` occurs among `toks`, in their order.
pub open spec fn occ(toks: Seq<(Seq<u8>, u64)>, t: Seq<u8>) -> Seq<u64>
    decreases toks.len(),
{
    if toks.len() == 0 {
        Seq::empty()
    } else {
        occ(toks.drop_last(), t) + if toks.last().0 == t {
            seq![toks.last().1]
        } else {
            Seq::empty()
        }
    }
}

pub open spec fn keys_distinct(s: Seq<(Seq<u8>, Seq<u64>)>) -> bool {
    forall|i: int, j: int| 0 <= i < j < s.len() ==> (#[trigger] s[i]).0 != (#[trigger] s[j]).0
}

/// Keys in strictly increasing byte-wise order.
pub open spec fn keys_sorted(s: Seq<(Seq<u8>, Seq<u64>)>) -> bool {
    forall|i: int, j: int| 0 <= i < j < s.len() ==> lex_lt((#[trigger] s[i]).0, (#[trigger] s[j]).0)
}

impl Index {
    pub open spec fn view_entries(&self) -> Seq<(Seq<u8>, Seq<u64>)> {
        entries_view(self.entries@)
    }

    /// Keys are distinct and sorted, and no occurrence list is empty.
    pub open spec fn wf(&self) -> bool {
        &&& keys_distinct(self.view_entries())
        &&& keys_sorted(self.view_entries())
        &&& forall|i: int| 0 <= i < self.view_entries().len() ==> (#[trigger] self.view_entries()[i]).1.len() > 0
    }

    /// The occurrence list of `t`; empty when the index does not hold `t`.
    pub open spec fn lookup(&self, t: Seq<u8>) -> Seq<u64> {
        find(self.view_entries(), t)
    }
}

/// Concatenation of the occurrence lists of `t` in a sequence of indexes, in order.
pub open spec fn merged(ls: Seq<Index>, t: Seq<u8>) -> Seq<u64>
    decreases ls.len(),
{
    if ls.len() == 0 {
        Seq::empty()
    } else {
        merged(ls.drop_last(), t) + ls.last().lookup(t)
    }
}

/// The occurrence list of `t` that a build over `n` partitions yields: the
/// concatenation, partition after partition, of what each one's scan found.
pub open spec fn built(data: Seq<u8>, n: int, t: Seq<u8>) -> Seq<u64> {
    occ(partition_tokens(data, n, n), t)
}

/// The occurrence list of `t` that one scan over the whole of `data` yields.
pub open spec fn reference(data: Seq<u8>, t: Seq<u8>) -> Seq<u64> {
    occ(tokens(data, 0, data.len() as int), t)
}

proof fn lemma_find_absent(s: Seq<(Seq<u8>, Seq<u64>)>, t: Seq<u8>)
    requires
        forall|i: int| 0 <= i < s.len() ==> (#[trigger] s[i]).0 != t,
    ensures
        find(s, t) == Seq::<u64>::empty(),
    decreases s.len(),
{
    if s.len() > 0 {
        assert(s[s.len() - 1].0 != t);
        lemma_find_absent(s.drop_last(), t);
    }
}

proof fn lemma_find_at(s: Seq<(Seq<u8>, Seq<u64>)>, k: int)
    requires
        keys_distinct(s),
        0 <= k < s.len(),
    ensures
        find(s, s[k].0) == s[k].1,
    decreases s.len(),
{
    if k < s.len() - 1 {
        assert(s[s.len() - 1].0 != s[k].0);
        assert(s.drop_last()[k] == s[k]);
        lemma_find_at(s.drop_last(), k);
    }
}

/// Replacing the list of entry `k` changes the lookup of its key alone.
proof fn lemma_find_update(s: Seq<(Seq<u8>, Seq<u64>)>, k: int, v: Seq<u64>, t: Seq<u8>)
    requires
        keys_distinct(s),
        0 <= k < s.len(),
    ensures
        find(s.update(k, (s[k].0, v)), t) == if t == s[k].0 {
            v
        } else {
            find(s, t)
        },
    decreases s.len(),
{
    let s2 = s.update(k, (s[k].0, v));
    if t == s[k].0 {
        assert(keys_distinct(s2)) by {
            assert forall|i: int, j: int| 0 <= i < j < s2.len() implies (#[trigger] s2[i]).0 != (#[trigger] s2[j]).0 by {
                assert(s2[i].0 == s[i].0 && s2[j].0 == s[j].0);
            }
        }
        lemma_find_at(s2, k);
    } else if k < s.len() - 1 {
        assert(s2.drop_last() =~= s.drop_last().update(k, (s[k].0, v)));
        assert(keys_distinct(s.drop_last()));
        assert(s.drop_last()[k] == s[k]);
        lemma_find_update(s.drop_last(), k, v, t);
    } else {
        assert(s2.drop_last() =~= s.drop_last());
    }
}

/// Inserting an entry for a new key changes the lookup of that key alone.
proof fn lemma_find_insert(s: Seq<(Seq<u8>, Seq<u64>)>, p: int, t: Seq<u8>, v: Seq<u64>, u: Seq<u8>)
    requires
        0 <= p <= s.len(),
        keys_distinct(s.insert(p, (t, v))),
        forall|i: int| 0 <= i < s.len() ==> (#[trigger] s[i]).0 != t,
    ensures
        find(s.insert(p, (t, v)), u) == if u == t {
            v
        } else {
            find(s, u)
        },
{
    let s1 = s.insert(p, (t, v));
    assert(s1[p] == (t, v));
    if u == t {
        lemma_find_at(s1, p);
    } else if exists|i: int| 0 <= i < s.len() && (#[trigger] s[i]).0 == u {
        let i = choose|i: int| 0 <= i < s.len() && (#[trigger] s[i]).0 == u;
        let i1 = if i < p { i } else { i + 1 };
        assert(s1[i1] == s[i]);
        assert(keys_distinct(s)) by {
            assert forall|a: int, b: int| 0 <= a < b < s.len() implies (#[trigger] s[a]).0 != (#[trigger] s[b]).0 by {
                let a1 = if a < p { a } else { a + 1 };
                let b1 = if b < p { b } else { b + 1 };
                assert(s1[a1] == s[a] && s1[b1] == s[b]);
            }
        }
        lemma_find_at(s, i);
        lemma_find_at(s1, i1);
    } else {
        assert forall|j: int| 0 <= j < s1.len() implies (#[trigger] s1[j]).0 != u by {
            if j < p {
                assert(s1[j] == s[j]);
            } else if j > p {
                assert(s1[j] == s[j - 1]);
            }
        }
        lemma_find_absent(s, u);
        lemma_find_absent(s1, u);
    }
}

pub proof fn lemma_occ_concat(a: Seq<(Seq<u8>, u64)>, b: Seq<(Seq<u8>, u64)>, t: Seq<u8>)
    ensures
        occ(a + b, t) == occ(a, t) + occ(b, t),
    decreases b.len(),
{
    if b.len() == 0 {
        assert(a + b =~= a);
        assert(occ(a, t) + Seq::<u64>::empty() =~= occ(a, t));
    } else {
        assert((a + b).drop_last() =~= a + b.drop_last());
        lemma_occ_concat(a, b.drop_last(), t);
        let tail = if b.last().0 == t { seq![b.last().1] } else { Seq::<u64>::empty() };
        assert(occ(a, t) + occ(b.drop_last(), t) + tail =~= occ(a, t) + (occ(b.drop_last(), t) + tail));
    }
}

/// A vector holding the elements of `s`.
fn copy_of<T: Copy>(s: &[T]) -> (r: Vec<T>)
    ensures
        r@ == s@,
{
    let mut r: Vec<T> = Vec::new();
    let mut i: usize = 0;
    while i < s.len()
        invariant
            i <= s@.len(),
            r@ == s@.subrange(0, i as int),
        decreases s@.len() - i,
    {
        r.push(s[i]);
        assert(s@.subrange(0, i + 1) =~= s@.subrange(0, i as int).push(s@[i as int]));
        i = i + 1;
    }
    assert(s@.subrange(0, s@.len() as int) =~= s@);
    r
}

/// Offsets in non-decreasing order.
pub open spec fn ascending(s: Seq<u64>) -> bool {
    forall|i: int, j: int| 0 <= i < j < s.len() ==> s[i] <= s[j]
}

/// Sorts offsets in place, ascending; the offsets themselves are kept.
fn sort_offsets(v: &mut Vec<u64>)
    ensures
        ascending(final(v)@),
        final(v)@.to_multiset() == old(v)@.to_multiset(),
        final(v)@.len() == old(v)@.len(),
{
    broadcast use vstd::seq_lib::group_to_multiset_ensures;
    broadcast use vstd::multiset::group_multiset_axioms;

    let ghost v0 = v@;
    let n: usize = v.len();
    let mut i: usize = 1;
    while i < n
        invariant
            v@.len() == n,
            v@.to_multiset() == v0.to_multiset(),
            n == 0 || 1 <= i <= n,
            forall|a: int, b: int| 0 <= a < b < i ==> v@[a] <= v@[b],
        decreases n - i,
    {
        let mut j: usize = i;
        while j > 0 && v[j - 1] > v[j]
            invariant
                v@.len() == n,
                v@.to_multiset() == v0.to_multiset(),
                i < n,
                j <= i,
                forall|a: int, b: int| 0 <= a < b <= i && a != j && b != j ==> v@[a] <= v@[b],
                forall|b: int| j < b <= i ==> v@[j as int] <= v@[b],
            decreases j,
        {
            let x = v[j - 1];
            let y = v[j];
            let ghost before = v@;
            v.set(j - 1, y);
            v.set(j, x);
            proof {
                let s1 = before.update(j - 1, y);
                assert(v@ == s1.update(j as int, x));
                vstd::seq_lib::to_multiset_update(before, j - 1, y);
                vstd::seq_lib::to_multiset_update(s1, j as int, x);
                before.to_multiset_ensures();
                assert(before.contains(x)) by {
                    assert(before[j - 1] == x);
                }
                let m = before.to_multiset();
                assert(m.count(x) > 0);
                assert(v@.to_multiset() == m.insert(y).remove(x).insert(x).remove(y));
                assert forall|a: u64| #[trigger] v@.to_multiset().count(a) == m.count(a) by {}
                assert(v@.to_multiset() =~= m);
            }
            j = j - 1;
        }
        i = i + 1;
    }
}

impl Index {
    /// An index that holds no term.
    pub fn new() -> (r: Index)
        ensures
            r.wf(),
            forall|t: Seq<u8>| #[trigger] r.lookup(t) == Seq::<u64>::empty(),
    {
        Index { entries: Vec::new() }
    }

    /// The number of distinct terms.
    pub fn len(&self) -> (r: usize)
        ensures
            r == self.view_entries().len(),
    {
        self.entries.len()
    }

    /// Where `t` is held (`Ok`), or where it would be inserted to keep the keys
    /// sorted (`Err`).
    fn position(&self, t: &[u8]) -> (r: Result<usize, usize>)
        requires
            keys_sorted(self.view_entries()),
        ensures
            match r {
                Ok(k) => k < self.view_entries().len() && self.view_entries()[k as int].0 == t@,
                Err(p) => {
                    &&& p <= self.view_entries().len()
                    &&& forall|i: int| 0 <= i < p ==> lex_lt((#[trigger] self.view_entries()[i]).0, t@)
                    &&& forall|i: int| p <= i < self.view_entries().len() ==> lex_lt(t@, (#[trigger] self.view_entries()[i]).0)
                },
            },
    {
        let ghost ve = self.view_entries();
        let mut lo: usize = 0;
        let mut hi: usize = self.entries.len();
        while lo < hi
            invariant
                lo <= hi <= ve.len(),
                ve == self.view_entries(),
                keys_sorted(ve),
                forall|i: int| 0 <= i < lo ==> lex_lt((#[trigger] ve[i]).0, t@),
                forall|i: int| hi <= i < ve.len() ==> lex_lt(t@, (#[trigger] ve[i]).0),
            decreases hi - lo,
        {
            let mid: usize = lo + (hi - lo) / 2;
            let c = compare_bytes(self.entries[mid].0.as_slice(), t);
            if c == 0 {
                return Ok(mid);
            } else if c < 0 {
                assert forall|i: int| 0 <= i < mid + 1 implies lex_lt((#[trigger] ve[i]).0, t@) by {
                    if i < mid {
                        lemma_lex_transitive(ve[i].0, ve[mid as int].0, t@);
                    }
                }
                lo = mid + 1;
            } else {
                assert forall|i: int| mid <= i < ve.len() implies lex_lt(t@, (#[trigger] ve[i]).0) by {
                    if i > mid {
                        lemma_lex_transitive(t@, ve[mid as int].0, ve[i].0);
                    }
                }
                hi = mid;
            }
        }
        Err(lo)
    }

    proof fn lemma_absent_at(&self, p: int, t: Seq<u8>)
        requires
            p <= self.view_entries().len(),
            forall|i: int| 0 <= i < p ==> lex_lt((#[trigger] self.view_entries()[i]).0, t),
            forall|i: int| p <= i < self.view_entries().len() ==> lex_lt(t, (#[trigger] self.view_entries()[i]).0),
        ensures
            forall|i: int| 0 <= i < self.view_entries().len() ==> (#[trigger] self.view_entries()[i]).0 != t,
    {
        let ve = self.view_entries();
        assert forall|i: int| 0 <= i < ve.len() implies (#[trigger] ve[i]).0 != t by {
            if i < p {
                lemma_lex_asymmetric(ve[i].0, t);
            } else {
                lemma_lex_asymmetric(t, ve[i].0);
            }
        }
    }

    /// The occurrence list of `t`, when the index holds it.
    pub fn find_list(&self, t: &[u8]) -> (r: Option<&Vec<u64>>)
        requires
            self.wf(),
        ensures
            match r {
                Some(l) => l@ == self.lookup(t@) && l@.len() > 0,
                None => self.lookup(t@) == Seq::<u64>::empty(),
            },
    {
        match self.position(t) {
            Ok(k) => {
                proof {
                    lemma_find_at(self.view_entries(), k as int);
                }
                Some(&self.entries[k].1)
            },
            Err(p) => {
                proof {
                    self.lemma_absent_at(p as int, t@);
                    lemma_find_absent(self.view_entries(), t@);
                }
                None
            },
        }
    }

    /// Adds the offsets `offs` at the end of the occurrence list of `term`.
    pub fn append(&mut self, term: &[u8], offs: &[u64])
        requires
            old(self).wf(),
            offs@.len() > 0,
        ensures
            final(self).wf(),
            forall|t: Seq<u8>| #[trigger] final(self).lookup(t) == if t == term@ {
                old(self).lookup(t) + offs@
            } else {
                old(self).lookup(t)
            },
    {
        let ghost s0 = self.view_entries();
        match self.position(term) {
            Ok(k) => {
                let mut list: Vec<u64> = Vec::new();
                let mut key: Vec<u8> = Vec::new();
                std::mem::swap(&mut list, &mut self.entries[k].1);
                std::mem::swap(&mut key, &mut self.entries[k].0);
                let ghost l0 = list@;
                let mut i: usize = 0;
                while i < offs.len()
                    invariant
                        i <= offs@.len(),
                        list@ == l0 + offs@.subrange(0, i as int),
                    decreases offs@.len() - i,
                {
                    list.push(offs[i]);
                    assert(l0 + offs@.subrange(0, i + 1) =~= (l0 + offs@.subrange(0, i as int)).push(offs@[i as int]));
                    i = i + 1;
                }
                assert(offs@.subrange(0, offs@.len() as int) =~= offs@);
                self.entries.set(k, (key, list));
                proof {
                    assert(self.view_entries() =~= s0.update(k as int, (s0[k as int].0, l0 + offs@)));
                    lemma_find_at(s0, k as int);
                    assert forall|t: Seq<u8>| #[trigger] self.lookup(t) == if t == term@ {
                        find(s0, t) + offs@
                    } else {
                        find(s0, t)
                    } by {
                        lemma_find_update(s0, k as int, l0 + offs@, t);
                    }
                }
            },
            Err(p) => {
                let key = copy_of(term);
                let list = copy_of(offs);
                proof {
                    self.lemma_absent_at(p as int, term@);
                }
                self.entries.insert(p, (key, list));
                proof {
                    let s1 = self.view_entries();
                    assert(s1 =~= s0.insert(p as int, (term@, offs@)));
                    assert forall|i: int, j: int| 0 <= i < j < s1.len() implies lex_lt((#[trigger] s1[i]).0, (#[trigger] s1[j]).0) by {
                        if j < p {
                            assert(s1[i] == s0[i] && s1[j] == s0[j]);
                        } else if j == p {
                            assert(s1[i] == s0[i]);
                        } else if i < p {
                            assert(s1[i] == s0[i] && s1[j] == s0[j - 1]);
                            lemma_lex_transitive(s0[i].0, term@, s0[j - 1].0);
                        } else if i == p {
                            assert(s1[j] == s0[j - 1]);
                        } else {
                            assert(s1[i] == s0[i - 1] && s1[j] == s0[j - 1]);
                        }
                    }
                    assert forall|i: int, j: int| 0 <= i < j < s1.len() implies (#[trigger] s1[i]).0 != (#[trigger] s1[j]).0 by {
                        lemma_lex_asymmetric(s1[i].0, s1[j].0);
                    }
                    assert forall|i: int| 0 <= i < s1.len() implies (#[trigger] s1[i]).1.len() > 0 by {
                        if i < p {
                            assert(s1[i] == s0[i]);
                        } else if i > p {
                            assert(s1[i] == s0[i - 1]);
                        }
                    }
                    lemma_find_absent(s0, term@);
                    assert(Seq::<u64>::empty() + offs@ =~= offs@);
                    assert forall|t: Seq<u8>| #[trigger] self.lookup(t) == if t == term@ {
                        find(s0, t) + offs@
                    } else {
                        find(s0, t)
                    } by {
                        lemma_find_insert(s0, p as int, term@, offs@, t);
                    }
                }
            },
        }
    }

    /// Records one more occurrence of `term` at offset `o`.
    pub fn add(&mut self, term: &[u8], o: u64)
        requires
            old(self).wf(),
        ensures
            final(self).wf(),
            forall|t: Seq<u8>| #[trigger] final(self).lookup(t) == if t == term@ {
                old(self).lookup(t).push(o)
            } else {
                old(self).lookup(t)
            },
    {
        let one: Vec<u64> = vec![o];
        assert(one@ =~= seq![o]);
        self.append(term, one.as_slice());
        assert forall|t: Seq<u8>| t == term@ implies #[trigger] old(self).lookup(t) + seq![o] =~= old(self).lookup(t).push(o) by {}
    }

    /// The local index of a list of scanned tokens: every occurrence, in token order.
    pub fn from_tokens(toks: &Vec<Token>) -> (r: Index)
        ensures
            r.wf(),
            forall|t: Seq<u8>| #[trigger] r.lookup(t) == occ(tokens_view(toks@), t),
    {
        let mut r = Index::new();
        let ghost tv = tokens_view(toks@);
        let mut i: usize = 0;
        while i < toks.len()
            invariant
                i <= toks@.len(),
                tv == tokens_view(toks@),
                r.wf(),
                forall|t: Seq<u8>| #[trigger] r.lookup(t) == occ(tv.subrange(0, i as int), t),
            decreases toks@.len() - i,
        {
            r.add(toks[i].0.as_slice(), toks[i].1);
            proof {
                assert(tv.subrange(0, i + 1).drop_last() =~= tv.subrange(0, i as int));
                assert forall|t: Seq<u8>| #[trigger] r.lookup(t) == occ(tv.subrange(0, i + 1), t) by {
                    let tail = if tv[i as int].0 == t { seq![tv[i as int].1] } else { Seq::<u64>::empty() };
                    assert(occ(tv.subrange(0, i as int), t) + tail =~= if t == toks@[i as int].0@ {
                        occ(tv.subrange(0, i as int), t).push(toks@[i as int].1)
                    } else {
                        occ(tv.subrange(0, i as int), t)
                    });
                }
            }
            i = i + 1;
        }
        assert(tv.subrange(0, toks@.len() as int) =~= tv);
        r
    }

    /// Concatenates, in the given order, the occurrence lists of each term in `locals`.
    fn concat_all(locals: &Vec<Index>) -> (r: Index)
        requires
            forall|i: int| 0 <= i < locals@.len() ==> (#[trigger] locals@[i]).wf(),
        ensures
            r.wf(),
            forall|t: Seq<u8>| #[trigger] r.lookup(t) == merged(locals@, t),
    {
        let mut r = Index::new();
        let mut i: usize = 0;
        while i < locals.len()
            invariant
                i <= locals@.len(),
                forall|k: int| 0 <= k < locals@.len() ==> (#[trigger] locals@[k]).wf(),
                r.wf(),
                forall|t: Seq<u8>| #[trigger] r.lookup(t) == merged(locals@.subrange(0, i as int), t),
            decreases locals@.len() - i,
        {
            let local = &locals[i];
            let ghost le = local.view_entries();
            let ghost before = r;
            let mut j: usize = 0;
            assert(local.wf());
            while j < local.entries.len()
                invariant
                    j <= le.len(),
                    le == local.view_entries(),
                    local.wf(),
                    r.wf(),
                    forall|t: Seq<u8>| #[trigger] r.lookup(t) == before.lookup(t) + find(le.subrange(0, j as int), t),
                decreases le.len() - j,
            {
                assert(le[j as int].1.len() > 0);
                r.append(local.entries[j].0.as_slice(), local.entries[j].1.as_slice());
                proof {
                    let pre = le.subrange(0, j as int);
                    assert(le.subrange(0, j + 1).drop_last() =~= pre);
                    assert forall|t: Seq<u8>| #[trigger] r.lookup(t) == before.lookup(t) + find(le.subrange(0, j + 1), t) by {
                        if t == le[j as int].0 {
                            assert forall|k: int| 0 <= k < pre.len() implies (#[trigger] pre[k]).0 != t by {
                                assert(pre[k] == le[k]);
                            }
                            lemma_find_absent(pre, t);
                            assert(before.lookup(t) + Seq::<u64>::empty() =~= before.lookup(t));
                        }
                    }
                }
                j = j + 1;
            }
            proof {
                assert(le.subrange(0, le.len() as int) =~= le);
                assert(locals@.subrange(0, i + 1).drop_last() =~= locals@.subrange(0, i as int));
            }
            i = i + 1;
        }
        assert(locals@.subrange(0, locals@.len() as int) =~= locals@);
        r
    }
}

impl Index {
    /// Combines local indexes into one: the occurrence list of each term holds
    /// every offset that the local indexes hold for it, sorted ascending, so that
    /// the order in which workers report does not matter.
    pub fn merge(locals: &Vec<Index>) -> (r: Index)
        requires
            forall|i: int| 0 <= i < locals@.len() ==> (#[trigger] locals@[i]).wf(),
        ensures
            r.wf(),
            forall|t: Seq<u8>| ascending(#[trigger] r.lookup(t)),
            forall|t: Seq<u8>| (#[trigger] r.lookup(t)).to_multiset() == merged(locals@, t).to_multiset(),
    {
        let mut r = Index::concat_all(locals);
        let ghost v0 = r.view_entries();
        assert forall|t: Seq<u8>| #[trigger] find(v0, t) == merged(locals@, t) by {
            assert(r.lookup(t) == find(v0, t));
        }
        let mut k: usize = 0;
        while k < r.entries.len()
            invariant
                k <= r.view_entries().len(),
                r.view_entries().len() == v0.len(),
                keys_distinct(v0),
                keys_sorted(v0),
                forall|t: Seq<u8>| #[trigger] find(v0, t) == merged(locals@, t),
                forall|i: int| 0 <= i < v0.len() ==> v0[i].1.len() > 0,
                forall|i: int| 0 <= i < v0.len() ==> (#[trigger] r.view_entries()[i]).0 == v0[i].0,
                forall|i: int| 0 <= i < v0.len() ==> (#[trigger] r.view_entries()[i]).1.to_multiset() == v0[i].1.to_multiset(),
                forall|i: int| 0 <= i < v0.len() ==> (#[trigger] r.view_entries()[i]).1.len() == v0[i].1.len(),
                forall|i: int| 0 <= i < k ==> ascending((#[trigger] r.view_entries()[i]).1),
            decreases v0.len() - k,
        {
            let ghost prev = r.view_entries();
            let mut list: Vec<u64> = Vec::new();
            let mut key: Vec<u8> = Vec::new();
            std::mem::swap(&mut list, &mut r.entries[k].1);
            std::mem::swap(&mut key, &mut r.entries[k].0);
            assert(key@ == prev[k as int].0 && list@ == prev[k as int].1);
            sort_offsets(&mut list);
            r.entries.set(k, (key, list));
            proof {
                assert forall|i: int| 0 <= i < v0.len() && i != k implies #[trigger] r.view_entries()[i] == prev[i] by {}
                assert(r.view_entries()[k as int] == (prev[k as int].0, list@));
            }
            k = k + 1;
        }
        proof {
            let ve = r.view_entries();
            assert(keys_sorted(ve)) by {
                assert forall|i: int, j: int| 0 <= i < j < ve.len() implies lex_lt((#[trigger] ve[i]).0, (#[trigger] ve[j]).0) by {
                    assert(ve[i].0 == v0[i].0 && ve[j].0 == v0[j].0);
                }
            }
            assert(keys_distinct(ve)) by {
                assert forall|i: int, j: int| 0 <= i < j < ve.len() implies (#[trigger] ve[i]).0 != (#[trigger] ve[j]).0 by {
                    assert(ve[i].0 == v0[i].0 && ve[j].0 == v0[j].0);
                }
            }
            assert forall|t: Seq<u8>| ascending(#[trigger] r.lookup(t)) && r.lookup(t).to_multiset() == merged(locals@, t).to_multiset() by {
                if exists|i: int| 0 <= i < ve.len() && (#[trigger] ve[i]).0 == t {
                    let i = choose|i: int| 0 <= i < ve.len() && (#[trigger] ve[i]).0 == t;
                    lemma_find_at(ve, i);
                    lemma_find_at(v0, i);
                } else {
                    lemma_find_absent(ve, t);
                    assert forall|i: int| 0 <= i < v0.len() implies (#[trigger] v0[i]).0 != t by {
                        assert(ve[i].0 == v0[i].0);
                    }
                    lemma_find_absent(v0, t);
                }
            }
        }
        r
    }
}

/// The local index of one partition `[start, end)` of `data`.
pub fn index_partition(data: &[u8], start: usize, end: usize) -> (r: Index)
    requires
        start <= end <= data@.len(),
    ensures
        r.wf(),
        forall|t: Seq<u8>| #[trigger] r.lookup(t) == occ(tokens(data@, start as int, end as int), t),
{
    let toks = scan(data, start, end);
    Index::from_tokens(&toks)
}

/// Builds the index of `data` over `workers` partitions, scanned one after another
/// and merged: the same steps as a parallel build, with one thread per partition.
pub fn build(data: &[u8], workers: usize) -> (r: Index)
    requires
        workers >= 1,
        data@.len() <= u64::MAX,
    ensures
        r.wf(),
        forall|t: Seq<u8>| #[trigger] r.lookup(t) == built(data@, workers as int, t),
        forall|t: Seq<u8>| #[trigger] r.lookup(t) == reference(data@, t),
{
    let parts = split(data, workers);
    let ghost n = workers as int;
    proof {
        lemma_boundaries(data@, n);
    }
    let mut locals: Vec<Index> = Vec::new();
    let mut i: usize = 0;
    while i < parts.len()
        invariant
            parts@.len() == n,
            n >= 1,
            i <= n,
            locals@.len() == i,
            forall|k: int|
                0 <= k < n ==> (#[trigger] parts@[k]).0 == boundary(data@, n, k) && parts@[k].1 == boundary(
                    data@,
                    n,
                    k + 1,
                ),
            forall|i: int| 0 <= i <= n ==> crate::tokenizer::aligned(data@, #[trigger] boundary(data@, n, i)),
            forall|i: int, j: int| 0 <= i <= j <= n ==> #[trigger] boundary(data@, n, i) <= #[trigger] boundary(data@, n, j),
            boundary(data@, n, n) == data@.len(),
            forall|k: int| 0 <= k < i ==> (#[trigger] locals@[k]).wf(),
            forall|t: Seq<u8>| #[trigger] merged(locals@, t) == occ(partition_tokens(data@, n, i as int), t),
        decreases n - i,
    {
        let (s, e) = parts[i];
        let local = index_partition(data, s, e);
        let ghost old_locals = locals@;
        let ghost lg = local;
        locals.push(local);
        proof {
            assert(locals@.drop_last() =~= old_locals);
            assert(locals@.last() == lg);
            assert(s == boundary(data@, n, i as int) && e == boundary(data@, n, i + 1));
            assert forall|t: Seq<u8>| #[trigger] merged(locals@, t) == occ(partition_tokens(data@, n, i + 1), t) by {
                assert(merged(locals@, t) == merged(old_locals, t) + lg.lookup(t));
                assert(lg.lookup(t) == occ(tokens(data@, boundary(data@, n, i as int), boundary(data@, n, i + 1)), t));
                assert(partition_tokens(data@, n, i + 1) == partition_tokens(data@, n, i as int) + tokens(data@, boundary(data@, n, i as int), boundary(data@, n, i + 1)));
                lemma_occ_concat(
                    partition_tokens(data@, n, i as int),
                    tokens(data@, boundary(data@, n, i as int), boundary(data@, n, i + 1)),
                    t,
                );
            }
        }
        i = i + 1;
    }
    let r = Index::merge(&locals);
    proof {
        lemma_partition_tokens(data@, n, n);
        let toks = tokens(data@, 0, data@.len() as int);
        lemma_tokens_well_scanned(data@, 0, data@.len() as int);
        let leq = |a: u64, b: u64| a <= b;
        assert forall|t: Seq<u8>| #[trigger] r.lookup(t) == reference(data@, t) by {
            lemma_occ_props(toks, data@, 0, data@.len() as int, t);
            let x = r.lookup(t);
            let y = reference(data@, t);
            assert(vstd::relations::sorted_by(x, leq));
            assert(vstd::relations::sorted_by(y, leq)) by {
                assert forall|a: int, b: int| 0 <= a < b < y.len() implies #[trigger] leq(y[a], y[b]) by {}
            }
            vstd::seq_lib::lemma_sorted_unique(x, y, leq);
        }
    }
    r
}

/// The offsets at which `t` occurs among well-scanned tokens lie in the scanned
/// range, carry the word `t`, are bounded by the last token's offset, and strictly increase.
proof fn lemma_occ_props(toks: Seq<(Seq<u8>, u64)>, data: Seq<u8>, s: int, e: int, t: Seq<u8>)
    requires
        well_scanned(toks, data, s, e),
    ensures
        forall|k: int| 0 <= k < occ(toks, t).len() ==> s <= #[trigger] occ(toks, t)[k] < e && word_at(data, occ(toks, t)[k] as int) == t,
        forall|k: int| 0 <= k < occ(toks, t).len() ==> #[trigger] occ(toks, t)[k] == s || is_delim(data[occ(toks, t)[k] - 1]),
        toks.len() > 0 ==> forall|k: int| 0 <= k < occ(toks, t).len() ==> #[trigger] occ(toks, t)[k] <= toks.last().1,
        forall|a: int, b: int| 0 <= a < b < occ(toks, t).len() ==> (#[trigger] occ(toks, t)[a]) < (#[trigger] occ(toks, t)[b]),
    decreases toks.len(),
{
    if toks.len() == 0 {
        assert(occ(toks, t).len() == 0);
    } else {
        let init = toks.drop_last();
        let last = toks[toks.len() - 1];
        assert forall|i: int| 0 <= i < init.len() implies #[trigger] init[i] == toks[i] by {}
        assert(well_scanned(init, data, s, e));
        lemma_occ_props(init, data, s, e, t);
        let o = occ(init, t);
        let all = occ(toks, t);
        if init.len() > 0 {
            assert(init.last() == toks[toks.len() - 2]);
            assert(init.last().1 < last.1);
        }
        if last.0 == t {
            assert(all =~= o.push(last.1));
        } else {
            assert(all =~= o);
        }
        assert forall|k: int| 0 <= k < all.len() implies s <= #[trigger] all[k] < e && word_at(data, all[k] as int) == t && all[k] <= last.1 && (all[k] == s || is_delim(data[all[k] - 1])) by {
            if k < o.len() {
                assert(all[k] == o[k]);
            }
        }
        assert forall|a: int, b: int| 0 <= a < b < all.len() implies (#[trigger] all[a]) < (#[trigger] all[b]) by {
            assert(all[a] == o[a]);
            if b < o.len() {
                assert(all[b] == o[b]);
            }
        }
    }
}

/// Building with any two worker counts gives the same index, and both agree with
/// a single scan over the whole of `data`: partition boundaries neither cut nor
/// join words.
pub proof fn lemma_worker_count_irrelevant(data: Seq<u8>, n1: int, n2: int, t: Seq<u8>)
    requires
        n1 >= 1,
        n2 >= 1,
    ensures
        built(data, n1, t) == built(data, n2, t),
        built(data, n1, t) == reference(data, t),
{
    lemma_boundaries(data, n1);
    lemma_boundaries(data, n2);
    lemma_partition_tokens(data, n1, n1);
    lemma_partition_tokens(data, n2, n2);
}

/// Every recorded offset of a term, in an index built over any number of
/// workers, is a true occurrence of that term: the bytes from there, as long as
/// the term, fold to exactly the term, and a delimiter (or the start or end of
/// `data`) stands right before and right after them.
pub proof fn lemma_round_trip(data: Seq<u8>, n: int, t: Seq<u8>, k: int)
    requires
        n >= 1,
        0 <= k < built(data, n, t).len(),
        data.len() <= u64::MAX,
    ensures
        ({
            let o = built(data, n, t)[k] as int;
            &&& o + t.len() <= data.len()
            &&& fold_seq(data.subrange(o, o + t.len())) == t
            &&& word_at(data, o) == t
            &&& o == 0 || is_delim(data[o - 1])
            &&& o + t.len() == data.len() || is_delim(data[o + t.len()])
        }),
{
    lemma_worker_count_irrelevant(data, n, n, t);
    lemma_tokens_well_scanned(data, 0, data.len() as int);
    lemma_occ_props(tokens(data, 0, data.len() as int), data, 0, data.len() as int, t);
    let o = built(data, n, t)[k] as int;
    lemma_run_end_bounds(data, o);
    assert(word_at(data, o).len() == run_end(data, o) - o);
}

/// Every occurrence list, in an index built over any number of workers, is in
/// strictly increasing order of offsets.
pub proof fn lemma_occurrences_ordered(data: Seq<u8>, n: int, t: Seq<u8>, a: int, b: int)
    requires
        n >= 1,
        0 <= a < b < built(data, n, t).len(),
        data.len() <= u64::MAX,
    ensures
        built(data, n, t)[a] < built(data, n, t)[b],
{
    lemma_worker_count_irrelevant(data, n, n, t);
    lemma_tokens_well_scanned(data, 0, data.len() as int);
    lemma_occ_props(tokens(data, 0, data.len() as int), data, 0, data.len() as int, t);
}

/// Leaving one local index out of a merge takes away exactly its offsets.
proof fn lemma_merged_remove(ls: Seq<Index>, k: int, t: Seq<u8>)
    requires
        0 <= k < ls.len(),
    ensures
        merged(ls, t).to_multiset() == merged(ls.remove(k), t).to_multiset().add(ls[k].lookup(t).to_multiset()),
    decreases ls.len(),
{
    broadcast use vstd::seq_lib::lemma_multiset_commutative;
    broadcast use vstd::multiset::group_multiset_axioms;

    let init = ls.drop_last();
    if k == ls.len() - 1 {
        assert(ls.remove(k) =~= init);
    } else {
        assert(ls.remove(k).drop_last() =~= init.remove(k));
        assert(ls.remove(k).last() == ls.last());
        assert(init[k] == ls[k]);
        lemma_merged_remove(init, k, t);
        let a = merged(init.remove(k), t).to_multiset();
        let b = ls[k].lookup(t).to_multiset();
        let c = ls.last().lookup(t).to_multiset();
        assert(a.add(b).add(c) =~= a.add(c).add(b));
    }
}

/// The offsets that a merge collects for a term do not depend on the order of
/// the local indexes.
proof fn lemma_merged_permutation(a: Seq<Index>, b: Seq<Index>, t: Seq<u8>)
    requires
        a.to_multiset() == b.to_multiset(),
    ensures
        merged(a, t).to_multiset() == merged(b, t).to_multiset(),
    decreases a.len(),
{
    broadcast use vstd::seq_lib::group_to_multiset_ensures;
    broadcast use vstd::seq_lib::lemma_multiset_commutative;
    broadcast use vstd::multiset::group_multiset_axioms;

    a.to_multiset_ensures();
    b.to_multiset_ensures();
    if a.len() == 0 {
        assert(b.len() == 0);
        assert(merged(b, t) == Seq::<u64>::empty());
    } else {
        let x = a.last();
        assert(a.contains(x)) by {
            assert(a[a.len() - 1] == x);
        }
        assert(a.to_multiset().count(x) > 0);
        assert(b.to_multiset().count(x) > 0);
        assert(b.contains(x));
        let k = choose|k: int| 0 <= k < b.len() && b[k] == x;
        let a1 = a.drop_last();
        let b1 = b.remove(k);
        assert(a1.to_multiset() =~= a.to_multiset().remove(x)) by {
            assert(a =~= a1.push(x));
        }
        assert(b1.to_multiset() =~= b.to_multiset().remove(x));
        lemma_merged_permutation(a1, b1, t);
        lemma_merged_remove(b, k, t);
    }
}

/// Two merges of the same local indexes, taken in any two orders, give the same
/// occurrence list for every term: what a merge returns is sorted and holds the
/// offsets of the local indexes, and only one list does both.
pub proof fn lemma_merge_order_irrelevant(x: Index, y: Index, a: Seq<Index>, b: Seq<Index>, t: Seq<u8>)
    requires
        a.to_multiset() == b.to_multiset(),
        ascending(x.lookup(t)),
        x.lookup(t).to_multiset() == merged(a, t).to_multiset(),
        ascending(y.lookup(t)),
        y.lookup(t).to_multiset() == merged(b, t).to_multiset(),
    ensures
        x.lookup(t) == y.lookup(t),
{
    lemma_merged_permutation(a, b, t);
    let leq = |p: u64, q: u64| p <= q;
    let xs = x.lookup(t);
    let ys = y.lookup(t);
    assert(vstd::relations::sorted_by(xs, leq)) by {
        assert forall|i: int, j: int| 0 <= i < j < xs.len() implies #[trigger] leq(xs[i], xs[j]) by {}
    }
    assert(vstd::relations::sorted_by(ys, leq)) by {
        assert forall|i: int, j: int| 0 <= i < j < ys.len() implies #[trigger] leq(ys[i], ys[j]) by {}
    }
    vstd::seq_lib::lemma_sorted_unique(xs, ys, leq);
}

} // verus!
