use vstd::prelude::*;

use crate::order::{
    bytes_less, bytes_lt, lemma_bytes_lt_asymmetric, lemma_bytes_lt_irreflexive, lemma_bytes_lt_total,
    lemma_bytes_lt_transitive,
};

verus! {

/// One match of a query: the key found in the index, its weight, and whether
/// it equals the normalized query.
#[derive(Clone, Debug, PartialEq, Eq)]
pub struct SearchResult {
    pub key: Vec<u8>,
    pub value: u64,
    pub is_exact: bool,
}

/// The mathematical content of a `SearchResult`.
pub ghost struct ResultView {
    pub key: Seq<u8>,
    pub value: u64,
    pub is_exact: bool,
}

impl View for SearchResult {
    type V = ResultView;

    open spec fn view(&self) -> ResultView {
        ResultView { key: self.key@, value: self.value, is_exact: self.is_exact }
    }
}

/// The contents of a sequence of results.
pub open spec fn views(s: Seq<SearchResult>) -> Seq<ResultView> {
    s.map_values(|r: SearchResult| r@)
}

/// The ranking order, best first: an exact match beats a fuzzy one, then the
/// higher weight wins, then the lexicographically smaller key.
pub open spec fn better(a: ResultView, b: ResultView) -> bool {
    if a.is_exact != b.is_exact {
        a.is_exact
    } else if a.value != b.value {
        a.value > b.value
    } else {
        bytes_lt(a.key, b.key)
    }
}

pub proof fn lemma_better_irreflexive(a: ResultView)
    ensures
        !better(a, a),
{
    lemma_bytes_lt_irreflexive(a.key);
}

pub proof fn lemma_better_asymmetric(a: ResultView, b: ResultView)
    ensures
        !(better(a, b) && better(b, a)),
{
    lemma_bytes_lt_asymmetric(a.key, b.key);
}

pub proof fn lemma_better_total(a: ResultView, b: ResultView)
    requires
        a.key != b.key,
    ensures
        better(a, b) || better(b, a),
{
    lemma_bytes_lt_total(a.key, b.key);
}

pub proof fn lemma_better_transitive(a: ResultView, b: ResultView, c: ResultView)
    requires
        better(a, b),
        better(b, c),
    ensures
        better(a, c),
{
    if a.is_exact == b.is_exact && b.is_exact == c.is_exact && a.value == b.value && b.value
        == c.value {
        lemma_bytes_lt_transitive(a.key, b.key, c.key);
    }
}

/// Each key occurs at most once among the candidates.
pub open spec fn keys_distinct(pool: Set<ResultView>) -> bool {
    forall|a: ResultView, b: ResultView|
        pool.contains(a) && pool.contains(b) && a.key == b.key ==> a == b
}

/// Strictly decreasing in rank: each entry is better than every later one.
pub open spec fn ranked(r: Seq<ResultView>) -> bool {
    forall|i: int, j: int| 0 <= i < j < r.len() ==> better(r[i], r[j])
}

/// `r` lists the `k` best members of `pool` (all of them when there are fewer),
/// best first.
pub open spec fn is_top_k(r: Seq<ResultView>, pool: Set<ResultView>, k: nat) -> bool {
    &&& pool.finite()
    &&& r.len() == if pool.len() < k { pool.len() } else { k }
    &&& forall|i: int| 0 <= i < r.len() ==> pool.contains(#[trigger] r[i])
    &&& ranked(r)
    &&& forall|p: ResultView|
        pool.contains(p) && !r.contains(p) ==> forall|i: int|
            0 <= i < r.len() ==> better(#[trigger] r[i], p)
}

/// Ranks two results.
pub fn is_better(a: &SearchResult, b: &SearchResult) -> (r: bool)
    ensures
        r == better(a@, b@),
{
    if a.is_exact != b.is_exact {
        a.is_exact
    } else if a.value != b.value {
        a.value > b.value
    } else {
        bytes_less(a.key.as_slice(), b.key.as_slice())
    }
}

proof fn lemma_insert_ranked(s: Seq<ResultView>, x: ResultView, p: int)
    requires
        ranked(s),
        0 <= p <= s.len(),
        forall|j: int| 0 <= j < p ==> better(s[j], x),
        p < s.len() ==> better(x, s[p]),
    ensures
        ranked(s.insert(p, x)),
{
    let t = s.insert(p, x);
    assert forall|i: int, j: int| 0 <= i < j < t.len() implies better(t[i], t[j]) by {
        if i == p && j > p {
            if j - 1 > p {
                lemma_better_transitive(x, s[p], s[j - 1]);
            }
        }
    }
}

/// Places `x` into the ranked list `held` at the position its rank gives it.
fn insert_ranked(held: &mut Vec<SearchResult>, x: SearchResult)
    requires
        ranked(views(old(held)@)),
        forall|i: int| 0 <= i < old(held)@.len() ==> old(held)@[i].key@ != x.key@,
    ensures
        ranked(views(final(held)@)),
        exists|p: int|
            0 <= p <= old(held)@.len() && views(final(held)@) == views(old(held)@).insert(p, x@),
{
    let mut p: usize = 0;
    while p < held.len() && !is_better(&x, &held[p])
        invariant
            p <= held@.len(),
            held@ == old(held)@,
            forall|i: int| 0 <= i < held@.len() ==> held@[i].key@ != x.key@,
            forall|j: int| 0 <= j < p ==> better(held@[j]@, x@),
        decreases held.len() - p,
    {
        proof {
            lemma_better_total(held@[p as int]@, x@);
        }
        p = p + 1;
    }
    proof {
        lemma_insert_ranked(views(held@), x@, p as int);
    }
    let ghost before = held@;
    held.insert(p, x);
    proof {
        assert(views(held@) =~= views(before).insert(p as int, x@));
    }
}

proof fn lemma_insert_contains(s: Seq<ResultView>, p: int, x: ResultView, v: ResultView)
    requires
        0 <= p <= s.len(),
    ensures
        s.insert(p, x).contains(v) <==> (s.contains(v) || v == x),
{
    let t = s.insert(p, x);
    if s.contains(v) {
        let i = choose|i: int| 0 <= i < s.len() && s[i] == v;
        if i < p {
            assert(t[i] == v);
        } else {
            assert(t[i + 1] == v);
        }
    }
    if v == x {
        assert(t[p] == v);
    }
    if t.contains(v) {
        let i = choose|i: int| 0 <= i < t.len() && t[i] == v;
        if i < p {
            assert(s[i] == v);
        } else if i > p {
            assert(s[i - 1] == v);
        }
    }
}

proof fn lemma_drop_last_contains(s: Seq<ResultView>, v: ResultView)
    requires
        s.len() > 0,
    ensures
        s.drop_last().contains(v) ==> s.contains(v),
        s.contains(v) && v != s.last() ==> s.drop_last().contains(v),
{
    if s.drop_last().contains(v) {
        let i = choose|i: int| 0 <= i < s.len() - 1 && s.drop_last()[i] == v;
        assert(s[i] == v);
    }
    if s.contains(v) && v != s.last() {
        let i = choose|i: int| 0 <= i < s.len() && s[i] == v;
        assert(s.drop_last()[i] == v);
    }
}

/// Keeps the `k` best of `candidates` under the ranking order and returns them
/// best first. The held results stay ranked at all times, so the worst of them
/// is the last one: a candidate that does not beat it is dropped at once, and
/// one that does replaces it.
pub fn rank(candidates: Vec<SearchResult>, k: usize) -> (r: Vec<SearchResult>)
    requires
        forall|i: int, j: int|
            0 <= i < j < candidates@.len() ==> candidates@[i].key@ != candidates@[j].key@,
    ensures
        is_top_k(views(r@), views(candidates@).to_set(), k as nat),
{
    let ghost all = views(candidates@);
    let ghost n = candidates@.len();
    let mut rest = candidates;
    let mut held: Vec<SearchResult> = Vec::new();
    let ghost mut pool: Set<ResultView> = Set::empty();
    assert(views(held@) =~= Seq::<ResultView>::empty());
    while rest.len() > 0
        invariant
            n == all.len(),
            rest@.len() <= n,
            views(rest@) == all.subrange(0, rest@.len() as int),
            forall|i: int, j: int| 0 <= i < j < n ==> all[i].key != all[j].key,
            forall|v: ResultView|
                pool.contains(v) <==> exists|j: int| rest@.len() <= j < n && all[j] == v,
            pool.len() == n - rest@.len(),
            is_top_k(views(held@), pool, k as nat),
            held@.len() < k ==> forall|v: ResultView|
                pool.contains(v) ==> views(held@).contains(v),
        decreases rest@.len(),
    {
        let ghost m = (rest@.len() - 1) as int;
        let ghost old_held = views(held@);
        let ghost old_pool = pool;
        let ghost old_rest = rest@;
        let x = rest.pop().unwrap();
        proof {
            assert(views(old_rest)[m] == old_rest[m]@);
            assert(all.subrange(0, m + 1)[m] == all[m]);
            assert(views(rest@) =~= all.subrange(0, rest@.len() as int));
            assert(x@ == all[m]);
            assert(!old_pool.contains(x@)) by {
                if old_pool.contains(x@) {
                    let j = choose|j: int| m + 1 <= j < n && all[j] == x@;
                }
            }
            pool = old_pool.insert(x@);
            assert forall|v: ResultView|
                pool.contains(v) <==> exists|j: int| rest@.len() <= j < n && all[j] == v by {
                if v == x@ {
                    assert(all[m] == v);
                }
            }
            assert forall|i: int| 0 <= i < held@.len() implies held@[i].key@ != x.key@ by {
                assert(old_held[i] == held@[i]@);
                assert(old_pool.contains(old_held[i]));
                let j = choose|j: int| m + 1 <= j < n && all[j] == old_held[i];
            }
        }
        if k == 0 {
        } else if held.len() < k {
            insert_ranked(&mut held, x);
            proof {
                let p = choose|p: int|
                    0 <= p <= old_held.len() && views(held@) == old_held.insert(p, x@);
                assert forall|v: ResultView| pool.contains(v) implies views(held@).contains(v) by {
                    lemma_insert_contains(old_held, p, x@, v);
                }
                assert forall|i: int| 0 <= i < views(held@).len() implies pool.contains(
                    #[trigger] views(held@)[i],
                ) by {
                    if i < p {
                        assert(views(held@)[i] == old_held[i]);
                    } else if i > p {
                        assert(views(held@)[i] == old_held[i - 1]);
                    }
                }
            }
        } else if is_better(&x, &held[held.len() - 1]) {
            let ghost w = old_held.last();
            held.pop();
            let ghost kept = views(held@);
            assert(kept =~= old_held.drop_last());
            insert_ranked(&mut held, x);
            proof {
                let p = choose|p: int|
                    0 <= p <= kept.len() && views(held@) == kept.insert(p, x@);
                let r = views(held@);
                assert forall|i: int| 0 <= i < r.len() implies pool.contains(#[trigger] r[i]) by {
                    if i < p {
                        assert(r[i] == kept[i]);
                    } else if i > p {
                        assert(r[i] == kept[i - 1]);
                    }
                }
                assert forall|v: ResultView| pool.contains(v) && !r.contains(v) implies forall|
                    i: int,
                | 0 <= i < r.len() ==> better(#[trigger] r[i], v) by {
                    lemma_insert_contains(kept, p, x@, v);
                    lemma_drop_last_contains(old_held, v);
                    assert(v != x@);
                    assert(old_pool.contains(v));
                    assert forall|i: int| 0 <= i < r.len() implies better(#[trigger] r[i], v) by {
                        if v == w {
                            if i == p {
                            } else if i < p {
                                assert(r[i] == old_held[i]);
                            } else {
                                assert(r[i] == old_held[i - 1]);
                            }
                        } else {
                            assert(!old_held.contains(v));
                            assert(better(w, v));
                            if i == p {
                                lemma_better_transitive(x@, w, v);
                            } else if i < p {
                                assert(r[i] == old_held[i]);
                            } else {
                                assert(r[i] == old_held[i - 1]);
                            }
                        }
                    }
                }
            }
        } else {
            proof {
                let r = old_held;
                let last = r.len() - 1;
                assert(r[last].key != x@.key);
                lemma_better_total(r[last], x@);
                assert forall|v: ResultView| pool.contains(v) && !r.contains(v) implies forall|
                    i: int,
                | 0 <= i < r.len() ==> better(#[trigger] r[i], v) by {
                    assert forall|i: int| 0 <= i < r.len() implies better(#[trigger] r[i], v) by {
                        if v == x@ && i < last {
                            lemma_better_transitive(r[i], r[last], x@);
                        }
                    }
                }
            }
        }
    }
    proof {
        assert(views(rest@) =~= all.subrange(0, 0));
        assert(pool =~= all.to_set()) by {
            assert forall|v: ResultView| pool.contains(v) <==> all.to_set().contains(v) by {
                if all.contains(v) {
                    let j = choose|j: int| 0 <= j < n && all[j] == v;
                }
            }
        }
    }
    held
}

proof fn lemma_not_better_at(ra: Seq<ResultView>, rb: Seq<ResultView>, pool: Set<ResultView>, k: nat, j: int)
    requires
        is_top_k(ra, pool, k),
        is_top_k(rb, pool, k),
        0 <= j < ra.len(),
        forall|l: int| 0 <= l < j ==> ra[l] == rb[l],
    ensures
        !better(ra[j], rb[j]),
{
    if better(ra[j], rb[j]) {
        assert(pool.contains(ra[j]));
        if rb.contains(ra[j]) {
            let l = choose|l: int| 0 <= l < rb.len() && rb[l] == ra[j];
            if l < j {
                lemma_better_irreflexive(ra[j]);
                assert(better(ra[l], ra[j]));
            } else if l == j {
                lemma_better_irreflexive(ra[j]);
            } else {
                assert(better(rb[j], rb[l]));
                lemma_better_asymmetric(ra[j], rb[j]);
            }
        } else {
            assert(better(rb[j], ra[j]));
            lemma_better_asymmetric(ra[j], rb[j]);
        }
    }
}

proof fn lemma_agree_below(r1: Seq<ResultView>, r2: Seq<ResultView>, pool: Set<ResultView>, k: nat, i: int)
    requires
        keys_distinct(pool),
        is_top_k(r1, pool, k),
        is_top_k(r2, pool, k),
        0 <= i <= r1.len(),
    ensures
        forall|l: int| 0 <= l < i ==> r1[l] == r2[l],
    decreases i,
{
    if i > 0 {
        let j = i - 1;
        lemma_agree_below(r1, r2, pool, k, j);
        assert(pool.contains(r1[j]) && pool.contains(r2[j]));
        if r1[j] != r2[j] {
            lemma_better_total(r1[j], r2[j]);
            lemma_not_better_at(r1, r2, pool, k, j);
            lemma_not_better_at(r2, r1, pool, k, j);
        }
    }
}

/// The best `k` of a pool whose keys are distinct are fully determined: two
/// lists that are both its top `k`, best first, are the same list. So asking
/// twice for the best matches of one query against one index gives the same
/// results in the same order, with equal-ranked ties always broken the same way.
pub proof fn lemma_top_k_unique(r1: Seq<ResultView>, r2: Seq<ResultView>, pool: Set<ResultView>, k: nat)
    requires
        keys_distinct(pool),
        is_top_k(r1, pool, k),
        is_top_k(r2, pool, k),
    ensures
        r1 == r2,
{
    lemma_agree_below(r1, r2, pool, k, r1.len() as int);
    assert(r1 =~= r2);
}

/// Sorting the whole pool best first and keeping the first `k` gives its top `k`.
pub proof fn lemma_sorted_prefix_is_top_k(s: Seq<ResultView>, k: nat)
    requires
        ranked(s),
    ensures
        is_top_k(s.take(if s.len() < k { s.len() as int } else { k as int }), s.to_set(), k),
{
    let n: int = if s.len() < k { s.len() as int } else { k as int };
    let r = s.take(n);
    let pool = s.to_set();
    assert(s.no_duplicates()) by {
        assert forall|i: int, j: int| 0 <= i < s.len() && 0 <= j < s.len() && i != j implies s[i]
            != s[j] by {
            if i < j {
                lemma_better_irreflexive(s[i]);
            } else {
                lemma_better_irreflexive(s[j]);
            }
        }
    }
    s.unique_seq_to_set();
    assert forall|i: int| 0 <= i < r.len() implies pool.contains(#[trigger] r[i]) by {
        assert(r[i] == s[i]);
    }
    assert forall|p: ResultView| pool.contains(p) && !r.contains(p) implies forall|i: int|
        0 <= i < r.len() ==> better(#[trigger] r[i], p) by {
        let j = choose|j: int| 0 <= j < s.len() && s[j] == p;
        if j < n {
            assert(r[j] == p);
        }
        assert forall|i: int| 0 <= i < r.len() implies better(#[trigger] r[i], p) by {
            assert(r[i] == s[i]);
        }
    }
}

/// The top `k` of a pool with distinct keys is what a full sort of the pool,
/// best first, truncated to `k` entries gives.
pub proof fn lemma_top_k_is_sorted_prefix(r: Seq<ResultView>, s: Seq<ResultView>, k: nat)
    requires
        ranked(s),
        keys_distinct(s.to_set()),
        is_top_k(r, s.to_set(), k),
    ensures
        r == s.take(if s.len() < k { s.len() as int } else { k as int }),
{
    let n: int = if s.len() < k { s.len() as int } else { k as int };
    lemma_sorted_prefix_is_top_k(s, k);
    lemma_top_k_unique(r, s.take(n), s.to_set(), k);
}

} // verus!
