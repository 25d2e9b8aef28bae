use vstd::prelude::*;
use vstd::seq_lib::to_multiset_contains;
use vstd::set_lib::{lemma_int_range, lemma_len_subset, set_int_range};

verus! {

#[verifier::external_type_specification]
#[verifier::external_body]
pub struct ExThreadRng(rand::rngs::ThreadRng);

/// Relies on rand::rng: a handle on the thread-local random generator.
#[verifier::external_body]
fn thread_rng() -> rand::rngs::ThreadRng {
    rand::rng()
}

/// Relies on SliceRandom::shuffle: the elements are permuted in place.
#[verifier::external_body]
fn shuffle(v: &mut Vec<usize>, rng: &mut rand::rngs::ThreadRng)
    ensures
        final(v)@.to_multiset() == old(v)@.to_multiset(),
{
    rand::seq::SliceRandom::shuffle(v.as_mut_slice(), rng)
}

/// Relies on IndexedRandom::choose_multiple: `min(amount, len)` elements drawn at
/// distinct positions, in random order; asked for all of them, a permutation.
#[verifier::external_body]
fn choose_multiple(v: &Vec<usize>, rng: &mut rand::rngs::ThreadRng, amount: usize) -> (r: Vec<usize>)
    ensures
        r@.len() == if amount < v@.len() { amount as int } else { v@.len() as int },
        r@.to_multiset().subset_of(v@.to_multiset()),
        amount >= v@.len() ==> r@.to_multiset() == v@.to_multiset(),
{
    rand::seq::IndexedRandom::choose_multiple(v.as_slice(), rng, amount).copied().collect()
}

/// The sampling pool: each index `i` repeated `w[i]` times, in index order.
pub open spec fn pool_of(w: Seq<u64>) -> Seq<usize>
    decreases w.len(),
{
    if w.len() == 0 {
        Seq::empty()
    } else {
        pool_of(w.drop_last()) + Seq::new(w.last() as nat, |j: int| (w.len() - 1) as usize)
    }
}

/// The elements of `s` in the order of their first occurrence, each once.
pub open spec fn first_occurrences(s: Seq<usize>) -> Seq<usize>
    decreases s.len(),
{
    if s.len() == 0 {
        Seq::empty()
    } else {
        let d = first_occurrences(s.drop_last());
        if d.contains(s.last()) {
            d
        } else {
            d.push(s.last())
        }
    }
}

/// The first `quota` distinct elements of `s`, in order of first occurrence.
pub open spec fn spec_first_distinct(s: Seq<usize>, quota: nat) -> Seq<usize> {
    let d = first_occurrences(s);
    if d.len() <= quota {
        d
    } else {
        d.take(quota as int)
    }
}

pub open spec fn min_len(quota: nat, n: nat) -> nat {
    if quota < n {
        quota
    } else {
        n
    }
}

proof fn lemma_pool_contains(w: Seq<u64>, x: usize)
    requires
        w.len() <= usize::MAX,
    ensures
        pool_of(w).contains(x) == (x < w.len() && w[x as int] > 0),
    decreases w.len(),
{
    if w.len() > 0 {
        let p = pool_of(w.drop_last());
        let tail = Seq::new(w.last() as nat, |j: int| (w.len() - 1) as usize);
        lemma_pool_contains(w.drop_last(), x);
        if pool_of(w).contains(x) {
            let k = choose|k: int| 0 <= k < pool_of(w).len() && pool_of(w)[k] == x;
            if k >= p.len() {
                assert(tail[k - p.len()] == x);
                assert(x == w.len() - 1);
                assert(w.last() > 0);
            } else {
                assert(p[k] == x);
                assert(p.contains(x));
                assert(w.drop_last()[x as int] == w[x as int]);
            }
        }
        if x < w.len() && w[x as int] > 0 {
            if x + 1 == w.len() {
                assert(pool_of(w)[p.len() as int] == x);
            } else {
                assert(w.drop_last()[x as int] == w[x as int]);
                assert(p.contains(x));
                let k = choose|k: int| 0 <= k < p.len() && p[k] == x;
                assert(pool_of(w)[k] == x);
            }
        }
    }
}

proof fn lemma_first_occurrences(s: Seq<usize>)
    ensures
        first_occurrences(s).no_duplicates(),
        forall|x: usize| #[trigger] first_occurrences(s).contains(x) == s.contains(x),
        first_occurrences(s).len() <= s.len(),
    decreases s.len(),
{
    if s.len() > 0 {
        lemma_first_occurrences(s.drop_last());
        let d = first_occurrences(s.drop_last());
        assert forall|x: usize| #[trigger] first_occurrences(s).contains(x) == s.contains(x) by {
            if s.contains(x) && x != s.last() {
                let k = choose|k: int| 0 <= k < s.len() && s[k] == x;
                assert(s.drop_last()[k] == x);
            }
            if s.drop_last().contains(x) {
                let k = choose|k: int| 0 <= k < s.len() - 1 && s.drop_last()[k] == x;
                assert(s[k] == x);
            }
            if !d.contains(s.last()) {
                assert(d.push(s.last())[d.len() as int] == s.last());
                if d.push(s.last()).contains(x) && x != s.last() {
                    let k = choose|k: int| 0 <= k < d.len() + 1 && d.push(s.last())[k] == x;
                    assert(d[k] == x);
                }
                if d.contains(x) {
                    let k = choose|k: int| 0 <= k < d.len() && d[k] == x;
                    assert(d.push(s.last())[k] == x);
                }
            }
            if x == s.last() {
                assert(s[s.len() - 1] == x);
            }
        }
    }
}

proof fn lemma_first_occurrences_prefix(s: Seq<usize>, i: int)
    requires
        0 <= i <= s.len(),
    ensures
        first_occurrences(s.take(i)).len() <= first_occurrences(s).len(),
        first_occurrences(s).take(first_occurrences(s.take(i)).len() as int)
            == first_occurrences(s.take(i)),
    decreases s.len(),
{
    if i == s.len() {
        assert(s.take(i) =~= s);
        assert(first_occurrences(s).take(first_occurrences(s).len() as int) =~= first_occurrences(s));
    } else {
        assert(s.drop_last().take(i) =~= s.take(i));
        lemma_first_occurrences_prefix(s.drop_last(), i);
        let d = first_occurrences(s.drop_last());
        let e = first_occurrences(s.take(i));
        if !d.contains(s.last()) {
            assert(d.push(s.last()).take(e.len() as int) =~= d.take(e.len() as int));
        }
    }
}

/// A duplicate-free sequence of indices below `n` has at most `n` elements, and
/// exactly `n` when it holds each of them.
proof fn lemma_distinct_indices(s: Seq<usize>, n: nat)
    requires
        s.no_duplicates(),
        n <= usize::MAX,
        forall|k: int| 0 <= k < s.len() ==> s[k] < n,
    ensures
        s.len() <= n,
        (forall|x: usize| x < n ==> s.contains(x)) ==> s.len() == n,
{
    let t = s.map_values(|x: usize| x as int);
    assert(t.no_duplicates()) by {
        assert forall|a: int, b: int| 0 <= a < t.len() && 0 <= b < t.len() && a != b
            implies t[a] != t[b] by {
            assert(s[a] != s[b]);
        }
    }
    t.unique_seq_to_set();
    lemma_int_range(0, n as int);
    let r = set_int_range(0, n as int);
    assert(t.to_set().subset_of(r)) by {
        assert forall|y: int| t.to_set().contains(y) implies r.contains(y) by {
            let k = choose|k: int| 0 <= k < t.len() && t[k] == y;
        }
    }
    lemma_len_subset(t.to_set(), r);
    if forall|x: usize| x < n ==> s.contains(x) {
        assert(r.subset_of(t.to_set())) by {
            assert forall|y: int| r.contains(y) implies t.to_set().contains(y) by {
                let x = y as usize;
                assert(s.contains(x));
                let k = choose|k: int| 0 <= k < s.len() && s[k] == x;
                assert(t[k] == y);
            }
        }
        lemma_len_subset(r, t.to_set());
    }
}

fn holds(v: &Vec<usize>, x: usize) -> (r: bool)
    ensures
        r == v@.contains(x),
{
    let mut i: usize = 0;
    while i < v.len()
        invariant
            i <= v@.len(),
            forall|k: int| 0 <= k < i ==> v@[k] != x,
        decreases v@.len() - i,
    {
        if v[i] == x {
            return true;
        }
        i = i + 1;
    }
    false
}

/// Builds the sampling pool: index `i` repeated `weights[i]` times.
pub fn build_pool(weights: &Vec<u64>) -> (r: Vec<usize>)
    ensures
        r@ == pool_of(weights@),
{
    let mut pool: Vec<usize> = Vec::new();
    let mut i: usize = 0;
    while i < weights.len()
        invariant
            i <= weights@.len(),
            pool@ == pool_of(weights@.take(i as int)),
        decreases weights@.len() - i,
    {
        let ghost before = pool@;
        let w = weights[i];
        let mut j: u64 = 0;
        while j < w
            invariant
                j <= w,
                pool@ == before + Seq::new(j as nat, |k: int| i),
            decreases w - j,
        {
            pool.push(i);
            assert(before + Seq::new((j + 1) as nat, |k: int| i)
                =~= (before + Seq::new(j as nat, |k: int| i)).push(i));
            j = j + 1;
        }
        proof {
            let u = weights@.take(i + 1);
            assert(u.drop_last() =~= weights@.take(i as int));
            assert(Seq::new(u.last() as nat, |k: int| (u.len() - 1) as usize)
                =~= Seq::new(w as nat, |k: int| i));
        }
        i = i + 1;
    }
    assert(weights@.take(weights@.len() as int) =~= weights@);
    pool
}

/// Scans `pool` in order and keeps the first occurrence of each element, stopping
/// once `quota` distinct elements are kept.
pub fn first_distinct(pool: &Vec<usize>, quota: usize) -> (r: Vec<usize>)
    ensures
        r@ == spec_first_distinct(pool@, quota as nat),
{
    let mut sel: Vec<usize> = Vec::new();
    let mut i: usize = 0;
    while i < pool.len() && sel.len() < quota
        invariant
            i <= pool@.len(),
            sel@ == first_occurrences(pool@.take(i as int)),
            sel@.len() <= quota,
        decreases pool@.len() - i,
    {
        let x = pool[i];
        proof {
            assert(pool@.take(i + 1).drop_last() =~= pool@.take(i as int));
        }
        if !holds(&sel, x) {
            sel.push(x);
        }
        i = i + 1;
    }
    proof {
        lemma_first_occurrences_prefix(pool@, i as int);
        if i == pool@.len() {
            assert(pool@.take(i as int) =~= pool@);
        }
    }
    sel
}

/// Weighted draw of up to `quota` distinct indices: the pool holds index `i`
/// `weights[i]` times; it is shuffled, drawn from in random order, and the first
/// `quota` distinct indices are kept.
pub fn select_weighted(weights: &Vec<u64>, quota: usize) -> (r: Vec<usize>)
    requires
        forall|i: int| 0 <= i < weights@.len() ==> weights@[i] >= 1,
    ensures
        r@.len() == min_len(quota as nat, weights@.len()),
        r@.no_duplicates(),
        forall|k: int| 0 <= k < r@.len() ==> r@[k] < weights@.len(),
        exists|p: Seq<usize>| #[trigger] p.to_multiset() == pool_of(weights@).to_multiset()
            && r@ == spec_first_distinct(p, quota as nat),
{
    let count = weights.len();
    let mut pool = build_pool(weights);
    let mut rng = thread_rng();
    shuffle(&mut pool, &mut rng);
    let n = pool.len();
    let drawn = choose_multiple(&pool, &mut rng, n);
    let r = first_distinct(&drawn, quota);
    proof {
        let d = first_occurrences(drawn@);
        lemma_first_occurrences(drawn@);
        assert forall|x: usize| #[trigger] d.contains(x) == (x < weights@.len()) by {
            lemma_pool_contains(weights@, x);
            broadcast use to_multiset_contains;
            assert(drawn@.to_multiset().count(x) == pool_of(weights@).to_multiset().count(x));
        }
        assert forall|k: int| 0 <= k < d.len() implies d[k] < weights@.len() by {
            assert(d.contains(d[k]));
        }
        lemma_distinct_indices(d, weights@.len());
        assert(drawn@.to_multiset() == pool_of(weights@).to_multiset()
            && r@ == spec_first_distinct(drawn@, quota as nat));
        if d.len() > quota {
            assert forall|a: int, b: int| 0 <= a < r@.len() && 0 <= b < r@.len() && a != b
                implies r@[a] != r@[b] by {
                assert(r@[a] == d[a] && r@[b] == d[b]);
            }
        }
    }
    r
}


/// Index `a` ranks above index `b`: a larger weight, or an equal weight and an
/// earlier position.
pub open spec fn ranks_above(w: Seq<u64>, a: usize, b: usize) -> bool {
    w[a as int] > w[b as int] || (w[a as int] == w[b as int] && a < b)
}

/// `r` is a ranking of `min(quota, n)` of the indices below `n`, best first, that
/// leaves out none that ranks above one it holds.
pub open spec fn is_top_selection(w: Seq<u64>, quota: nat, r: Seq<usize>) -> bool {
    &&& r.len() == min_len(quota, w.len())
    &&& r.no_duplicates()
    &&& forall|k: int| 0 <= k < r.len() ==> r[k] < w.len()
    &&& forall|a: int, b: int| 0 <= a < b < r.len() ==> ranks_above(w, r[a], r[b])
    &&& forall|k: int, x: usize| 0 <= k < r.len() && x < w.len() && !r.contains(x)
        ==> ranks_above(w, r[k], x)
}

/// The `quota` indices of largest weight, largest first; equal weights go by position.
/// With fewer indices than `quota`, all of them.
pub fn select_top(weights: &Vec<u64>, quota: usize) -> (r: Vec<usize>)
    ensures
        is_top_selection(weights@, quota as nat, r@),
{
    let n = weights.len();
    let goal = if quota < n { quota } else { n };
    let mut taken: Vec<bool> = Vec::new();
    let mut t: usize = 0;
    while t < n
        invariant
            t <= n,
            taken@.len() == t,
            forall|x: int| 0 <= x < t ==> !taken@[x],
        decreases n - t,
    {
        taken.push(false);
        t = t + 1;
    }
    let mut r: Vec<usize> = Vec::new();
    while r.len() < goal
        invariant
            n == weights@.len(),
            goal == min_len(quota as nat, n as nat),
            r@.len() <= goal,
            taken@.len() == n,
            r@.no_duplicates(),
            forall|k: int| 0 <= k < r@.len() ==> r@[k] < n,
            forall|x: usize| x < n ==> (taken@[x as int] == r@.contains(x)),
            forall|a: int, b: int| 0 <= a < b < r@.len() ==> ranks_above(weights@, r@[a], r@[b]),
            forall|k: int, x: usize| 0 <= k < r@.len() && x < n && !r@.contains(x)
                ==> ranks_above(weights@, r@[k], x),
        decreases goal - r@.len(),
    {
        proof {
            if forall|x: usize| x < n ==> r@.contains(x) {
                lemma_distinct_indices(r@, n as nat);
            }
        }
        let mut best: usize = n;
        let mut j: usize = 0;
        while j < n
            invariant
                n == weights@.len(),
                taken@.len() == n,
                j <= n,
                best == n || (best < j && !taken@[best as int]),
                best == n ==> forall|y: usize| y < j ==> taken@[y as int],
                best < n ==> forall|y: usize| y < j && !taken@[y as int] && y != best
                    ==> ranks_above(weights@, best, y),
            decreases n - j,
        {
            if !taken[j] {
                if best == n || weights[j] > weights[best] {
                    best = j;
                }
            }
            j = j + 1;
        }
        assert(best < n) by {
            if best == n {
                let x = choose|x: usize| x < n && !r@.contains(x);
                assert(taken@[x as int]);
            }
        }
        let ghost before = r@;
        taken.set(best, true);
        r.push(best);
        proof {
            assert(!before.contains(best));
            assert forall|x: usize| x < n implies (taken@[x as int] == r@.contains(x)) by {
                if x == best {
                    assert(r@[before.len() as int] == best);
                } else {
                    if r@.contains(x) {
                        let k = choose|k: int| 0 <= k < r@.len() && r@[k] == x;
                        assert(before[k] == x);
                    }
                    if before.contains(x) {
                        let k = choose|k: int| 0 <= k < before.len() && before[k] == x;
                        assert(r@[k] == x);
                    }
                }
            }
            assert forall|a: int, b: int| 0 <= a < b < r@.len()
                implies ranks_above(weights@, r@[a], r@[b]) by {
                if b == before.len() {
                    assert(r@[a] == before[a]);
                }
            }
            assert forall|k: int, x: usize| 0 <= k < r@.len() && x < n && !r@.contains(x)
                implies ranks_above(weights@, r@[k], x) by {
                if k < before.len() {
                    assert(r@[k] == before[k]);
                    if before.contains(x) {
                        let i = choose|i: int| 0 <= i < before.len() && before[i] == x;
                        assert(r@[i] == x);
                    }
                }
                assert(!taken@[x as int]);
            }
        }
    }
    r
}

} // verus!
