//! Enumeration of every order-preserving way to match the phases of the job
//! with fewer phases (`l1` of them) against a subset of the phases of the job
//! with more phases (`l2` of them): all strictly increasing index lists of
//! length `l1` drawn from `[0, l2)`, each paired with the complementary,
//! likewise increasing, list of unused indices.
use vstd::prelude::*;

verus! {

/// Binomial coefficient by Pascal's rule; zero outside `0 <= k <= n`.
pub open spec fn binom(n: int, k: int) -> int
    decreases n,
{
    if k < 0 || n < k {
        0
    } else if n == 0 || k == 0 {
        1
    } else {
        binom(n - 1, k - 1) + binom(n - 1, k)
    }
}

/// All ways to pick `l1` indices out of `[0, l2)`, each list in increasing
/// order. The outer order is the enumeration order of the engine: every
/// list containing `l2 - 1` comes before every list that does not.
pub open spec fn combos(l1: int, l2: int) -> Seq<Seq<int>>
    decreases l2,
{
    if l1 <= 0 {
        seq![Seq::<int>::empty()]
    } else if l2 < l1 {
        Seq::<Seq<int>>::empty()
    } else {
        combos(l1 - 1, l2 - 1).map_values(|c: Seq<int>| c.push(l2 - 1)) + combos(l1, l2 - 1)
    }
}

/// The indices of `[0, k)` that `used` does not contain, in increasing order.
pub open spec fn complement_upto(used: Seq<u16>, k: int) -> Seq<u16>
    decreases k,
{
    if k <= 0 {
        Seq::<u16>::empty()
    } else if used.contains((k - 1) as u16) {
        complement_upto(used, k - 1)
    } else {
        complement_upto(used, k - 1).push((k - 1) as u16)
    }
}

/// The indices of `[0, l2)` not used by a combination, in increasing order.
pub open spec fn complement(l2: int, used: Seq<u16>) -> Seq<u16> {
    complement_upto(used, l2)
}

pub open spec fn as_ints(s: Seq<u16>) -> Seq<int> {
    s.map_values(|x: u16| x as int)
}

/// The vectors in `r` hold, position by position, the index lists `s`.
pub open spec fn indices_match(r: Seq<Vec<u16>>, s: Seq<Seq<int>>) -> bool {
    &&& r.len() == s.len()
    &&& forall|i: int| 0 <= i < r.len() ==> as_ints(#[trigger] r[i]@) == s[i]
}

proof fn lemma_as_ints_push(s: Seq<u16>, x: u16)
    ensures
        as_ints(s.push(x)) == as_ints(s).push(x as int),
{
    assert(as_ints(s.push(x)) =~= as_ints(s).push(x as int));
}

/// There are exactly `binom(l2, l1)` combinations for phase counts `l1 <= l2`.
pub proof fn lemma_combination_count(l1: int, l2: int)
    requires
        0 <= l1,
        0 <= l2,
    ensures
        combos(l1, l2).len() == binom(l2, l1),
    decreases l2,
{
    if l1 <= 0 || l2 < l1 {
    } else {
        lemma_combination_count(l1 - 1, l2 - 1);
        lemma_combination_count(l1, l2 - 1);
    }
}

/// Every enumerated index list has length `l1`, holds only indices of
/// `[0, l2)`, and is strictly increasing.
pub proof fn lemma_combination_shape(l1: int, l2: int, i: int)
    requires
        0 <= l1 <= l2,
        0 <= i < combos(l1, l2).len(),
    ensures
        combos(l1, l2)[i].len() == l1,
        forall|j: int| 0 <= j < l1 ==> 0 <= #[trigger] combos(l1, l2)[i][j] < l2,
        forall|j: int| 0 < j < l1 ==> combos(l1, l2)[i][j - 1] < #[trigger] combos(l1, l2)[i][j],
    decreases l2,
{
    if l1 <= 0 {
    } else {
        let a = combos(l1 - 1, l2 - 1).map_values(|c: Seq<int>| c.push(l2 - 1));
        if i < a.len() {
            lemma_combination_shape(l1 - 1, l2 - 1, i);
            assert(combos(l1, l2)[i] == combos(l1 - 1, l2 - 1)[i].push(l2 - 1));
        } else {
            if l1 > l2 - 1 {
                assert(combos(l1, l2 - 1) =~= Seq::<Seq<int>>::empty());
            }
            lemma_combination_shape(l1, l2 - 1, i - a.len());
            assert(combos(l1, l2)[i] == combos(l1, l2 - 1)[i - a.len()]);
        }
    }
}

/// No combination is enumerated twice: the `binom(l2, l1)` index lists are
/// pairwise distinct.
pub proof fn lemma_combination_distinct(l1: int, l2: int, i: int, j: int)
    requires
        0 <= l1 <= l2,
        0 <= i < j < combos(l1, l2).len(),
    ensures
        combos(l1, l2)[i] != combos(l1, l2)[j],
    decreases l2,
{
    if l1 <= 0 {
    } else {
        let a = combos(l1 - 1, l2 - 1).map_values(|c: Seq<int>| c.push(l2 - 1));
        if j < a.len() {
            lemma_combination_distinct(l1 - 1, l2 - 1, i, j);
            assert(a[i] == combos(l1 - 1, l2 - 1)[i].push(l2 - 1));
            assert(a[j] == combos(l1 - 1, l2 - 1)[j].push(l2 - 1));
            if a[i] == a[j] {
                assert(a[i].drop_last() =~= combos(l1 - 1, l2 - 1)[i]);
                assert(a[j].drop_last() =~= combos(l1 - 1, l2 - 1)[j]);
            }
            assert(combos(l1, l2)[i] == a[i]);
            assert(combos(l1, l2)[j] == a[j]);
        } else if i >= a.len() {
            if l1 > l2 - 1 {
                assert(combos(l1, l2 - 1) =~= Seq::<Seq<int>>::empty());
            }
            lemma_combination_distinct(l1, l2 - 1, i - a.len(), j - a.len());
            assert(combos(l1, l2)[i] == combos(l1, l2 - 1)[i - a.len()]);
            assert(combos(l1, l2)[j] == combos(l1, l2 - 1)[j - a.len()]);
        } else {
            lemma_combination_shape(l1 - 1, l2 - 1, i);
            assert(a[i] == combos(l1 - 1, l2 - 1)[i].push(l2 - 1));
            assert(a[i].len() == l1);
            assert(a[i][l1 - 1] == l2 - 1);
            if l1 > l2 - 1 {
                assert(combos(l1, l2 - 1) =~= Seq::<Seq<int>>::empty());
            }
            lemma_combination_shape(l1, l2 - 1, j - a.len());
            assert(combos(l1, l2)[j] == combos(l1, l2 - 1)[j - a.len()]);
            assert(combos(l1, l2)[j].len() == l1);
            assert(combos(l1, l2)[j][l1 - 1] < l2 - 1);
            assert(combos(l1, l2)[i] == a[i]);
        }
    }
}

proof fn lemma_increasing_pair(c: Seq<int>, i: int, j: int)
    requires
        0 <= i <= j < c.len(),
        forall|t: int| 0 < t < c.len() ==> c[t - 1] < #[trigger] c[t],
    ensures
        c[j] - c[i] >= j - i,
    decreases j - i,
{
    if i < j {
        lemma_increasing_pair(c, i, j - 1);
    }
}

proof fn lemma_increasing_at_least(c: Seq<int>, j: int)
    requires
        0 <= j < c.len(),
        forall|t: int| 0 <= t < c.len() ==> 0 <= #[trigger] c[t],
        forall|t: int| 0 < t < c.len() ==> c[t - 1] < #[trigger] c[t],
    ensures
        c[j] >= j,
    decreases j,
{
    if j > 0 {
        lemma_increasing_at_least(c, j - 1);
    }
}

/// The enumeration is complete: every strictly increasing list of `l1`
/// indices drawn from `[0, l2)` appears among the combinations.
#[verifier::rlimit(30)]
pub proof fn lemma_combination_complete(l1: int, l2: int, c: Seq<int>)
    requires
        0 <= l1 <= l2,
        c.len() == l1,
        forall|j: int| 0 <= j < l1 ==> 0 <= #[trigger] c[j] < l2,
        forall|j: int| 0 < j < l1 ==> c[j - 1] < #[trigger] c[j],
    ensures
        combos(l1, l2).contains(c),
    decreases l2,
{
    if l1 <= 0 {
        assert(c =~= Seq::<int>::empty());
        assert(combos(l1, l2)[0] == c);
    } else {
        let a = combos(l1 - 1, l2 - 1).map_values(|d: Seq<int>| d.push(l2 - 1));
        if c.last() == l2 - 1 {
            let p = c.drop_last();
            assert forall|j: int| 0 <= j < l1 - 1 implies 0 <= #[trigger] p[j] < l2 - 1 by {
                assert(p[j] == c[j]);
                lemma_increasing_pair(c, j, l1 - 1);
            }
            assert(forall|j: int| 0 < j < l1 - 1 ==> p[j - 1] < #[trigger] p[j]);
            lemma_combination_complete(l1 - 1, l2 - 1, p);
            let w = choose|w: int|
                0 <= w < combos(l1 - 1, l2 - 1).len() && #[trigger] combos(l1 - 1, l2 - 1)[w] == p;
            assert(a[w] == p.push(l2 - 1));
            assert(p.push(l2 - 1) =~= c);
            assert(combos(l1, l2)[w] == c);
        } else {
            assert(c[l1 - 1] < l2 - 1);
            assert forall|j: int| 0 <= j < l1 implies 0 <= #[trigger] c[j] < l2 - 1 by {
                if j < l1 - 1 {
                    lemma_increasing_pair(c, j, l1 - 1);
                }
            }
            lemma_increasing_at_least(c, l1 - 1);
            assert(l1 - 1 <= c[l1 - 1] < l2 - 1);
            lemma_combination_complete(l1, l2 - 1, c);
            let w = choose|w: int|
                0 <= w < combos(l1, l2 - 1).len() && #[trigger] combos(l1, l2 - 1)[w] == c;
            assert(combos(l1, l2)[a.len() + w] == c);
        }
    }
}

/// An index below `l2` is in the complement exactly when it is not used, and
/// the complement holds nothing outside `[0, k)`.
pub proof fn lemma_complement_membership(used: Seq<u16>, k: int, v: u16)
    requires
        k <= 65536,
    ensures
        complement_upto(used, k).contains(v) <==> (v < k && !used.contains(v)),
    decreases k,
{
    if k <= 0 {
        assert(!complement_upto(used, k).contains(v));
    } else {
        lemma_complement_membership(used, k - 1, v);
        let prev = complement_upto(used, k - 1);
        if !used.contains((k - 1) as u16) {
            let cur = prev.push((k - 1) as u16);
            assert(cur[cur.len() - 1] == (k - 1) as u16);
            if prev.contains(v) {
                let w = choose|w: int| 0 <= w < prev.len() && prev[w] == v;
                assert(cur[w] == v);
            }
            if cur.contains(v) && v != (k - 1) as u16 {
                let w = choose|w: int| 0 <= w < cur.len() && cur[w] == v;
                assert(prev[w] == v);
            }
        }
    }
}

proof fn lemma_push_contains(s: Seq<u16>, x: u16, v: u16)
    ensures
        s.push(x).contains(v) <==> s.contains(v) || v == x,
{
    let cur = s.push(x);
    assert(cur[cur.len() - 1] == x);
    if s.contains(v) {
        let w = choose|w: int| 0 <= w < s.len() && s[w] == v;
        assert(cur[w] == v);
    }
    if cur.contains(v) && v != x {
        let w = choose|w: int| 0 <= w < cur.len() && cur[w] == v;
        assert(s[w] == v);
    }
}

/// How many of the indices `[0, k)` the list `used` contains.
spec fn used_below(used: Seq<u16>, k: int) -> int
    decreases k,
{
    if k <= 0 {
        0
    } else {
        used_below(used, k - 1) + if used.contains((k - 1) as u16) {
            1int
        } else {
            0int
        }
    }
}

proof fn lemma_complement_len_upto(used: Seq<u16>, k: int)
    requires
        k >= 0,
    ensures
        complement_upto(used, k).len() == k - used_below(used, k),
    decreases k,
{
    if k > 0 {
        lemma_complement_len_upto(used, k - 1);
    }
}

proof fn lemma_used_below_empty(k: int)
    ensures
        used_below(Seq::<u16>::empty(), k) == 0,
    decreases k,
{
    if k > 0 {
        lemma_used_below_empty(k - 1);
        assert(!Seq::<u16>::empty().contains((k - 1) as u16));
    }
}

proof fn lemma_used_below_push(s: Seq<u16>, x: u16, k: int)
    requires
        !s.contains(x),
        k <= 65536,
    ensures
        used_below(s.push(x), k) == used_below(s, k) + if x < k {
            1int
        } else {
            0int
        },
    decreases k,
{
    if k > 0 {
        lemma_used_below_push(s, x, k - 1);
        lemma_push_contains(s, x, (k - 1) as u16);
    }
}

proof fn lemma_increasing_pair_u16(c: Seq<u16>, i: int, j: int)
    requires
        0 <= i <= j < c.len(),
        forall|t: int| 0 < t < c.len() ==> c[t - 1] < #[trigger] c[t],
    ensures
        c[i] <= c[j],
        i < j ==> c[i] < c[j],
    decreases j - i,
{
    if i < j {
        lemma_increasing_pair_u16(c, i, j - 1);
    }
}

proof fn lemma_used_below_all(used: Seq<u16>, l2: int)
    requires
        0 <= l2 <= 65536,
        forall|j: int| 0 <= j < used.len() ==> (#[trigger] used[j]) < l2,
        forall|j: int| 0 < j < used.len() ==> used[j - 1] < #[trigger] used[j],
    ensures
        used_below(used, l2) == used.len(),
    decreases used.len(),
{
    if used.len() == 0 {
        lemma_used_below_empty(l2);
        assert(used =~= Seq::<u16>::empty());
    } else {
        let dl = used.drop_last();
        let x = used.last();
        assert forall|j: int| 0 <= j < dl.len() implies (#[trigger] dl[j]) < x by {
            lemma_increasing_pair_u16(used, j, used.len() - 1);
            assert(dl[j] == used[j]);
        }
        if dl.contains(x) {
            let w = choose|w: int| 0 <= w < dl.len() && dl[w] == x;
            assert(dl[w] < x);
        }
        assert(forall|j: int| 0 <= j < dl.len() ==> (#[trigger] dl[j]) < l2);
        assert forall|j: int| 0 < j < dl.len() implies dl[j - 1] < #[trigger] dl[j] by {
            assert(dl[j] == used[j] && dl[j - 1] == used[j - 1]);
        }
        lemma_used_below_all(dl, l2);
        lemma_used_below_push(dl, x, l2);
        assert(dl.push(x) =~= used);
    }
}

/// The complement of a strictly increasing list of `used` indices inside
/// `[0, l2)` holds exactly the other `l2 - used.len()` indices.
pub proof fn lemma_complement_len(used: Seq<u16>, l2: int)
    requires
        0 <= l2 <= 65536,
        forall|j: int| 0 <= j < used.len() ==> (#[trigger] used[j]) < l2,
        forall|j: int| 0 < j < used.len() ==> used[j - 1] < #[trigger] used[j],
    ensures
        complement(l2, used).len() == l2 - used.len(),
{
    lemma_complement_len_upto(used, l2);
    lemma_used_below_all(used, l2);
}

/// The complement is strictly increasing, with every entry below `k`.
pub proof fn lemma_complement_increasing(used: Seq<u16>, k: int)
    requires
        k <= 65536,
    ensures
        forall|j: int|
            0 <= j < complement_upto(used, k).len() ==> #[trigger] complement_upto(used, k)[j]
                < k,
        forall|j: int|
            0 < j < complement_upto(used, k).len() ==> complement_upto(used, k)[j - 1]
                < #[trigger] complement_upto(used, k)[j],
    decreases k,
{
    if k <= 0 {
    } else {
        lemma_complement_increasing(used, k - 1);
        let prev = complement_upto(used, k - 1);
        let cur = complement_upto(used, k);
        if used.contains((k - 1) as u16) {
            assert(cur =~= prev);
        } else {
            assert(cur =~= prev.push((k - 1) as u16));
            assert forall|j: int| 0 <= j < cur.len() implies cur[j] < k by {
                if j < prev.len() {
                    assert(cur[j] == prev[j]);
                } else {
                    assert(cur[j] == (k - 1) as u16);
                }
            }
            assert forall|j: int| 0 < j < cur.len() implies cur[j - 1] < #[trigger] cur[j] by {
                if j < prev.len() {
                    assert(cur[j] == prev[j]);
                    assert(cur[j - 1] == prev[j - 1]);
                } else {
                    assert(cur[j] == (k - 1) as u16);
                    assert(cur[j - 1] == prev[j - 1]);
                    assert(prev[j - 1] < k - 1);
                }
            }
        }
    }
}

/// With an empty short side there is exactly one combination: no index used,
/// all of `[0, l2)` unused, in increasing order.
pub proof fn lemma_empty_short_side(l2: int)
    requires
        0 <= l2 <= 65535,
    ensures
        combos(0, l2).len() == 1,
        combos(0, l2)[0] == Seq::<int>::empty(),
        complement(l2, Seq::<u16>::empty()).len() == l2,
        forall|j: int| 0 <= j < l2 ==> #[trigger] complement(l2, Seq::<u16>::empty())[j] == j,
    decreases l2,
{
    if l2 > 0 {
        lemma_empty_short_side(l2 - 1);
        assert(!Seq::<u16>::empty().contains((l2 - 1) as u16));
    }
}

fn copied_with(src: &Vec<u16>, x: u16) -> (r: Vec<u16>)
    ensures
        r@ == src@.push(x),
{
    let mut r: Vec<u16> = Vec::new();
    let mut i: usize = 0;
    while i < src.len()
        invariant
            i <= src.len(),
            r@ == src@.take(i as int),
        decreases src.len() - i,
    {
        r.push(src[i]);
        proof {
            assert(src@.take(i as int).push(src@[i as int]) =~= src@.take(i + 1 as int));
        }
        i += 1;
    }
    proof {
        assert(src@.take(src.len() as int) =~= src@);
    }
    r.push(x);
    r
}

fn copied(src: &Vec<u16>) -> (r: Vec<u16>)
    ensures
        r@ == src@,
{
    let mut r: Vec<u16> = Vec::new();
    let mut i: usize = 0;
    while i < src.len()
        invariant
            i <= src.len(),
            r@ == src@.take(i as int),
        decreases src.len() - i,
    {
        r.push(src[i]);
        proof {
            assert(src@.take(i as int).push(src@[i as int]) =~= src@.take(i + 1 as int));
        }
        i += 1;
    }
    proof {
        assert(src@.take(src.len() as int) =~= src@);
    }
    r
}

/// All used-index lists for phase counts `l1 <= l2`, in enumeration order.
pub fn get_used(l1: u16, l2: u16) -> (r: Vec<Vec<u16>>)
    requires
        l1 <= l2,
    ensures
        indices_match(r@, combos(l1 as int, l2 as int)),
    decreases l2,
{
    let mut r: Vec<Vec<u16>> = Vec::new();
    if l1 == 0 {
        let first: Vec<u16> = Vec::new();
        r.push(first);
        proof {
            assert(as_ints(Seq::<u16>::empty()) =~= Seq::<int>::empty());
        }
        r
    } else {
        let a = get_used(l1 - 1, l2 - 1);
        let ghost ca = combos(l1 as int - 1, l2 as int - 1);
        let mut i: usize = 0;
        while i < a.len()
            invariant
                indices_match(a@, ca),
                i <= a.len(),
                r@.len() == i as int,
                l2 >= 1,
                forall|k: int|
                    0 <= k < i ==> as_ints(#[trigger] r@[k]@) == ca[k].push(l2 as int - 1),
            decreases a.len() - i,
        {
            let v = copied_with(&a[i], l2 - 1);
            proof {
                lemma_as_ints_push(a@[i as int]@, (l2 - 1) as u16);
            }
            r.push(v);
            i += 1;
        }
        if l1 < l2 {
            let mut b = get_used(l1, l2 - 1);
            let ghost cb = combos(l1 as int, l2 as int - 1);
            let ghost rdone = r@;
            r.append(&mut b);
            proof {
                assert(forall|k: int|
                    0 <= k < rdone.len() ==> as_ints(#[trigger] r@[k]@) == ca[k].push(
                        l2 as int - 1,
                    ));
                assert(forall|k: int|
                    rdone.len() <= k < r@.len() ==> as_ints(#[trigger] r@[k]@) == cb[k
                        - rdone.len()]);
            }
        } else {
            proof {
                assert(combos(l1 as int, l2 as int - 1) =~= Seq::<Seq<int>>::empty());
            }
        }
        proof {
            let m = combos(l1 as int - 1, l2 as int - 1).map_values(
                |c: Seq<int>| c.push(l2 as int - 1),
            );
            assert(combos(l1 as int, l2 as int) == m + combos(l1 as int, l2 as int - 1));
            assert forall|k: int| 0 <= k < r@.len() implies as_ints(#[trigger] r@[k]@) == combos(
                l1 as int,
                l2 as int,
            )[k] by {
                if k < m.len() {
                    assert(m[k] == ca[k].push(l2 as int - 1));
                }
            }
        }
        r
    }
}

/// The unused indices: all of `[0, l2)` that `used` does not hold, ascending.
pub fn get_unused(l2: u16, used: &Vec<u16>) -> (r: Vec<u16>)
    ensures
        r@ == complement(l2 as int, used@),
{
    let mut r: Vec<u16> = Vec::new();
    let mut i: u16 = 0;
    while i < l2
        invariant
            i <= l2,
            r@ == complement_upto(used@, i as int),
        decreases l2 - i,
    {
        if !contains_val(used, i) {
            r.push(i);
        }
        proof {
            assert((i + 1) as int - 1 == i as int);
            assert(((i + 1) as int - 1) as u16 == i);
        }
        i += 1;
    }
    r
}

fn contains_val(v: &Vec<u16>, x: u16) -> (r: bool)
    ensures
        r == v@.contains(x),
{
    let mut i: usize = 0;
    while i < v.len()
        invariant
            i <= v.len(),
            forall|k: int| 0 <= k < i ==> v@[k] != x,
        decreases v.len() - i,
    {
        if v[i] == x {
            return true;
        }
        i += 1;
    }
    false
}

/// One order-preserving matching: the indices of the longer job's phases that
/// are matched, ascending, and the remaining indices, ascending.
#[derive(Debug, PartialEq)]
pub struct Combination {
    pub used_idxs: Vec<u16>,
    pub unused_idxs: Vec<u16>,
}

/// A cursor over the full enumeration of combinations for a pair of phase
/// counts `l1 <= l2`; `next` yields them one at a time, in order.
pub struct PhaseCombinations {
    pos: usize,
    used: Vec<Vec<u16>>,
    l1: u16,
    size: u16,
}

impl PhaseCombinations {
    pub closed spec fn short_len(&self) -> int {
        self.l1 as int
    }

    pub closed spec fn long_len(&self) -> int {
        self.size as int
    }

    /// How many combinations have been yielded so far.
    pub closed spec fn emitted(&self) -> int {
        self.pos as int
    }

    /// How many combinations the enumeration holds in all.
    pub open spec fn total(&self) -> int {
        combos(self.short_len(), self.long_len()).len() as int
    }

    pub closed spec fn wf(&self) -> bool {
        &&& self.l1 <= self.size
        &&& indices_match(self.used@, combos(self.short_len(), self.long_len()))
        &&& self.pos <= self.used@.len()
    }

    pub fn new(l1: u16, l2: u16) -> (r: PhaseCombinations)
        requires
            l1 <= l2,
        ensures
            r.wf(),
            r.short_len() == l1 as int,
            r.long_len() == l2 as int,
            r.emitted() == 0,
    {
        PhaseCombinations { pos: 0, used: get_used(l1, l2), l1, size: l2 }
    }

    /// Yields the next combination, or `None` once all have been yielded.
    pub fn next(&mut self) -> (r: Option<Combination>)
        requires
            old(self).wf(),
        ensures
            final(self).wf(),
            final(self).short_len() == old(self).short_len(),
            final(self).long_len() == old(self).long_len(),
            old(self).emitted() < old(self).total() ==> r is Some && final(self).emitted() == old(
                self,
            ).emitted() + 1,
            r matches Some(c) ==> old(self).emitted() < old(self).total() && as_ints(c.used_idxs@)
                == combos(old(self).short_len(), old(self).long_len())[old(self).emitted()]
                && c.unused_idxs@ == complement(old(self).long_len(), c.used_idxs@),
            r is None ==> old(self).emitted() >= old(self).total() && final(self).emitted() == old(
                self,
            ).emitted(),
    {
        if self.pos < self.used.len() {
            let used = copied(&self.used[self.pos]);
            let unused = get_unused(self.size, &used);
            self.pos = self.pos + 1;
            Some(Combination { used_idxs: used, unused_idxs: unused })
        } else {
            None
        }
    }
}

} // verus!
