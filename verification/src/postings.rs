//! Posting lists: ordered lists of event positions, combined by linear
//! merges. The index keeps them strictly increasing; the merges also take
//! lists with repeats.

use vstd::prelude::*;

verus! {

/// Strictly increasing, hence free of repeats.
pub open spec fn sorted_unique(s: Seq<usize>) -> bool {
    forall|i: int, j: int| 0 <= i < j < s.len() ==> s[i] < s[j]
}

/// Appends `value` unless the list already ends with it.
pub fn push_unique(postings: &mut Vec<usize>, value: usize)
    ensures
        final(postings)@ == (if old(postings)@.len() > 0 && old(postings)@.last() == value {
            old(postings)@
        } else {
            old(postings)@.push(value)
        }),
        forall|x: usize| final(postings)@.contains(x) <==> (old(postings)@.contains(x) || x == value),
        sorted_unique(old(postings)@) && (forall|x: usize| old(postings)@.contains(x) ==> x <= value)
            ==> sorted_unique(final(postings)@),
{
    let n = postings.len();
    let ghost before = postings@;
    if n == 0 || postings[n - 1] != value {
        postings.push(value);
        proof {
            if n > 0 {
                assert(before.contains(before.last()));
            }
            assert forall|x: usize| postings@.contains(x) <==> (before.contains(x) || x == value) by {
                if before.contains(x) {
                    let i = choose|i: int| 0 <= i < before.len() && before[i] == x;
                    assert(postings@[i] == x);
                }
                if x == value {
                    assert(postings@[n as int] == x);
                }
            }
        }
    } else {
        proof {
            assert(before[n - 1] == value);
        }
    }
}

/// Never decreasing: the order posting lists come in, repeats allowed.
pub open spec fn nondecreasing(s: Seq<usize>) -> bool {
    forall|i: int, j: int| 0 <= i <= j < s.len() ==> s[i] <= s[j]
}

/// How often `v` occurs in `s`.
pub open spec fn occurrences(s: Seq<usize>, v: usize) -> nat {
    s.to_multiset().count(v)
}

proof fn lemma_occurrences_empty(v: usize)
    ensures
        occurrences(Seq::empty(), v) == 0,
{
    broadcast use vstd::seq_lib::group_to_multiset_ensures;

    assert(!Seq::<usize>::empty().contains(v));
}

proof fn lemma_occurrences_push(s: Seq<usize>, x: usize, v: usize)
    ensures
        occurrences(s.push(x), v) == occurrences(s, v) + (if x == v { 1nat } else { 0nat }),
{
    broadcast use vstd::seq_lib::group_to_multiset_ensures, vstd::multiset::group_multiset_axioms;

}

/// Occurrences in a prefix grow with the prefix, and stay put over a
/// stretch that does not hold the value.
proof fn lemma_occurrences_take(s: Seq<usize>, i: int, j: int, v: usize)
    requires
        0 <= i <= j <= s.len(),
    ensures
        occurrences(s.take(i), v) <= occurrences(s.take(j), v),
        (forall|k: int| i <= k < j ==> s[k] != v) ==> occurrences(s.take(i), v) == occurrences(s.take(j), v),
    decreases j - i,
{
    if i < j {
        lemma_occurrences_take(s, i, j - 1, v);
        assert(s.take(j) =~= s.take(j - 1).push(s[j - 1]));
        lemma_occurrences_push(s.take(j - 1), s[j - 1], v);
    }
}

/// What merging the first `a` elements of `l` with the first `b` of `r`
/// has kept of `v`: as many copies as the scarcer side holds, and a value
/// one side holds more often than the other lies below that other's next
/// element.
pub open spec fn merged_counts(res: Seq<usize>, l: Seq<usize>, r: Seq<usize>, a: int, b: int, v: usize) -> bool {
    let cl = occurrences(l.take(a), v);
    let cr = occurrences(r.take(b), v);
    &&& occurrences(res, v) == if cl <= cr { cl } else { cr }
    &&& cl > cr ==> b == r.len() || v < r[b]
    &&& cr > cl ==> a == l.len() || v < l[a]
}

/// Elements present in both ordered lists, in order.
pub fn intersect(left: &[usize], right: &[usize]) -> (r: Vec<usize>)
    ensures
        nondecreasing(left@) && nondecreasing(right@) ==> {
            &&& nondecreasing(r@)
            &&& forall|x: usize| r@.contains(x) <==> (left@.contains(x) && right@.contains(x))
            &&& forall|v: usize| #[trigger] occurrences(r@, v) == if occurrences(left@, v) <= occurrences(right@, v) {
                occurrences(left@, v)
            } else {
                occurrences(right@, v)
            }
        },
        sorted_unique(left@) && sorted_unique(right@) ==> {
            &&& sorted_unique(r@)
            &&& forall|x: usize| r@.contains(x) <==> (left@.contains(x) && right@.contains(x))
        },
{
    let ghost nd = nondecreasing(left@) && nondecreasing(right@);
    let ghost ok = sorted_unique(left@) && sorted_unique(right@);
    proof {
        if ok {
            assert(nondecreasing(left@) && nondecreasing(right@)) by {
                assert forall|i: int, j: int| 0 <= i <= j < left@.len() implies left@[i] <= left@[j] by {
                    if i < j {
                        assert(left@[i] < left@[j]);
                    }
                }
                assert forall|i: int, j: int| 0 <= i <= j < right@.len() implies right@[i] <= right@[j] by {
                    if i < j {
                        assert(right@[i] < right@[j]);
                    }
                }
            }
        }
    }
    let mut a: usize = 0;
    let mut b: usize = 0;
    let mut result: Vec<usize> = Vec::new();
    proof {
        assert(left@.take(0) =~= Seq::<usize>::empty());
        assert(right@.take(0) =~= Seq::<usize>::empty());
        assert(result@ =~= Seq::<usize>::empty());
        assert forall|v: usize| #[trigger] merged_counts(result@, left@, right@, 0, 0, v) by {
            lemma_occurrences_empty(v);
        }
    }
    while a < left.len() && b < right.len()
        invariant
            nd == (nondecreasing(left@) && nondecreasing(right@)),
            ok == (sorted_unique(left@) && sorted_unique(right@)),
            ok ==> nd,
            a <= left.len(),
            b <= right.len(),
            nd ==> {
                &&& nondecreasing(result@)
                &&& forall|k: int, i: int|
                    0 <= k < result.len() && a <= i < left.len() ==> result@[k] <= left@[i]
                &&& forall|i: int|
                    0 <= i < a ==> result@.contains(#[trigger] left@[i]) || b == right.len() || left@[i] < right@[b as int]
                &&& forall|j: int|
                    0 <= j < b ==> result@.contains(#[trigger] right@[j]) || a == left.len() || right@[j] < left@[a as int]
                &&& forall|x: usize|
                    result@.contains(x) <==> (left@.take(a as int).contains(x) && right@.take(
                        b as int,
                    ).contains(x))
                &&& forall|v: usize| #[trigger] merged_counts(result@, left@, right@, a as int, b as int, v)
            },
            ok ==> sorted_unique(result@),
        decreases left.len() + right.len() - a - b,
    {
        let ghost (a0, b0) = (a as int, b as int);
        let ghost old_res = result@;
        if left[a] < right[b] {
            a += 1;
        } else if left[a] > right[b] {
            b += 1;
        } else {
            result.push(left[a]);
            a += 1;
            b += 1;
        }
        proof {
            if nd {
                assert forall|x: usize| old_res.contains(x) implies result@.contains(x) by {
                    let k = choose|k: int| 0 <= k < old_res.len() && old_res[k] == x;
                    assert(result@[k] == x);
                }
                if result.len() > old_res.len() {
                    assert(result@[old_res.len() as int] == left@[a0]);
                    assert(result@.contains(left@[a0]));
                }
                assert forall|i: int|
                    0 <= i < a implies result@.contains(#[trigger] left@[i]) || b == right.len() || left@[i] < right@[b as int] by {
                    if i < a0 {
                        if !old_res.contains(left@[i]) && b < right.len() {
                            assert(left@[i] < right@[b0]);
                            assert(right@[b0] <= right@[b as int]);
                        }
                    } else if b < right.len() && b == b0 {
                        assert(left@[a0] < right@[b0]);
                    }
                }
                assert forall|j: int|
                    0 <= j < b implies result@.contains(#[trigger] right@[j]) || a == left.len() || right@[j] < left@[a as int] by {
                    if j < b0 {
                        if !old_res.contains(right@[j]) && a < left.len() {
                            assert(right@[j] < left@[a0]);
                            assert(left@[a0] <= left@[a as int]);
                        }
                    } else if a < left.len() && a == a0 {
                        assert(right@[b0] < left@[a0]);
                    }
                }
                assert forall|x: usize|
                    result@.contains(x) <==> (left@.take(a as int).contains(x) && right@.take(
                        b as int,
                    ).contains(x)) by {
                    if left@.take(a as int).contains(x) && right@.take(b as int).contains(x) {
                        let i = choose|i: int| 0 <= i < a && left@.take(a as int)[i] == x;
                        let j = choose|j: int| 0 <= j < b && right@.take(b as int)[j] == x;
                        if i < a0 && j < b0 {
                            assert(left@.take(a0)[i] == x && right@.take(b0)[j] == x);
                            assert(old_res.contains(x));
                        } else if i == a0 && j == b0 {
                        } else if i < a0 {
                            assert(j == b0);
                            assert(old_res.contains(left@[i]) || left@[i] < right@[b0]);
                        } else {
                            assert(i == a0);
                            assert(old_res.contains(right@[j]) || right@[j] < left@[a0]);
                        }
                    }
                    if result@.contains(x) {
                        let k = choose|k: int| 0 <= k < result.len() && result@[k] == x;
                        if k < old_res.len() {
                            assert(old_res[k] == x);
                            assert(old_res.contains(x));
                            let i = choose|i: int| 0 <= i < a0 && left@.take(a0)[i] == x;
                            let j = choose|j: int| 0 <= j < b0 && right@.take(b0)[j] == x;
                            assert(left@.take(a as int)[i] == x);
                            assert(right@.take(b as int)[j] == x);
                        } else {
                            assert(left@.take(a as int)[a0] == x);
                            assert(right@.take(b as int)[b0] == x);
                        }
                    }
                }
                assert(left@.take(a0 + 1) =~= left@.take(a0).push(left@[a0]));
                assert(right@.take(b0 + 1) =~= right@.take(b0).push(right@[b0]));
                assert(result.len() > old_res.len() ==> result@ =~= old_res.push(left@[a0]));
                assert forall|v: usize| #[trigger] merged_counts(result@, left@, right@, a as int, b as int, v) by {
                    lemma_occurrences_push(left@.take(a0), left@[a0], v);
                    lemma_occurrences_push(right@.take(b0), right@[b0], v);
                    lemma_occurrences_push(old_res, left@[a0], v);
                    let cl = occurrences(left@.take(a0), v);
                    let cr = occurrences(right@.take(b0), v);
                    let co = occurrences(old_res, v);
                    assert(merged_counts(old_res, left@, right@, a0, b0, v));
                    assert(co == if cl <= cr { cl } else { cr });
                    assert(cl > cr ==> v < right@[b0]);
                    assert(cr > cl ==> v < left@[a0]);
                    if a < left.len() {
                        assert(left@[a0] <= left@[a as int]);
                    }
                    if b < right.len() {
                        assert(right@[b0] <= right@[b as int]);
                    }
                    if a == a0 + 1 && b == b0 {
                        assert(left@[a0] < right@[b0]);
                        assert(left@.take(a as int) == left@.take(a0).push(left@[a0]));
                        assert(result@ == old_res);
                    } else if a == a0 && b == b0 + 1 {
                        assert(right@[b0] < left@[a0]);
                        assert(right@.take(b as int) == right@.take(b0).push(right@[b0]));
                        assert(result@ == old_res);
                    } else {
                        assert(left@[a0] == right@[b0]);
                        assert(result@ == old_res.push(left@[a0]));
                    }
                }
                if ok && result.len() > old_res.len() {
                    assert forall|k: int| 0 <= k < old_res.len() implies old_res[k] < left@[a0] by {
                        assert(old_res.contains(old_res[k]));
                        assert(left@.take(a0).contains(old_res[k]));
                        let i = choose|i: int| 0 <= i < a0 && left@.take(a0)[i] == old_res[k];
                        assert(left@[i] < left@[a0]);
                    }
                }
            }
        }
    }
    proof {
        if nd {
            assert forall|x: usize| result@.contains(x) <==> (left@.contains(x) && right@.contains(x)) by {
                if left@.contains(x) && right@.contains(x) {
                    let i = choose|i: int| 0 <= i < left.len() && left@[i] == x;
                    let j = choose|j: int| 0 <= j < right.len() && right@[j] == x;
                    if i < a && j < b {
                        assert(left@.take(a as int)[i] == x && right@.take(b as int)[j] == x);
                    } else if i >= a {
                        assert(b == right.len());
                        assert(left@[a as int] <= left@[i]);
                        assert(result@.contains(right@[j]) || right@[j] < left@[a as int]);
                    } else {
                        assert(a == left.len());
                        assert(right@[b as int] <= right@[j]);
                        assert(result@.contains(left@[i]) || left@[i] < right@[b as int]);
                    }
                }
                if result@.contains(x) {
                    let i = choose|i: int| 0 <= i < a && left@.take(a as int)[i] == x;
                    let j = choose|j: int| 0 <= j < b && right@.take(b as int)[j] == x;
                    assert(left@[i] == x && right@[j] == x);
                }
            }
            assert(left@.take(left.len() as int) =~= left@);
            assert(right@.take(right.len() as int) =~= right@);
            assert forall|v: usize| #[trigger] occurrences(result@, v) == if occurrences(left@, v) <= occurrences(right@, v) {
                occurrences(left@, v)
            } else {
                occurrences(right@, v)
            } by {
                assert(merged_counts(result@, left@, right@, a as int, b as int, v));
                lemma_occurrences_take(left@, a as int, left.len() as int, v);
                lemma_occurrences_take(right@, b as int, right.len() as int, v);
                if a < left.len() && occurrences(right@.take(b as int), v) > occurrences(left@.take(a as int), v) {
                    assert forall|k: int| a <= k < left.len() implies left@[k] != v by {
                        assert(left@[a as int] <= left@[k]);
                    }
                }
                if b < right.len() && occurrences(left@.take(a as int), v) > occurrences(right@.take(b as int), v) {
                    assert forall|k: int| b <= k < right.len() implies right@[k] != v by {
                        assert(right@[b as int] <= right@[k]);
                    }
                }
            }
        }
    }
    result
}

/// Elements present in either ordered list, in order and without repeats.
pub fn union(left: &[usize], right: &[usize]) -> (r: Vec<usize>)
    ensures
        nondecreasing(left@) && nondecreasing(right@) ==> {
            &&& sorted_unique(r@)
            &&& forall|x: usize| r@.contains(x) <==> (left@.contains(x) || right@.contains(x))
        },
        sorted_unique(left@) && sorted_unique(right@) ==> {
            &&& sorted_unique(r@)
            &&& forall|x: usize| r@.contains(x) <==> (left@.contains(x) || right@.contains(x))
        },
{
    let ghost nd = nondecreasing(left@) && nondecreasing(right@);
    proof {
        if sorted_unique(left@) && sorted_unique(right@) {
            assert forall|i: int, j: int| 0 <= i <= j < left@.len() implies left@[i] <= left@[j] by {
                if i < j {
                    assert(left@[i] < left@[j]);
                }
            }
            assert forall|i: int, j: int| 0 <= i <= j < right@.len() implies right@[i] <= right@[j] by {
                if i < j {
                    assert(right@[i] < right@[j]);
                }
            }
        }
    }
    let mut a: usize = 0;
    let mut b: usize = 0;
    let mut result: Vec<usize> = Vec::new();
    while a < left.len() || b < right.len()
        invariant
            nd == (nondecreasing(left@) && nondecreasing(right@)),
            a <= left.len(),
            b <= right.len(),
            nd ==> {
                &&& sorted_unique(result@)
                &&& forall|k: int, i: int|
                    0 <= k < result.len() && a <= i < left.len() ==> result@[k] <= left@[i]
                &&& forall|k: int, j: int|
                    0 <= k < result.len() && b <= j < right.len() ==> result@[k] <= right@[j]
                &&& forall|x: usize|
                    result@.contains(x) <==> (left@.take(a as int).contains(x) || right@.take(
                        b as int,
                    ).contains(x))
            },
        decreases left.len() + right.len() - a - b,
    {
        let ghost (a0, b0) = (a as int, b as int);
        let ghost old_res = result@;
        let next: usize;
        if b >= right.len() || (a < left.len() && left[a] < right[b]) {
            next = left[a];
            a += 1;
        } else if a >= left.len() || right[b] < left[a] {
            next = right[b];
            b += 1;
        } else {
            next = left[a];
            a += 1;
            b += 1;
        }
        let n = result.len();
        if n == 0 || result[n - 1] != next {
            result.push(next);
        }
        proof {
            if nd {
                assert forall|i: int| a <= i < left.len() implies next <= left@[i] by {
                    if a0 < left.len() {
                        assert(left@[a0] <= left@[i]);
                    }
                }
                assert forall|j: int| b <= j < right.len() implies next <= right@[j] by {
                    if b0 < right.len() {
                        assert(right@[b0] <= right@[j]);
                    }
                }
                if old_res.len() > 0 {
                    let last = old_res.len() - 1;
                    if a0 < left.len() {
                        assert(old_res[last] <= left@[a0]);
                    }
                    if b0 < right.len() {
                        assert(old_res[last] <= right@[b0]);
                    }
                    assert(old_res[last] <= next);
                }
                assert(result@.contains(next)) by {
                    if result.len() > old_res.len() {
                        assert(result@[old_res.len() as int] == next);
                    } else {
                        assert(result@[old_res.len() - 1] == next);
                    }
                }
                assert forall|x: usize|
                    result@.contains(x) <==> (left@.take(a as int).contains(x) || right@.take(
                        b as int,
                    ).contains(x)) by {
                    if left@.take(a as int).contains(x) {
                        let i = choose|i: int| 0 <= i < a && left@.take(a as int)[i] == x;
                        if i < a0 {
                            assert(left@.take(a0)[i] == x);
                            assert(left@.take(a0).contains(x));
                            assert(old_res.contains(x));
                            let k = choose|k: int| 0 <= k < old_res.len() && old_res[k] == x;
                            assert(result@[k] == x);
                        }
                    }
                    if right@.take(b as int).contains(x) {
                        let j = choose|j: int| 0 <= j < b && right@.take(b as int)[j] == x;
                        if j < b0 {
                            assert(right@.take(b0)[j] == x);
                            assert(right@.take(b0).contains(x));
                            assert(old_res.contains(x));
                            let k = choose|k: int| 0 <= k < old_res.len() && old_res[k] == x;
                            assert(result@[k] == x);
                        }
                    }
                    if result@.contains(x) {
                        let k = choose|k: int| 0 <= k < result.len() && result@[k] == x;
                        if k < old_res.len() {
                            assert(old_res[k] == x);
                            assert(old_res.contains(x));
                            if left@.take(a0).contains(x) {
                                let i = choose|i: int| 0 <= i < a0 && left@.take(a0)[i] == x;
                                assert(left@.take(a as int)[i] == x);
                            } else {
                                let j = choose|j: int| 0 <= j < b0 && right@.take(b0)[j] == x;
                                assert(right@.take(b as int)[j] == x);
                            }
                        } else if a > a0 {
                            assert(left@.take(a as int)[a0] == x);
                        } else {
                            assert(right@.take(b as int)[b0] == x);
                        }
                    }
                }
            }
        }
    }
    proof {
        if nd {
            assert(left@.take(a as int) =~= left@);
            assert(right@.take(b as int) =~= right@);
        }
    }
    result
}

/// The elements of `left` that `right` lacks, in their order and with
/// their repeats.
pub open spec fn minus(left: Seq<usize>, right: Seq<usize>) -> Seq<usize> {
    left.filter(|v: usize| !right.contains(v))
}

/// Elements of the ordered list `left` absent from the ordered list `right`.
pub fn difference(left: &[usize], right: &[usize]) -> (r: Vec<usize>)
    ensures
        nondecreasing(left@) && nondecreasing(right@) ==> {
            &&& r@ == minus(left@, right@)
            &&& forall|x: usize| r@.contains(x) <==> (left@.contains(x) && !right@.contains(x))
        },
        sorted_unique(left@) && sorted_unique(right@) ==> {
            &&& sorted_unique(r@)
            &&& forall|x: usize| r@.contains(x) <==> (left@.contains(x) && !right@.contains(x))
        },
{
    let ghost nd = nondecreasing(left@) && nondecreasing(right@);
    let ghost ok = sorted_unique(left@) && sorted_unique(right@);
    let ghost keep = |v: usize| !right@.contains(v);
    proof {
        if ok {
            assert forall|i: int, j: int| 0 <= i <= j < left@.len() implies left@[i] <= left@[j] by {
                if i < j {
                    assert(left@[i] < left@[j]);
                }
            }
            assert forall|i: int, j: int| 0 <= i <= j < right@.len() implies right@[i] <= right@[j] by {
                if i < j {
                    assert(right@[i] < right@[j]);
                }
            }
        }
        assert(left@.take(0) =~= Seq::<usize>::empty());
        reveal(Seq::filter);
    }
    let mut a: usize = 0;
    let mut b: usize = 0;
    let mut result: Vec<usize> = Vec::new();
    while a < left.len()
        invariant
            nd == (nondecreasing(left@) && nondecreasing(right@)),
            ok == (sorted_unique(left@) && sorted_unique(right@)),
            ok ==> nd,
            keep == (|v: usize| !right@.contains(v)),
            a <= left.len(),
            b <= right.len(),
            nd ==> {
                &&& result@ == left@.take(a as int).filter(keep)
                &&& forall|i: int, j: int|
                    0 <= j < b && a <= i < left.len() ==> right@[j] < left@[i]
                &&& forall|x: usize|
                    result@.contains(x) <==> (left@.take(a as int).contains(x)
                        && !right@.contains(x))
            },
            ok ==> {
                &&& sorted_unique(result@)
                &&& forall|k: int, i: int|
                    0 <= k < result.len() && a <= i < left.len() ==> result@[k] < left@[i]
            },
        decreases left.len() - a,
    {
        let ghost old_res = result@;
        let ghost a0 = a as int;
        while b < right.len() && right[b] < left[a]
            invariant
                nd == (nondecreasing(left@) && nondecreasing(right@)),
                a < left.len(),
                b <= right.len(),
                nd ==> forall|i: int, j: int|
                    0 <= j < b && a <= i < left.len() ==> right@[j] < left@[i],
            decreases right.len() - b,
        {
            proof {
                if nd {
                    assert forall|i: int, j: int|
                        0 <= j < b + 1 && a <= i < left.len() implies right@[j] < left@[i] by {
                        if j == b {
                            assert(left@[a as int] <= left@[i]);
                        }
                    }
                }
            }
            b += 1;
        }
        let absent = b >= right.len() || left[a] != right[b];
        if absent {
            result.push(left[a]);
        }
        a += 1;
        proof {
            if nd {
                let v = left@[a0];
                assert(absent == !right@.contains(v)) by {
                    if right@.contains(v) {
                        let j = choose|j: int| 0 <= j < right.len() && right@[j] == v;
                        if j < b {
                            assert(right@[j] < left@[a0]);
                        } else if j > b {
                            assert(right@[b as int] <= right@[j]);
                        }
                    }
                }
                assert(left@.take(a as int) =~= left@.take(a0).push(v));
                left@.take(a0).lemma_filter_push(v, keep);
                assert forall|i: int, j: int| 0 <= j < b && a <= i < left.len() implies right@[j] < left@[i] by {
                    assert(left@[a0] <= left@[i]);
                }
                assert forall|x: usize|
                    result@.contains(x) <==> (left@.take(a as int).contains(x)
                        && !right@.contains(x)) by {
                    if left@.take(a as int).contains(x) && !right@.contains(x) {
                        let i = choose|i: int| 0 <= i < a && left@.take(a as int)[i] == x;
                        if i < a0 {
                            assert(left@.take(a0)[i] == x);
                            assert(left@.take(a0).contains(x));
                            assert(old_res.contains(x));
                            let k = choose|k: int| 0 <= k < old_res.len() && old_res[k] == x;
                            assert(result@[k] == x);
                        } else {
                            assert(result@[result.len() - 1] == x);
                        }
                    }
                    if result@.contains(x) {
                        let k = choose|k: int| 0 <= k < result.len() && result@[k] == x;
                        if k < old_res.len() {
                            assert(old_res[k] == x);
                            assert(old_res.contains(x));
                            let i = choose|i: int| 0 <= i < a0 && left@.take(a0)[i] == x;
                            assert(left@.take(a as int)[i] == x);
                        } else {
                            assert(left@.take(a as int)[a0] == x);
                        }
                    }
                }
            }
        }
    }
    proof {
        if nd {
            assert(left@.take(a as int) =~= left@);
        }
    }
    result
}

/// Positions below `k`, in order, that satisfy `p`.
pub open spec fn index_positions(p: spec_fn(int) -> bool, k: int) -> Seq<usize>
    decreases k,
{
    if k <= 0 {
        Seq::empty()
    } else {
        let prev = index_positions(p, k - 1);
        if p(k - 1) {
            prev.push((k - 1) as usize)
        } else {
            prev
        }
    }
}

/// An ordered list without repeats is determined by the positions it
/// holds.
pub proof fn lemma_index_positions_unique(s: Seq<usize>, p: spec_fn(int) -> bool, k: int)
    requires
        0 <= k <= usize::MAX + 1,
        sorted_unique(s),
        forall|i: usize| s.contains(i) <==> (i < k && p(i as int)),
    ensures
        s == index_positions(p, k),
    decreases k,
{
    if k == 0 {
        if s.len() > 0 {
            assert(s.contains(s[0]));
        }
        assert(s =~= Seq::<usize>::empty());
    } else {
        let m = (k - 1) as usize;
        if p(m as int) {
            assert(s.contains(m));
            let j = choose|j: int| 0 <= j < s.len() && s[j] == m;
            let last = s.len() - 1;
            assert(s.contains(s[last]));
            if j < last {
                assert(s[j] < s[last]);
            }
            assert(s[last] == m);
            let t = s.drop_last();
            assert forall|i: usize| t.contains(i) <==> (i < k - 1 && p(i as int)) by {
                if t.contains(i) {
                    let q = choose|q: int| 0 <= q < t.len() && t[q] == i;
                    assert(s[q] == i);
                    assert(s[q] < s[last]);
                    assert(s.contains(i));
                }
                if i < k - 1 && p(i as int) {
                    assert(s.contains(i));
                    let q = choose|q: int| 0 <= q < s.len() && s[q] == i;
                    assert(q != last);
                    assert(t[q] == i);
                }
            }
            lemma_index_positions_unique(t, p, k - 1);
            assert(s =~= t.push(m));
        } else {
            assert forall|i: usize| s.contains(i) <==> (i < k - 1 && p(i as int)) by {}
            lemma_index_positions_unique(s, p, k - 1);
        }
    }
}

/// The positions satisfying a predicate are an ordered list of positions
/// below the bound, holding exactly those positions.
pub proof fn lemma_index_positions_facts(p: spec_fn(int) -> bool, k: int)
    requires
        0 <= k <= usize::MAX,
    ensures
        sorted_unique(index_positions(p, k)),
        forall|i: usize| index_positions(p, k).contains(i) <==> (i < k && p(i as int)),
    decreases k,
{
    if k > 0 {
        lemma_index_positions_facts(p, k - 1);
        let prev = index_positions(p, k - 1);
        if p(k - 1) {
            assert forall|i: int| 0 <= i < prev.len() implies prev[i] < k - 1 by {
                assert(prev.contains(prev[i]));
            }
            assert forall|i: usize| index_positions(p, k).contains(i) <==> (i < k && p(i as int)) by {
                assert(index_positions(p, k) == prev.push((k - 1) as usize));
                if index_positions(p, k).contains(i) && i != k - 1 {
                    let q = choose|q: int| 0 <= q < index_positions(p, k).len() && index_positions(p, k)[q] == i;
                    assert(q < prev.len());
                    assert(prev[q] == i);
                    assert(prev.contains(i));
                }
                if i < k - 1 && p(i as int) {
                    assert(prev.contains(i));
                    let q = choose|q: int| 0 <= q < prev.len() && prev[q] == i;
                    assert(index_positions(p, k)[q] == i);
                }
                if i == k - 1 {
                    assert(index_positions(p, k)[prev.len() as int] == i);
                }
            }
        }
    }
}

/// `r` is the union of `a` and `b` as a posting list: in increasing
/// order, holding what either holds (what `union` gives for posting lists).
pub open spec fn is_union(a: Seq<usize>, b: Seq<usize>, r: Seq<usize>) -> bool {
    sorted_unique(r) && forall|x: usize| r.contains(x) <==> (a.contains(x) || b.contains(x))
}

/// `r` is the intersection of `a` and `b` as a posting list (what
/// `intersect` gives for posting lists).
pub open spec fn is_intersection(a: Seq<usize>, b: Seq<usize>, r: Seq<usize>) -> bool {
    sorted_unique(r) && forall|x: usize| r.contains(x) <==> (a.contains(x) && b.contains(x))
}

/// Two posting lists holding the same positions are equal.
pub proof fn lemma_posting_ext(s: Seq<usize>, t: Seq<usize>)
    requires
        sorted_unique(s),
        sorted_unique(t),
        forall|x: usize| s.contains(x) <==> t.contains(x),
    ensures
        s == t,
{
    let k = usize::MAX + 1;
    lemma_index_positions_unique(s, |i: int| s.contains(i as usize), k);
    lemma_index_positions_unique(t, |i: int| s.contains(i as usize), k);
}

/// A posting list has as many positions as its set of positions.
proof fn lemma_posting_set_len(s: Seq<usize>)
    requires
        sorted_unique(s),
    ensures
        s.to_set().len() == s.len(),
        s.to_set().finite(),
{
    assert(s.no_duplicates()) by {
        assert forall|i: int, j: int| 0 <= i < s.len() && 0 <= j < s.len() && i != j implies s[i] != s[j] by {
            if i < j {
                assert(s[i] < s[j]);
            } else {
                assert(s[j] < s[i]);
            }
        }
    }
    s.unique_seq_to_set();
    vstd::seq_lib::seq_to_set_is_finite(s);
}

/// Union of posting lists is commutative, keeps a list unchanged when
/// joined with nothing or with itself, and counts each list once with
/// the intersection: `|a ∪ b| + |a ∩ b| == |a| + |b|`.
pub proof fn lemma_union_laws(a: Seq<usize>, b: Seq<usize>, ab: Seq<usize>, ba: Seq<usize>, both: Seq<usize>)
    requires
        sorted_unique(a),
        sorted_unique(b),
        is_union(a, b, ab),
        is_union(b, a, ba),
        is_intersection(a, b, both),
    ensures
        ab == ba,
        ab.len() + both.len() == a.len() + b.len(),
        forall|r: Seq<usize>| is_union(a, Seq::empty(), r) ==> r == a,
        forall|r: Seq<usize>| is_union(a, a, r) ==> r == a,
{
    lemma_posting_ext(ab, ba);
    assert forall|r: Seq<usize>| is_union(a, Seq::empty(), r) implies r == a by {
        lemma_posting_ext(r, a);
    }
    assert forall|r: Seq<usize>| is_union(a, a, r) implies r == a by {
        lemma_posting_ext(r, a);
    }
    lemma_posting_set_len(a);
    lemma_posting_set_len(b);
    lemma_posting_set_len(ab);
    lemma_posting_set_len(both);
    let sa = a.to_set();
    let sb = b.to_set();
    assert(ab.to_set() =~= sa + sb);
    assert(both.to_set() =~= sa.intersect(sb));
    let only_a = sa - sb;
    vstd::set_lib::lemma_set_disjoint_lens(only_a, sb);
    vstd::set_lib::lemma_set_disjoint_lens(only_a, sa.intersect(sb));
    assert(only_a + sb =~= sa + sb);
    assert(only_a + sa.intersect(sb) =~= sa);
}

} // verus!
