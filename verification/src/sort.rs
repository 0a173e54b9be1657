//! Stable ordering of records by a key made of a time (seconds and
//! nanoseconds) and a text, compared character by character.

use vstd::prelude::*;

verus! {

/// Lexicographic order on character sequences (the order of `str`).
pub open spec fn text_lt(a: Seq<char>, b: Seq<char>) -> bool
    decreases a.len(),
{
    if a.len() == 0 {
        b.len() > 0
    } else if b.len() == 0 {
        false
    } else if a[0] != b[0] {
        a[0] < b[0]
    } else {
        text_lt(a.drop_first(), b.drop_first())
    }
}

/// A sort key: a time `(major, minor)` then a text.
pub struct SortKey {
    pub major: i64,
    pub minor: u32,
    pub text: Vec<char>,
}

impl SortKey {
    pub open spec fn view_key(self) -> (int, int, Seq<char>) {
        (self.major as int, self.minor as int, self.text@)
    }
}

/// Strict order on key values.
pub open spec fn key_lt(a: (int, int, Seq<char>), b: (int, int, Seq<char>)) -> bool {
    a.0 < b.0 || (a.0 == b.0 && (a.1 < b.1 || (a.1 == b.1 && text_lt(a.2, b.2))))
}

/// Strict order on positions: by key, ties by position (stable order).
pub open spec fn pos_lt(keys: Seq<(int, int, Seq<char>)>, i: int, j: int) -> bool {
    key_lt(keys[i], keys[j]) || (keys[i] == keys[j] && i < j)
}

/// `order` lists positions in increasing `pos_lt` order.
pub open spec fn ordered(keys: Seq<(int, int, Seq<char>)>, order: Seq<usize>) -> bool {
    forall|a: int, b: int|
        0 <= a < b < order.len() ==> pos_lt(keys, #[trigger] order[a] as int, #[trigger] order[b] as int)
}

/// The key values of a list of sort keys.
pub open spec fn key_views(keys: Seq<SortKey>) -> Seq<(int, int, Seq<char>)> {
    keys.map_values(|k: SortKey| k.view_key())
}

pub proof fn lemma_text_lt_irrefl(a: Seq<char>)
    ensures
        !text_lt(a, a),
    decreases a.len(),
{
    if a.len() > 0 {
        lemma_text_lt_irrefl(a.drop_first());
    }
}

pub proof fn lemma_text_lt_trans(a: Seq<char>, b: Seq<char>, c: Seq<char>)
    requires
        text_lt(a, b),
        text_lt(b, c),
    ensures
        text_lt(a, c),
    decreases a.len(),
{
    if a.len() > 0 && b.len() > 0 && c.len() > 0 && a[0] == b[0] && b[0] == c[0] {
        lemma_text_lt_trans(a.drop_first(), b.drop_first(), c.drop_first());
    }
}

pub proof fn lemma_text_lt_total(a: Seq<char>, b: Seq<char>)
    ensures
        text_lt(a, b) || text_lt(b, a) || a == b,
    decreases a.len(),
{
    if a.len() > 0 && b.len() > 0 {
        if a[0] == b[0] {
            lemma_text_lt_total(a.drop_first(), b.drop_first());
            if a.drop_first() == b.drop_first() {
                assert(a =~= seq![a[0]] + a.drop_first());
                assert(b =~= seq![b[0]] + b.drop_first());
            }
        }
    } else if a.len() == 0 && b.len() == 0 {
        assert(a =~= b);
    }
}

proof fn lemma_key_lt_trans(a: (int, int, Seq<char>), b: (int, int, Seq<char>), c: (int, int, Seq<char>))
    requires
        key_lt(a, b),
        key_lt(b, c),
    ensures
        key_lt(a, c),
{
    if a.0 == b.0 && b.0 == c.0 && a.1 == b.1 && b.1 == c.1 {
        lemma_text_lt_trans(a.2, b.2, c.2);
    }
}

proof fn lemma_key_lt_total(a: (int, int, Seq<char>), b: (int, int, Seq<char>))
    ensures
        key_lt(a, b) || key_lt(b, a) || a == b,
{
    lemma_text_lt_total(a.2, b.2);
}

pub proof fn lemma_key_lt_irrefl(a: (int, int, Seq<char>))
    ensures
        !key_lt(a, a),
{
    lemma_text_lt_irrefl(a.2);
}

/// `pos_lt` is a strict total order.
proof fn lemma_pos_lt_trans(keys: Seq<(int, int, Seq<char>)>, i: int, j: int, k: int)
    requires
        pos_lt(keys, i, j),
        pos_lt(keys, j, k),
    ensures
        pos_lt(keys, i, k),
{
    if key_lt(keys[i], keys[j]) && key_lt(keys[j], keys[k]) {
        lemma_key_lt_trans(keys[i], keys[j], keys[k]);
    }
}

proof fn lemma_pos_lt_total(keys: Seq<(int, int, Seq<char>)>, i: int, j: int)
    requires
        i != j,
    ensures
        pos_lt(keys, i, j) || pos_lt(keys, j, i),
{
    lemma_key_lt_total(keys[i], keys[j]);
}

pub proof fn lemma_pos_lt_asym(keys: Seq<(int, int, Seq<char>)>, i: int, j: int)
    requires
        pos_lt(keys, i, j),
    ensures
        !pos_lt(keys, j, i),
{
    if key_lt(keys[i], keys[j]) && key_lt(keys[j], keys[i]) {
        lemma_key_lt_trans(keys[i], keys[j], keys[i]);
        lemma_key_lt_irrefl(keys[i]);
    }
    if key_lt(keys[i], keys[j]) && keys[j] == keys[i] {
        lemma_key_lt_irrefl(keys[i]);
    }
    if key_lt(keys[j], keys[i]) && keys[j] == keys[i] {
        lemma_key_lt_irrefl(keys[i]);
    }
}

pub fn text_less(a: &[char], b: &[char]) -> (r: bool)
    ensures
        r == text_lt(a@, b@),
{
    let mut i: usize = 0;
    assert(a@.skip(0) =~= a@);
    assert(b@.skip(0) =~= b@);
    while i < a.len() && i < b.len()
        invariant
            i <= a.len(),
            i <= b.len(),
            text_lt(a@, b@) == text_lt(a@.skip(i as int), b@.skip(i as int)),
        decreases a.len() - i,
    {
        assert(a@.skip(i as int)[0] == a[i as int]);
        assert(b@.skip(i as int)[0] == b[i as int]);
        if a[i] != b[i] {
            return a[i] < b[i];
        }
        assert(a@.skip(i as int).drop_first() =~= a@.skip(i + 1));
        assert(b@.skip(i as int).drop_first() =~= b@.skip(i + 1));
        i += 1;
    }
    i == a.len() && i < b.len()
}

fn key_less(a: &SortKey, b: &SortKey) -> (r: bool)
    ensures
        r == key_lt(a.view_key(), b.view_key()),
{
    if a.major != b.major {
        return a.major < b.major;
    }
    if a.minor != b.minor {
        return a.minor < b.minor;
    }
    text_less(a.text.as_slice(), b.text.as_slice())
}

/// Merges two ordered position lists.
fn merge(keys: &Vec<SortKey>, left: Vec<usize>, right: Vec<usize>) -> (r: Vec<usize>)
    requires
        forall|a: int| 0 <= a < left.len() ==> (#[trigger] left@[a] as int) < keys.len(),
        forall|a: int| 0 <= a < right.len() ==> (#[trigger] right@[a] as int) < keys.len(),
        ordered(key_views(keys@), left@),
        ordered(key_views(keys@), right@),
        forall|a: int, b: int|
            0 <= a < left.len() && 0 <= b < right.len() ==> #[trigger] left@[a] != #[trigger] right@[b],
    ensures
        r.len() == left.len() + right.len(),
        ordered(key_views(keys@), r@),
        forall|x: usize| r@.contains(x) <==> (left@.contains(x) || right@.contains(x)),
{
    let ghost kv = key_views(keys@);
    let mut a: usize = 0;
    let mut b: usize = 0;
    let mut result: Vec<usize> = Vec::new();
    while a < left.len() || b < right.len()
        invariant
            kv == key_views(keys@),
            a <= left.len(),
            b <= right.len(),
            result.len() == a + b,
            forall|k: int| 0 <= k < left.len() ==> (#[trigger] left@[k] as int) < keys.len(),
            forall|k: int| 0 <= k < right.len() ==> (#[trigger] right@[k] as int) < keys.len(),
            ordered(kv, left@),
            ordered(kv, right@),
            forall|p: int, q: int|
                0 <= p < left.len() && 0 <= q < right.len() ==> #[trigger] left@[p] != #[trigger] right@[q],
            ordered(kv, result@),
            forall|k: int, p: int|
                0 <= k < result.len() && a <= p < left.len() ==> pos_lt(
                    kv,
                    #[trigger] result@[k] as int,
                    #[trigger] left@[p] as int,
                ),
            forall|k: int, q: int|
                0 <= k < result.len() && b <= q < right.len() ==> pos_lt(
                    kv,
                    #[trigger] result@[k] as int,
                    #[trigger] right@[q] as int,
                ),
            forall|x: usize|
                result@.contains(x) <==> (left@.take(a as int).contains(x) || right@.take(
                    b as int,
                ).contains(x)),
        decreases left.len() + right.len() - a - b,
    {
        let ghost old_res = result@;
        let ghost (a0, b0) = (a as int, b as int);
        let take_left = if a >= left.len() {
            false
        } else if b >= right.len() {
            true
        } else {
            let li = left[a];
            let ri = right[b];
            key_less(&keys[li], &keys[ri]) || (!key_less(&keys[ri], &keys[li]) && li < ri)
        };
        let next: usize;
        if take_left {
            next = left[a];
            a += 1;
        } else {
            next = right[b];
            b += 1;
        }
        result.push(next);
        proof {
            if take_left && b0 < right.len() {
                let li = left@[a0] as int;
                let ri = right@[b0] as int;
                assert(keys@[li].view_key() == kv[li]);
                assert(keys@[ri].view_key() == kv[ri]);
                if !key_lt(kv[li], kv[ri]) {
                    lemma_key_lt_total(kv[li], kv[ri]);
                }
                assert(pos_lt(kv, li, ri));
            }
            if !take_left && a0 < left.len() {
                let li = left@[a0] as int;
                let ri = right@[b0] as int;
                assert(keys@[li].view_key() == kv[li]);
                assert(keys@[ri].view_key() == kv[ri]);
                assert(li != ri);
                lemma_pos_lt_total(kv, li, ri);
                if pos_lt(kv, li, ri) {
                    if key_lt(kv[li], kv[ri]) {
                    } else {
                        assert(kv[li] == kv[ri] && li < ri);
                        lemma_key_lt_irrefl(kv[li]);
                    }
                }
                assert(pos_lt(kv, ri, li));
            }
            // everything still ahead comes after `next`
            assert forall|p: int| a <= p < left.len() implies pos_lt(kv, next as int, #[trigger] left@[p] as int) by {
                if take_left {
                } else {
                    let li = left@[a0] as int;
                    if p > a0 {
                        lemma_pos_lt_trans(kv, next as int, li, left@[p] as int);
                    }
                }
            }
            assert forall|q: int| b <= q < right.len() implies pos_lt(kv, next as int, #[trigger] right@[q] as int) by {
                if !take_left {
                } else {
                    let ri = right@[b0] as int;
                    if q > b0 {
                        lemma_pos_lt_trans(kv, next as int, ri, right@[q] as int);
                    }
                }
            }
            assert forall|k: int, p: int|
                0 <= k < result.len() && a <= p < left.len() implies pos_lt(
                    kv,
                    #[trigger] result@[k] as int,
                    #[trigger] left@[p] as int,
                ) by {
                if k < old_res.len() {
                    if take_left {
                        assert(a0 <= p);
                    }
                    assert(old_res[k] == result@[k]);
                } else {
                    assert(result@[k] == next);
                }
            }
            assert forall|k: int, q: int|
                0 <= k < result.len() && b <= q < right.len() implies pos_lt(
                    kv,
                    #[trigger] result@[k] as int,
                    #[trigger] right@[q] as int,
                ) by {
                if k < old_res.len() {
                    assert(old_res[k] == result@[k]);
                } else {
                    assert(result@[k] == next);
                }
            }
            assert forall|k1: int, k2: int| 0 <= k1 < k2 < result.len() implies pos_lt(
                kv,
                #[trigger] result@[k1] as int,
                #[trigger] result@[k2] as int,
            ) by {
                if k2 < old_res.len() {
                    assert(old_res[k1] == result@[k1] && old_res[k2] == result@[k2]);
                } else {
                    assert(old_res[k1] == result@[k1]);
                    if take_left {
                        assert(result@[k1] == old_res[k1]);
                    }
                }
            }
            assert forall|x: usize|
                result@.contains(x) <==> (left@.take(a as int).contains(x) || right@.take(
                    b as int,
                ).contains(x)) by {
                if left@.take(a as int).contains(x) {
                    let i = choose|i: int| 0 <= i < a && left@.take(a as int)[i] == x;
                    if i < a0 {
                        assert(left@.take(a0)[i] == x);
                        assert(left@.take(a0).contains(x));
                        assert(old_res.contains(x));
                        let k = choose|k: int| 0 <= k < old_res.len() && old_res[k] == x;
                        assert(result@[k] == x);
                    } else {
                        assert(result@[result.len() - 1] == x);
                    }
                }
                if right@.take(b as int).contains(x) {
                    let j = choose|j: int| 0 <= j < b && right@.take(b as int)[j] == x;
                    if j < b0 {
                        assert(right@.take(b0)[j] == x);
                        assert(right@.take(b0).contains(x));
                        assert(old_res.contains(x));
                        let k = choose|k: int| 0 <= k < old_res.len() && old_res[k] == x;
                        assert(result@[k] == x);
                    } else {
                        assert(result@[result.len() - 1] == x);
                    }
                }
                if result@.contains(x) {
                    let k = choose|k: int| 0 <= k < result.len() && result@[k] == x;
                    if k < old_res.len() {
                        assert(old_res[k] == x);
                        assert(old_res.contains(x));
                        if left@.take(a0).contains(x) {
                            let i = choose|i: int| 0 <= i < a0 && left@.take(a0)[i] == x;
                            assert(left@.take(a as int)[i] == x);
                        } else {
                            let j = choose|j: int| 0 <= j < b0 && right@.take(b0)[j] == x;
                            assert(right@.take(b as int)[j] == x);
                        }
                    } else if take_left {
                        assert(left@.take(a as int)[a0] == x);
                    } else {
                        assert(right@.take(b as int)[b0] == x);
                    }
                }
            }
        }
    }
    assert(left@.take(a as int) =~= left@);
    assert(right@.take(b as int) =~= right@);
    result
}

/// Positions `lo..hi` in stable key order.
fn sort_range(keys: &Vec<SortKey>, lo: usize, hi: usize) -> (r: Vec<usize>)
    requires
        lo <= hi <= keys.len(),
    ensures
        r.len() == hi - lo,
        ordered(key_views(keys@), r@),
        forall|k: int| 0 <= k < r.len() ==> lo <= #[trigger] r@[k] < hi,
        forall|x: usize| r@.contains(x) <==> lo <= x < hi,
    decreases hi - lo,
{
    if hi - lo == 0 {
        let r: Vec<usize> = Vec::new();
        return r;
    }
    if hi - lo == 1 {
        let mut r: Vec<usize> = Vec::new();
        r.push(lo);
        proof {
            assert forall|x: usize| r@.contains(x) <==> lo <= x < hi by {
                if x == lo {
                    assert(r@[0] == x);
                }
            }
        }
        return r;
    }
    let mid = lo + (hi - lo) / 2;
    let left = sort_range(keys, lo, mid);
    let right = sort_range(keys, mid, hi);
    let r = merge(keys, left, right);
    proof {
        assert forall|k: int| 0 <= k < r.len() implies lo <= #[trigger] r@[k] < hi by {
            assert(r@.contains(r@[k]));
        }
        assert forall|x: usize| r@.contains(x) <==> lo <= x < hi by {
            if lo <= x < hi {
                if x < mid {
                    assert(left@.contains(x));
                } else {
                    assert(right@.contains(x));
                }
            }
        }
    }
    r
}

/// The positions `0..keys.len()` listed in increasing key order, equal
/// keys in their given order.
pub fn stable_order(keys: &Vec<SortKey>) -> (r: Vec<usize>)
    ensures
        r.len() == keys.len(),
        ordered(key_views(keys@), r@),
        forall|k: int| 0 <= k < r.len() ==> (#[trigger] r@[k] as int) < keys.len(),
        forall|x: usize| r@.contains(x) <==> x < keys.len(),
{
    sort_range(keys, 0, keys.len())
}

/// In an ordered list each position occurs once.
pub proof fn lemma_ordered_distinct(keys: Seq<(int, int, Seq<char>)>, order: Seq<usize>, a: int, b: int)
    requires
        ordered(keys, order),
        0 <= a < order.len(),
        0 <= b < order.len(),
        a != b,
    ensures
        order[a] != order[b],
{
    if a < b {
        if order[a] == order[b] {
            lemma_pos_lt_asym(keys, order[a] as int, order[b] as int);
        }
    } else {
        if order[a] == order[b] {
            lemma_pos_lt_asym(keys, order[b] as int, order[a] as int);
        }
    }
}

/// Rearranges `items` so that position `k` holds the item at `order[k]`.
pub fn permute<T>(items: Vec<T>, order: &Vec<usize>) -> (r: Vec<T>)
    requires
        order.len() == items.len(),
        forall|k: int| 0 <= k < order.len() ==> (#[trigger] order@[k] as int) < items.len(),
        forall|a: int, b: int|
            0 <= a < order.len() && 0 <= b < order.len() && a != b ==> #[trigger] order@[a]
                != #[trigger] order@[b],
    ensures
        r.len() == items.len(),
        forall|k: int| 0 <= k < r.len() ==> #[trigger] r@[k] == items@[order@[k] as int],
{
    let n = items.len();
    let ghost orig = items@;
    let mut items = items;
    let mut slots: Vec<Option<T>> = Vec::new();
    assert(orig.take(n as int) =~= orig);
    while items.len() > 0
        invariant
            orig.len() == n,
            items.len() + slots.len() == n,
            items@ == orig.take(items.len() as int),
            forall|j: int| 0 <= j < slots.len() ==> #[trigger] slots@[j] == Some(orig[n - 1 - j]),
        decreases items.len(),
    {
        let ghost before = items@;
        let ghost before_slots = slots@;
        assert(before.len() > 0);
        assert(before[before.len() - 1] == orig.take(before.len() as int)[before.len() - 1]);
        let popped = items.pop();
        let x = match popped {
            Some(x) => x,
            None => {
                assert(false);
                return Vec::new();
            },
        };
        assert(x == before.last());
        assert(items@ =~= before.drop_last());
        slots.push(Some(x));
        assert(items@ =~= orig.take(items.len() as int));
        assert forall|j: int| 0 <= j < slots.len() implies #[trigger] slots@[j] == Some(orig[n - 1 - j]) by {
            if j < before_slots.len() {
                assert(slots@[j] == before_slots[j]);
            } else {
                assert(before.last() == orig[before.len() - 1]);
            }
        }
    }
    let mut out: Vec<T> = Vec::new();
    let mut k: usize = 0;
    while k < n
        invariant
            orig.len() == n,
            k <= n,
            slots.len() == n,
            order.len() == n,
            out.len() == k,
            forall|j: int| 0 <= j < n ==> (#[trigger] order@[j] as int) < n,
            forall|a: int, b: int|
                0 <= a < n && 0 <= b < n && a != b ==> #[trigger] order@[a] != #[trigger] order@[b],
            forall|j: int| 0 <= j < k ==> #[trigger] out@[j] == orig[order@[j] as int],
            forall|j: int|
                0 <= j < n ==> (#[trigger] slots@[j] == Some(orig[n - 1 - j]) || exists|t: int|
                    0 <= t < k && order@[t] as int == n - 1 - j),
            forall|t: int| 0 <= t < k ==> #[trigger] slots@[n - 1 - order@[t] as int] is None,
        decreases n - k,
    {
        let idx = order[k];
        let slot = n - 1 - idx;
        let mut taken: Option<T> = None;
        proof {
            if slots@[slot as int] != Some(orig[n - 1 - slot as int]) {
                let t = choose|t: int| 0 <= t < k && order@[t] as int == n - 1 - slot;
                assert(order@[t] == order@[k as int]);
            }
        }
        std::mem::swap(&mut slots[slot], &mut taken);
        match taken {
            Some(x) => {
                out.push(x);
            },
            None => {
                assert(false);
            },
        }
        proof {
            assert forall|j: int|
                0 <= j < n implies (#[trigger] slots@[j] == Some(orig[n - 1 - j]) || exists|t: int|
                    0 <= t < k + 1 && order@[t] as int == n - 1 - j) by {
                if j == slot as int {
                    assert(order@[k as int] as int == n - 1 - j);
                } else if slots@[j] != Some(orig[n - 1 - j]) {
                    let t = choose|t: int| 0 <= t < k && order@[t] as int == n - 1 - j;
                    assert(0 <= t < k + 1 && order@[t] as int == n - 1 - j);
                }
            }
            assert forall|t: int| 0 <= t < k + 1 implies #[trigger] slots@[n - 1 - order@[t] as int] is None by {
                if t < k {
                    assert(order@[t] != order@[k as int]);
                }
            }
        }
        k += 1;
    }
    out
}

/// `lt` orders the positions `0..n` strictly and totally.
pub open spec fn strict_total(lt: spec_fn(int, int) -> bool, n: int) -> bool {
    &&& forall|a: int| 0 <= a < n ==> !#[trigger] lt(a, a)
    &&& forall|a: int, b: int, c: int|
        0 <= a < n && 0 <= b < n && 0 <= c < n && #[trigger] lt(a, b) && #[trigger] lt(b, c) ==> lt(a, c)
    &&& forall|a: int, b: int| 0 <= a < n && 0 <= b < n && a != b ==> #[trigger] lt(a, b) || lt(b, a)
}

/// `order` lists positions of `0..n`, `n` of them, each before the next
/// under `lt`.
pub open spec fn listing_by(lt: spec_fn(int, int) -> bool, n: int, order: Seq<usize>) -> bool {
    &&& order.len() == n
    &&& forall|k: int| 0 <= k < order.len() ==> (#[trigger] order[k] as int) < n
    &&& forall|a: int, b: int| 0 <= a < b < order.len() ==> lt(#[trigger] order[a] as int, #[trigger] order[b] as int)
}

proof fn lemma_listing_by_prefix(lt: spec_fn(int, int) -> bool, n: int, order: Seq<usize>, k: int)
    requires
        strict_total(lt, n),
        listing_by(lt, n, order),
        n <= usize::MAX,
        0 <= k < order.len(),
    ensures
        order.take(k).no_duplicates(),
        forall|y: usize| order.take(k).to_set().contains(y) <==> ((y as int) < n && lt(y as int, order[k] as int)),
{
    assert forall|a: int, b: int| 0 <= a < order.len() && 0 <= b < order.len() && a != b implies order[a] != order[b] by {
        if a < b {
            assert(lt(order[a] as int, order[b] as int));
        } else {
            assert(lt(order[b] as int, order[a] as int));
        }
    }
    assert(order.no_duplicates());
    assert forall|y: usize| (y as int) < n implies order.contains(y) by {
        if !order.contains(y) {
            let all = Set::new(|x: usize| (x as int) < n);
            crate::detect::lemma_usize_range_len(n);
            order.unique_seq_to_set();
            assert(order.to_set().subset_of(all.remove(y)));
            vstd::set_lib::lemma_len_subset(order.to_set(), all.remove(y));
        }
    }
    let t = order.take(k);
    assert(t.no_duplicates()) by {
        assert forall|a: int, b: int| 0 <= a < t.len() && 0 <= b < t.len() && a != b implies t[a] != t[b] by {
            assert(t[a] == order[a]);
            assert(t[b] == order[b]);
        }
    }
    assert forall|y: usize| t.to_set().contains(y) <==> ((y as int) < n && lt(y as int, order[k] as int)) by {
        if t.to_set().contains(y) {
            let j = choose|j: int| 0 <= j < t.len() && t[j] == y;
            assert(t[j] == order[j]);
            assert(lt(order[j] as int, order[k] as int));
        }
        if (y as int) < n && lt(y as int, order[k] as int) {
            assert(order.contains(y));
            let j = choose|j: int| 0 <= j < order.len() && order[j] == y;
            if j >= k {
                if j == k {
                    assert(!lt(y as int, y as int));
                } else {
                    assert(lt(order[k] as int, order[j] as int));
                    assert(!lt(y as int, y as int));
                }
            }
            assert(t[j] == y);
        }
    }
}

/// Under a strict total order there is one listing of `0..n`.
pub proof fn lemma_listing_by_unique(lt: spec_fn(int, int) -> bool, n: int, o1: Seq<usize>, o2: Seq<usize>)
    requires
        strict_total(lt, n),
        listing_by(lt, n, o1),
        listing_by(lt, n, o2),
        n <= usize::MAX,
    ensures
        o1 == o2,
{
    assert forall|k: int| 0 <= k < o1.len() implies o1[k] == o2[k] by {
        lemma_listing_by_prefix(lt, n, o1, k);
        lemma_listing_by_prefix(lt, n, o2, k);
        let x = o1[k];
        let z = o2[k];
        let s1 = o1.take(k).to_set();
        let s2 = o2.take(k).to_set();
        o1.take(k).unique_seq_to_set();
        o2.take(k).unique_seq_to_set();
        vstd::seq_lib::seq_to_set_is_finite(o1.take(k));
        vstd::seq_lib::seq_to_set_is_finite(o2.take(k));
        if x != z {
            if lt(x as int, z as int) {
                assert(s1.insert(x).subset_of(s2)) by {
                    assert forall|y: usize| s1.insert(x).contains(y) implies s2.contains(y) by {
                        if y != x {
                            assert(lt(y as int, x as int));
                        }
                    }
                }
                assert(!lt(x as int, x as int));
                assert(!s1.contains(x));
                vstd::set_lib::lemma_len_subset(s1.insert(x), s2);
            } else {
                assert(lt(z as int, x as int));
                assert(s2.insert(z).subset_of(s1)) by {
                    assert forall|y: usize| s2.insert(z).contains(y) implies s1.contains(y) by {
                        if y != z {
                            assert(lt(y as int, z as int));
                        }
                    }
                }
                assert(!lt(z as int, z as int));
                assert(!s2.contains(z));
                vstd::set_lib::lemma_len_subset(s2.insert(z), s1);
            }
        }
    }
    assert(o1 =~= o2);
}

} // verus!
