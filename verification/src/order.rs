//! Lexicographic order on keys, and a stable sort by such keys.

use vstd::prelude::*;

verus! {

/// A key to sort by: compared number by number, a key that ends earlier first.
pub type Key = Vec<u16>;

pub open spec fn lex_less(a: Seq<u16>, b: Seq<u16>) -> bool
    decreases a.len(),
{
    if b.len() == 0 {
        false
    } else if a.len() == 0 {
        true
    } else {
        a[0] < b[0] || (a[0] == b[0] && lex_less(a.drop_first(), b.drop_first()))
    }
}

pub proof fn lemma_lex_transitive(a: Seq<u16>, b: Seq<u16>, c: Seq<u16>)
    requires
        lex_less(a, b),
        lex_less(b, c),
    ensures
        lex_less(a, c),
    decreases a.len(),
{
    if a.len() > 0 && a[0] == b[0] && b[0] == c[0] {
        lemma_lex_transitive(a.drop_first(), b.drop_first(), c.drop_first());
    }
}

pub proof fn lemma_lex_irreflexive(a: Seq<u16>)
    ensures
        !lex_less(a, a),
    decreases a.len(),
{
    if a.len() > 0 {
        lemma_lex_irreflexive(a.drop_first());
    }
}

pub proof fn lemma_lex_total(a: Seq<u16>, b: Seq<u16>)
    ensures
        lex_less(a, b) || lex_less(b, a) || a == b,
    decreases a.len(),
{
    if a.len() == 0 && b.len() == 0 {
        assert(a =~= b);
    } else if a.len() > 0 && b.len() > 0 && a[0] == b[0] {
        lemma_lex_total(a.drop_first(), b.drop_first());
        if a.drop_first() == b.drop_first() {
            assert(a =~= seq![a[0]] + a.drop_first());
            assert(b =~= seq![b[0]] + b.drop_first());
        }
    }
}

pub proof fn lemma_lex_skip(a: Seq<u16>, b: Seq<u16>, k: int)
    requires
        0 <= k <= a.len(),
        k <= b.len(),
        a.take(k) == b.take(k),
    ensures
        lex_less(a, b) == lex_less(a.skip(k), b.skip(k)),
    decreases k,
{
    if k == 0 {
        assert(a.skip(0) =~= a);
        assert(b.skip(0) =~= b);
    } else {
        assert(a[0] == a.take(k)[0]);
        assert(b[0] == b.take(k)[0]);
        let x = a.drop_first();
        let y = b.drop_first();
        assert(x.take(k - 1) =~= a.take(k).drop_first());
        assert(y.take(k - 1) =~= b.take(k).drop_first());
        lemma_lex_skip(x, y, k - 1);
        assert(x.skip(k - 1) =~= a.skip(k));
        assert(y.skip(k - 1) =~= b.skip(k));
    }
}

/// Whether key `a` sorts before key `b`.
pub fn less(a: &Key, b: &Key) -> (r: bool)
    ensures
        r == lex_less(a@, b@),
{
    let mut i: usize = 0;
    while i < a.len() && i < b.len() && a[i] == b[i]
        invariant
            i <= a@.len(),
            i <= b@.len(),
            a@.take(i as int) =~= b@.take(i as int),
        decreases a@.len() - i,
    {
        i += 1;
        assert(a@.take(i as int) =~= a@.take(i - 1).push(a@[i - 1]));
        assert(b@.take(i as int) =~= b@.take(i - 1).push(b@[i - 1]));
    }
    proof {
        lemma_lex_skip(a@, b@, i as int);
    }
    if i < b.len() {
        i == a.len() || a[i] < b[i]
    } else {
        false
    }
}

// ---------------------------------------------------------------------------
// Sorting
// ---------------------------------------------------------------------------

pub open spec fn keys_view(keys: Seq<Key>) -> Seq<Seq<u16>> {
    Seq::new(keys.len(), |i: int| keys[i]@)
}

/// Item `x` sorts before item `y`: by key, and by position between equal keys.
pub open spec fn precedes(keys: Seq<Seq<u16>>, x: usize, y: usize) -> bool {
    lex_less(keys[x as int], keys[y as int]) || (keys[x as int] == keys[y as int] && x < y)
}

/// `order` lists the items `lo..hi`, each once, in the order of their keys.
pub open spec fn sorts_range(keys: Seq<Seq<u16>>, order: Seq<usize>, lo: int, hi: int) -> bool {
    &&& order.len() == hi - lo
    &&& forall|i: int| 0 <= i < order.len() ==> lo <= (#[trigger] order[i]) < hi
    &&& forall|i: int, j: int|
        0 <= i < j < order.len() ==> precedes(keys, #[trigger] order[i], #[trigger] order[j])
    &&& forall|x: usize| lo <= x < hi ==> #[trigger] order.contains(x)
}

pub open spec fn is_sort_order(keys: Seq<Seq<u16>>, order: Seq<usize>) -> bool {
    sorts_range(keys, order, 0, keys.len() as int)
}

/// The positions of `keys`, in the order in which a stable sort puts them.
pub open spec fn sort_order(keys: Seq<Seq<u16>>) -> Seq<usize> {
    choose|order: Seq<usize>| is_sort_order(keys, order)
}

proof fn lemma_precedes_transitive(keys: Seq<Seq<u16>>, x: usize, y: usize, z: usize)
    requires
        precedes(keys, x, y),
        precedes(keys, y, z),
    ensures
        precedes(keys, x, z),
{
    let (a, b, c) = (keys[x as int], keys[y as int], keys[z as int]);
    if lex_less(a, b) && lex_less(b, c) {
        lemma_lex_transitive(a, b, c);
    }
}

proof fn lemma_precedes_asymmetric(keys: Seq<Seq<u16>>, x: usize, y: usize)
    requires
        precedes(keys, x, y),
    ensures
        !precedes(keys, y, x),
{
    let (a, b) = (keys[x as int], keys[y as int]);
    lemma_lex_irreflexive(a);
    if lex_less(a, b) && lex_less(b, a) {
        lemma_lex_transitive(a, b, a);
    }
}

/// There is only one sorted order.
pub proof fn lemma_sort_order_unique(keys: Seq<Seq<u16>>, a: Seq<usize>, b: Seq<usize>)
    requires
        is_sort_order(keys, a),
        is_sort_order(keys, b),
    ensures
        a == b,
{
    assert forall|k: int| 0 <= k < a.len() implies a[k] == b[k] by {
        lemma_sort_order_agrees(keys, a, b, k);
    }
    assert(a =~= b);
}

proof fn lemma_sort_order_agrees(keys: Seq<Seq<u16>>, a: Seq<usize>, b: Seq<usize>, k: int)
    requires
        is_sort_order(keys, a),
        is_sort_order(keys, b),
        0 <= k < a.len(),
    ensures
        a[k] == b[k],
    decreases k,
{
    assert forall|i: int| 0 <= i < k implies a[i] == b[i] by {
        lemma_sort_order_agrees(keys, a, b, i);
    }
    if a[k] != b[k] {
        assert(b.contains(a[k]));
        let m = choose|m: int| 0 <= m < b.len() && b[m] == a[k];
        assert(a.contains(b[k]));
        let l = choose|l: int| 0 <= l < a.len() && a[l] == b[k];
        if m < k {
            assert(a[m] == a[k]);
            assert(precedes(keys, a[m], a[k]));
            lemma_precedes_asymmetric(keys, a[m], a[k]);
        }
        if l < k {
            assert(b[l] == b[k]);
            assert(precedes(keys, b[l], b[k]));
            lemma_precedes_asymmetric(keys, b[l], b[k]);
        }
        assert(precedes(keys, b[k], b[m]));
        assert(precedes(keys, a[k], a[l]));
        lemma_precedes_asymmetric(keys, a[k], a[l]);
    }
}

fn merge(keys: &Vec<Key>, left: &Vec<usize>, right: &Vec<usize>, lo: usize, mid: usize, hi: usize)
    -> (out: Vec<usize>)
    requires
        lo <= mid <= hi <= keys@.len(),
        sorts_range(keys_view(keys@), left@, lo as int, mid as int),
        sorts_range(keys_view(keys@), right@, mid as int, hi as int),
    ensures
        sorts_range(keys_view(keys@), out@, lo as int, hi as int),
{
    let ghost kv = keys_view(keys@);
    let mut out: Vec<usize> = Vec::new();
    let mut i: usize = 0;
    let mut j: usize = 0;
    while i < left.len() || j < right.len()
        invariant
            kv == keys_view(keys@),
            lo <= mid <= hi <= keys@.len(),
            sorts_range(kv, left@, lo as int, mid as int),
            sorts_range(kv, right@, mid as int, hi as int),
            i <= left@.len(),
            j <= right@.len(),
            out@.len() == i + j,
            forall|k: int| 0 <= k < out@.len() ==> lo <= (#[trigger] out@[k]) < hi,
            forall|k: int, l: int|
                0 <= k < l < out@.len() ==> precedes(kv, #[trigger] out@[k], #[trigger] out@[l]),
            forall|k: int, l: int|
                0 <= k < out@.len() && i <= l < left@.len() ==> precedes(
                    kv,
                    #[trigger] out@[k],
                    #[trigger] left@[l],
                ),
            forall|k: int, l: int|
                0 <= k < out@.len() && j <= l < right@.len() ==> precedes(
                    kv,
                    #[trigger] out@[k],
                    #[trigger] right@[l],
                ),
            forall|k: int| 0 <= k < i ==> out@.contains(#[trigger] left@[k]),
            forall|k: int| 0 <= k < j ==> out@.contains(#[trigger] right@[k]),
        decreases left@.len() + right@.len() - i - j,
    {
        let ghost before = out@;
        let take_left = if i == left.len() {
            false
        } else if j == right.len() {
            true
        } else {
            assert(kv[right@[j as int] as int] == keys@[right@[j as int] as int]@);
            assert(kv[left@[i as int] as int] == keys@[left@[i as int] as int]@);
            let right_first = less(&keys[right[j]], &keys[left[i]]);
            proof {
                lemma_lex_total(kv[right@[j as int] as int], kv[left@[i as int] as int]);
            }
            assert(right_first ==> precedes(kv, right@[j as int], left@[i as int]));
            assert(!right_first ==> precedes(kv, left@[i as int], right@[j as int]));
            !right_first
        };
        if take_left {
            let x = left[i];
            assert forall|l: int| j <= l < right@.len() implies precedes(
                kv,
                x,
                #[trigger] right@[l],
            ) by {
                if l > j {
                    assert(precedes(kv, right@[j as int], right@[l]));
                    lemma_precedes_transitive(kv, x, right@[j as int], right@[l]);
                }
            }
            out.push(x);
            i += 1;
        } else {
            let x = right[j];
            assert forall|l: int| i <= l < left@.len() implies precedes(
                kv,
                x,
                #[trigger] left@[l],
            ) by {
                if l > i {
                    assert(precedes(kv, left@[i as int], left@[l]));
                    lemma_precedes_transitive(kv, x, left@[i as int], left@[l]);
                }
            }
            out.push(x);
            j += 1;
        }
        assert forall|y: usize| before.contains(y) implies out@.contains(y) by {
            let k = choose|k: int| 0 <= k < before.len() && before[k] == y;
            assert(out@[k] == y);
        }
        assert(out@[out@.len() - 1] == out@.last());
        assert(out@.contains(out@.last()));
    }
    assert forall|x: usize| lo <= x < hi implies #[trigger] out@.contains(x) by {
        if x < mid {
            assert(left@.contains(x));
        } else {
            assert(right@.contains(x));
        }
    }
    out
}

fn sort_range(keys: &Vec<Key>, lo: usize, hi: usize) -> (out: Vec<usize>)
    requires
        lo <= hi <= keys@.len(),
    ensures
        sorts_range(keys_view(keys@), out@, lo as int, hi as int),
    decreases hi - lo,
{
    if hi - lo == 0 {
        Vec::new()
    } else if hi - lo == 1 {
        let mut out: Vec<usize> = Vec::new();
        out.push(lo);
        assert(out@[0] == lo);
        out
    } else {
        let mid: usize = lo + (hi - lo) / 2;
        let left = sort_range(keys, lo, mid);
        let right = sort_range(keys, mid, hi);
        merge(keys, &left, &right, lo, mid, hi)
    }
}

/// The positions of `keys` in sorted order; equal keys keep their order.
pub fn sorted_positions(keys: &Vec<Key>) -> (out: Vec<usize>)
    ensures
        out@ == sort_order(keys_view(keys@)),
        is_sort_order(keys_view(keys@), out@),
{
    let out = sort_range(keys, 0, keys.len());
    proof {
        lemma_sort_order_unique(keys_view(keys@), out@, sort_order(keys_view(keys@)));
    }
    out
}

proof fn lemma_precedes_total(keys: Seq<Seq<u16>>, x: usize, y: usize)
    requires
        x != y,
    ensures
        precedes(keys, x, y) || precedes(keys, y, x),
{
    lemma_lex_total(keys[x as int], keys[y as int]);
}

/// How many items at the front of `order` sort before `x`.
spec fn place(keys: Seq<Seq<u16>>, order: Seq<usize>, x: usize) -> int
    decreases order.len(),
{
    if order.len() == 0 {
        0
    } else if precedes(keys, order.last(), x) {
        order.len() as int
    } else {
        place(keys, order.drop_last(), x)
    }
}

proof fn lemma_place(keys: Seq<Seq<u16>>, order: Seq<usize>, x: usize)
    requires
        forall|i: int, j: int|
            0 <= i < j < order.len() ==> precedes(keys, #[trigger] order[i], #[trigger] order[j]),
        forall|i: int| 0 <= i < order.len() ==> #[trigger] order[i] != x,
    ensures
        0 <= place(keys, order, x) <= order.len(),
        forall|i: int|
            0 <= i < place(keys, order, x) ==> precedes(keys, #[trigger] order[i], x),
        forall|i: int|
            place(keys, order, x) <= i < order.len() ==> precedes(keys, x, #[trigger] order[i]),
    decreases order.len(),
{
    if order.len() > 0 {
        let n = order.len() - 1;
        if precedes(keys, order.last(), x) {
            assert forall|i: int| 0 <= i < order.len() implies precedes(
                keys,
                #[trigger] order[i],
                x,
            ) by {
                if i < n {
                    assert(precedes(keys, order[i], order[n]));
                    lemma_precedes_transitive(keys, order[i], order[n], x);
                }
            }
        } else {
            let front = order.drop_last();
            assert forall|i: int, j: int| 0 <= i < j < front.len() implies precedes(
                keys,
                #[trigger] front[i],
                #[trigger] front[j],
            ) by {
                assert(front[i] == order[i] && front[j] == order[j]);
            }
            assert forall|i: int| 0 <= i < front.len() implies #[trigger] front[i] != x by {
                assert(front[i] == order[i]);
            }
            lemma_place(keys, front, x);
            lemma_precedes_total(keys, order[n], x);
            let at = place(keys, order, x);
            assert forall|i: int| 0 <= i < at implies precedes(keys, #[trigger] order[i], x) by {
                assert(front[i] == order[i]);
            }
            assert forall|i: int| at <= i < order.len() implies precedes(
                keys,
                x,
                #[trigger] order[i],
            ) by {
                if i < n {
                    assert(front[i] == order[i]);
                }
            }
        }
    }
}

/// Any list of keys can be sorted.
pub proof fn lemma_sort_order(keys: Seq<Seq<u16>>)
    requires
        keys.len() <= usize::MAX,
    ensures
        is_sort_order(keys, sort_order(keys)),
{
    let order = lemma_sortable(keys, keys.len() as int);
    assert(is_sort_order(keys, order));
}

proof fn lemma_sortable(keys: Seq<Seq<u16>>, n: int) -> (order: Seq<usize>)
    requires
        0 <= n <= keys.len() <= usize::MAX,
    ensures
        sorts_range(keys, order, 0, n),
    decreases n,
{
    if n == 0 {
        Seq::empty()
    } else {
        let before = lemma_sortable(keys, n - 1);
        let x = (n - 1) as usize;
        lemma_place(keys, before, x);
        let at = place(keys, before, x);
        let order = before.insert(at, x);
        assert forall|i: int| 0 <= i < order.len() implies 0 <= (#[trigger] order[i]) < n by {
            if i < at {
                assert(order[i] == before[i]);
            } else if i > at {
                assert(order[i] == before[i - 1]);
            }
        }
        assert forall|i: int, j: int| 0 <= i < j < order.len() implies precedes(
            keys,
            #[trigger] order[i],
            #[trigger] order[j],
        ) by {
            let a = if i < at {
                i
            } else {
                i - 1
            };
            let b = if j < at {
                j
            } else {
                j - 1
            };
            if i != at {
                assert(order[i] == before[a]);
            }
            if j != at {
                assert(order[j] == before[b]);
            }
        }
        assert forall|y: usize| 0 <= y < n implies #[trigger] order.contains(y) by {
            if y == x {
                assert(order[at] == x);
            } else {
                assert(before.contains(y));
                let k = choose|k: int| 0 <= k < before.len() && before[k] == y;
                if k < at {
                    assert(order[k] == y);
                } else {
                    assert(order[k + 1] == y);
                }
            }
        }
        order
    }
}

} // verus!
