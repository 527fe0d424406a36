//! Putting things in order: a stable merge sort on positions.

use vstd::prelude::*;
use vstd::set_lib::*;

use crate::text;
use crate::text::{same_text, text_not_after};

verus! {

/// A key to sort by.
pub trait SortKey: View + Sized {
    /// Key `a` comes no later than key `b`.
    spec fn key_le(a: Self::V, b: Self::V) -> bool;

    /// Of any two keys one comes no later than the other.
    proof fn key_total(a: Self::V, b: Self::V)
        ensures
            Self::key_le(a, b) || Self::key_le(b, a),
    ;

    /// The order of keys is transitive.
    proof fn key_trans(a: Self::V, b: Self::V, c: Self::V)
        requires
            Self::key_le(a, b),
            Self::key_le(b, c),
        ensures
            Self::key_le(a, c),
    ;

    /// Keys that come no later than each other are the same key.
    proof fn key_antisym(a: Self::V, b: Self::V)
        requires
            Self::key_le(a, b),
            Self::key_le(b, a),
        ensures
            a == b,
    ;

    /// Whether this key comes no later than `other`.
    fn not_after(&self, other: &Self) -> (r: bool)
        ensures
            r == Self::key_le(self@, other@),
    ;
}

/// The keys of a list, as mathematical values.
pub open spec fn key_views<K: SortKey>(keys: Seq<K>) -> Seq<K::V> {
    keys.map_values(|k: K| k@)
}

/// In a stable order of `keys`, position `a` comes before position `b`: its key
/// comes first, or the keys are on a par and the position comes first.
pub open spec fn comes_before<K: SortKey>(keys: Seq<K::V>, a: int, b: int) -> bool {
    K::key_le(keys[a], keys[b]) && (K::key_le(keys[b], keys[a]) ==> a < b)
}

/// `order` lists positions from `lo` up to `hi`, as many as there are, each
/// before the next.
pub open spec fn is_order_of<K: SortKey>(
    keys: Seq<K::V>,
    lo: int,
    hi: int,
    order: Seq<usize>,
) -> bool {
    &&& order.len() == hi - lo
    &&& forall|i: int| 0 <= i < order.len() ==> lo <= #[trigger] order[i] < hi
    &&& forall|i: int, j: int|
        0 <= i < j < order.len() ==> comes_before::<K>(
            keys,
            #[trigger] order[i] as int,
            #[trigger] order[j] as int,
        )
}

/// The stable order of `keys`: all positions, sorted by key, positions whose keys
/// are on a par in their own order. There is only one (`lemma_order_unique`).
pub open spec fn stable_order<K: SortKey>(keys: Seq<K::V>) -> Seq<usize> {
    choose|order: Seq<usize>| is_order_of::<K>(keys, 0, keys.len() as int, order)
}

proof fn lemma_comes_before_trans<K: SortKey>(keys: Seq<K::V>, a: int, b: int, c: int)
    requires
        comes_before::<K>(keys, a, b),
        comes_before::<K>(keys, b, c),
    ensures
        comes_before::<K>(keys, a, c),
{
    K::key_trans(keys[a], keys[b], keys[c]);
    if K::key_le(keys[c], keys[a]) {
        K::key_trans(keys[c], keys[a], keys[b]);
        K::key_trans(keys[b], keys[c], keys[a]);
    }
}

/// An order lists every position.
pub proof fn lemma_order_complete<K: SortKey>(
    keys: Seq<K::V>,
    lo: int,
    hi: int,
    order: Seq<usize>,
    x: int,
)
    requires
        0 <= lo <= x < hi,
        hi <= usize::MAX,
        is_order_of::<K>(keys, lo, hi, order),
    ensures
        order.contains(x as usize),
{
    let ints = order.map_values(|p: usize| p as int);
    assert(ints.no_duplicates()) by {
        assert forall|i: int, j: int|
            0 <= i < ints.len() && 0 <= j < ints.len() && i != j implies ints[i] != ints[j] by {
            if i < j {
                assert(comes_before::<K>(keys, order[i] as int, order[j] as int));
            } else {
                assert(comes_before::<K>(keys, order[j] as int, order[i] as int));
            }
        }
    }
    ints.unique_seq_to_set();
    let range = set_int_range(lo, hi);
    lemma_int_range(lo, hi);
    assert(ints.to_set().subset_of(range)) by {
        assert forall|p: int| ints.to_set().contains(p) implies range.contains(p) by {
            let i = choose|i: int| 0 <= i < ints.len() && ints[i] == p;
            assert(lo <= order[i] < hi);
        }
    }
    lemma_subset_equality(ints.to_set(), range);
    assert(range.contains(x));
    let i = choose|i: int| 0 <= i < ints.len() && ints[i] == x;
    assert(order[i] == x as usize);
}

/// There is only one order.
pub proof fn lemma_order_unique<K: SortKey>(
    keys: Seq<K::V>,
    lo: int,
    hi: int,
    a: Seq<usize>,
    b: Seq<usize>,
)
    requires
        0 <= lo <= hi <= usize::MAX,
        is_order_of::<K>(keys, lo, hi, a),
        is_order_of::<K>(keys, lo, hi, b),
    ensures
        a == b,
{
    assert forall|i: int| 0 <= i < a.len() implies a[i] == b[i] by {
        lemma_order_unique_at::<K>(keys, lo, hi, a, b, i);
    }
    assert(a =~= b);
}

proof fn lemma_order_unique_at<K: SortKey>(
    keys: Seq<K::V>,
    lo: int,
    hi: int,
    a: Seq<usize>,
    b: Seq<usize>,
    i: int,
)
    requires
        0 <= lo <= hi <= usize::MAX,
        is_order_of::<K>(keys, lo, hi, a),
        is_order_of::<K>(keys, lo, hi, b),
        0 <= i < a.len(),
    ensures
        forall|k: int| 0 <= k <= i ==> a[k] == b[k],
    decreases i,
{
    if i > 0 {
        lemma_order_unique_at::<K>(keys, lo, hi, a, b, i - 1);
    }
    if a[i] != b[i] {
        lemma_order_complete::<K>(keys, lo, hi, a, b[i] as int);
        lemma_order_complete::<K>(keys, lo, hi, b, a[i] as int);
        let p = choose|p: int| 0 <= p < a.len() && a[p] == b[i];
        let q = choose|q: int| 0 <= q < b.len() && b[q] == a[i];
        if p < i {
            assert(b[p] == b[i]);
            assert(comes_before::<K>(keys, b[p] as int, b[i] as int));
        }
        if q < i {
            assert(a[q] == a[i]);
            assert(comes_before::<K>(keys, a[q] as int, a[i] as int));
        }
        assert(comes_before::<K>(keys, a[i] as int, a[p] as int));
        assert(comes_before::<K>(keys, b[i] as int, b[q] as int));
    }
}

/// The first place in `order` whose key does not come before the key at `x`.
proof fn lemma_insertion_point<K: SortKey>(
    keys: Seq<K::V>,
    order: Seq<usize>,
    x: int,
    from: int,
) -> (p: int)
    requires
        0 <= from <= order.len(),
        forall|i: int| 0 <= i < from ==> K::key_le(keys[#[trigger] order[i] as int], keys[x]),
    ensures
        0 <= p <= order.len(),
        forall|i: int| 0 <= i < p ==> K::key_le(keys[#[trigger] order[i] as int], keys[x]),
        p < order.len() ==> !K::key_le(keys[order[p] as int], keys[x]),
    decreases order.len() - from,
{
    if from == order.len() || !K::key_le(keys[order[from] as int], keys[x]) {
        from
    } else {
        lemma_insertion_point::<K>(keys, order, x, from + 1)
    }
}

proof fn lemma_order_exists<K: SortKey>(keys: Seq<K::V>, n: int) -> (order: Seq<usize>)
    requires
        0 <= n <= usize::MAX,
    ensures
        is_order_of::<K>(keys, 0, n, order),
    decreases n,
{
    if n == 0 {
        Seq::<usize>::empty()
    } else {
        let rest = lemma_order_exists::<K>(keys, n - 1);
        let x = n - 1;
        let p = lemma_insertion_point::<K>(keys, rest, x, 0);
        let order = rest.insert(p, x as usize);
        assert forall|i: int| p <= i < rest.len() implies comes_before::<K>(
            keys,
            x,
            #[trigger] rest[i] as int,
        ) by {
            K::key_total(keys[x], keys[rest[p] as int]);
            if i > p {
                assert(comes_before::<K>(keys, rest[p] as int, rest[i] as int));
                K::key_trans(keys[x], keys[rest[p] as int], keys[rest[i] as int]);
                if K::key_le(keys[rest[i] as int], keys[x]) {
                    K::key_trans(keys[rest[p] as int], keys[rest[i] as int], keys[x]);
                }
            }
        }
        assert forall|i: int, j: int| 0 <= i < j < order.len() implies comes_before::<K>(
            keys,
            #[trigger] order[i] as int,
            #[trigger] order[j] as int,
        ) by {
            let a = if i < p {
                i
            } else {
                i - 1
            };
            let b = if j < p {
                j
            } else {
                j - 1
            };
            if i != p && j != p {
                assert(order[i] == rest[a] && order[j] == rest[b]);
            } else if i == p {
                assert(order[j] == rest[b]);
            } else {
                assert(order[i] == rest[a]);
            }
        }
        order
    }
}

/// The stable order of `keys` is an order of all positions.
pub proof fn lemma_stable_order<K: SortKey>(keys: Seq<K::V>)
    requires
        keys.len() <= usize::MAX,
    ensures
        is_order_of::<K>(keys, 0, keys.len() as int, stable_order::<K>(keys)),
{
    let order = lemma_order_exists::<K>(keys, keys.len() as int);
    assert(is_order_of::<K>(keys, 0, keys.len() as int, order));
}

fn merge<K: SortKey>(
    keys: &Vec<K>,
    a: &Vec<usize>,
    b: &Vec<usize>,
    Ghost(lo): Ghost<int>,
    Ghost(mid): Ghost<int>,
    Ghost(hi): Ghost<int>,
) -> (out: Vec<usize>)
    requires
        0 <= lo <= mid <= hi <= keys@.len(),
        is_order_of::<K>(key_views(keys@), lo, mid, a@),
        is_order_of::<K>(key_views(keys@), mid, hi, b@),
    ensures
        is_order_of::<K>(key_views(keys@), lo, hi, out@),
{
    let mut out: Vec<usize> = Vec::new();
    let mut i: usize = 0;
    let mut j: usize = 0;
    while i < a.len() || j < b.len()
        invariant
            0 <= lo <= mid <= hi <= keys@.len(),
            is_order_of::<K>(key_views(keys@), lo, mid, a@),
            is_order_of::<K>(key_views(keys@), mid, hi, b@),
            i <= a@.len(),
            j <= b@.len(),
            out@.len() == i + j,
            forall|k: int| 0 <= k < out@.len() ==> lo <= #[trigger] out@[k] < hi,
            forall|k: int, l: int|
                0 <= k < l < out@.len() ==> comes_before::<K>(
                    key_views(keys@),
                    #[trigger] out@[k] as int,
                    #[trigger] out@[l] as int,
                ),
            forall|k: int, l: int|
                0 <= k < out@.len() && i <= l < a@.len() ==> comes_before::<K>(
                    key_views(keys@),
                    #[trigger] out@[k] as int,
                    #[trigger] a@[l] as int,
                ),
            forall|k: int, l: int|
                0 <= k < out@.len() && j <= l < b@.len() ==> comes_before::<K>(
                    key_views(keys@),
                    #[trigger] out@[k] as int,
                    #[trigger] b@[l] as int,
                ),
        decreases a@.len() - i + b@.len() - j,
    {
        let from_a: bool = if i == a.len() {
            false
        } else if j == b.len() {
            true
        } else {
            keys[a[i]].not_after(&keys[b[j]])
        };
        let ghost before = out@;
        if from_a {
            let x: usize = a[i];
            proof {
                assert forall|l: int| j <= l < b@.len() implies comes_before::<K>(
                    key_views(keys@),
                    x as int,
                    #[trigger] b@[l] as int,
                ) by {
                    assert(comes_before::<K>(key_views(keys@), x as int, b@[j as int] as int));
                    if l > j {
                        lemma_comes_before_trans::<K>(
                            key_views(keys@),
                            x as int,
                            b@[j as int] as int,
                            b@[l] as int,
                        );
                    }
                }
            }
            out.push(x);
            i = i + 1;
        } else {
            let x: usize = b[j];
            proof {
                assert forall|l: int| i <= l < a@.len() implies comes_before::<K>(
                    key_views(keys@),
                    x as int,
                    #[trigger] a@[l] as int,
                ) by {
                    K::key_total(key_views(keys@)[x as int], key_views(keys@)[a@[i as int] as int]);
                    assert(comes_before::<K>(key_views(keys@), x as int, a@[i as int] as int));
                    if l > i {
                        lemma_comes_before_trans::<K>(
                            key_views(keys@),
                            x as int,
                            a@[i as int] as int,
                            a@[l] as int,
                        );
                    }
                }
            }
            out.push(x);
            j = j + 1;
        }
        assert(forall|k: int| 0 <= k < before.len() ==> out@[k] == before[k]);
    }
    out
}

fn sort_range<K: SortKey>(keys: &Vec<K>, lo: usize, hi: usize) -> (order: Vec<usize>)
    requires
        lo <= hi <= keys@.len(),
    ensures
        is_order_of::<K>(key_views(keys@), lo as int, hi as int, order@),
    decreases hi - lo,
{
    if hi - lo <= 1 {
        let mut order: Vec<usize> = Vec::new();
        if lo < hi {
            order.push(lo);
        }
        order
    } else {
        let mid: usize = lo + (hi - lo) / 2;
        let a = sort_range(keys, lo, mid);
        let b = sort_range(keys, mid, hi);
        merge(keys, &a, &b, Ghost(lo as int), Ghost(mid as int), Ghost(hi as int))
    }
}

/// The stable order of `keys`.
pub fn sort_order<K: SortKey>(keys: &Vec<K>) -> (order: Vec<usize>)
    ensures
        order@ == stable_order::<K>(key_views(keys@)),
        is_order_of::<K>(key_views(keys@), 0, keys@.len() as int, order@),
{
    let order = sort_range(keys, 0, keys.len());
    proof {
        lemma_order_unique::<K>(
            key_views(keys@),
            0,
            keys@.len() as int,
            order@,
            stable_order::<K>(key_views(keys@)),
        );
    }
    order
}

/// No earlier position has the key of position `p`.
pub open spec fn is_first<K: SortKey>(keys: Seq<K::V>, p: int) -> bool {
    forall|q: int| 0 <= q < p ==> #[trigger] keys[q] != keys[p]
}

/// One of the positions in `picked` has the key `key`.
pub open spec fn is_listed<K: SortKey>(keys: Seq<K::V>, picked: Seq<usize>, key: K::V) -> bool {
    exists|i: int| 0 <= i < picked.len() && keys[#[trigger] picked[i] as int] == key
}

/// `picked` lists positions of `keys`, in strictly ascending order of their keys.
pub open spec fn is_ascending<K: SortKey>(keys: Seq<K::V>, picked: Seq<usize>) -> bool {
    &&& forall|i: int| 0 <= i < picked.len() ==> 0 <= #[trigger] picked[i] < keys.len()
    &&& forall|i: int, j: int|
        0 <= i < j < picked.len() ==> K::key_le(
            keys[#[trigger] picked[i] as int],
            keys[#[trigger] picked[j] as int],
        ) && keys[picked[i] as int] != keys[picked[j] as int]
}

/// `picked` lists, in ascending order of their keys, the first position of every
/// key that occurs.
pub open spec fn is_distinct_order<K: SortKey>(keys: Seq<K::V>, picked: Seq<usize>) -> bool {
    &&& is_ascending::<K>(keys, picked)
    &&& forall|i: int| 0 <= i < picked.len() ==> #[trigger] is_first::<K>(keys, picked[i] as int)
    &&& forall|p: int| 0 <= p < keys.len() ==> #[trigger] is_listed::<K>(keys, picked, keys[p])
}

/// Every key that occurs is listed.
pub proof fn lemma_listed<K: SortKey>(keys: Seq<K::V>, picked: Seq<usize>, p: int)
    requires
        is_distinct_order::<K>(keys, picked),
        0 <= p < keys.len(),
    ensures
        is_listed::<K>(keys, picked, keys[p]),
{
}

/// The first position of every key that occurs, in ascending order of the keys.
/// There is only one such list (`lemma_distinct_unique`).
pub open spec fn first_positions<K: SortKey>(keys: Seq<K::V>) -> Seq<usize> {
    choose|picked: Seq<usize>| is_distinct_order::<K>(keys, picked)
}

/// There are as many first positions as there are different keys.
pub proof fn lemma_distinct_count<K: SortKey>(keys: Seq<K::V>, picked: Seq<usize>)
    requires
        is_distinct_order::<K>(keys, picked),
    ensures
        keys.to_set().finite(),
        keys.to_set().len() == picked.len(),
{
    let values = picked.map_values(|p: usize| keys[p as int]);
    assert(values.no_duplicates()) by {
        assert forall|i: int, j: int|
            0 <= i < values.len() && 0 <= j < values.len() && i != j implies values[i]
            != values[j] by {
            assert(values[i] == keys[picked[i] as int] && values[j] == keys[picked[j] as int]);
        }
    }
    values.unique_seq_to_set();
    assert forall|v: K::V| values.to_set().contains(v) <==> keys.to_set().contains(v) by {
        if values.to_set().contains(v) {
            let i = choose|i: int| 0 <= i < values.len() && values[i] == v;
            assert(keys[picked[i] as int] == v);
        }
        if keys.to_set().contains(v) {
            let p = choose|p: int| 0 <= p < keys.len() && keys[p] == v;
            assert(is_listed::<K>(keys, picked, keys[p]));
            let i = choose|i: int|
                0 <= i < picked.len() && keys[#[trigger] picked[i] as int] == v;
            assert(values[i] == v);
        }
    }
    assert(values.to_set() =~= keys.to_set());
}

/// The first positions of all keys can be listed in only one way.
pub proof fn lemma_distinct_unique<K: SortKey>(keys: Seq<K::V>, a: Seq<usize>, b: Seq<usize>)
    requires
        is_distinct_order::<K>(keys, a),
        is_distinct_order::<K>(keys, b),
    ensures
        a == b,
{
    lemma_distinct_count::<K>(keys, a);
    lemma_distinct_count::<K>(keys, b);
    assert forall|i: int| 0 <= i < a.len() implies a[i] == b[i] by {
        lemma_distinct_unique_at::<K>(keys, a, b, i);
    }
    assert(a =~= b);
}

proof fn lemma_distinct_unique_at<K: SortKey>(
    keys: Seq<K::V>,
    a: Seq<usize>,
    b: Seq<usize>,
    i: int,
)
    requires
        is_distinct_order::<K>(keys, a),
        is_distinct_order::<K>(keys, b),
        a.len() == b.len(),
        0 <= i < a.len(),
    ensures
        forall|k: int| 0 <= k <= i ==> a[k] == b[k],
    decreases i,
{
    if i > 0 {
        lemma_distinct_unique_at::<K>(keys, a, b, i - 1);
    }
    let x = a[i] as int;
    let y = b[i] as int;
    assert(is_listed::<K>(keys, b, keys[x]));
    assert(is_listed::<K>(keys, a, keys[y]));
    let q = choose|q: int| 0 <= q < b.len() && keys[#[trigger] b[q] as int] == keys[x];
    let p = choose|p: int| 0 <= p < a.len() && keys[#[trigger] a[p] as int] == keys[y];
    if q < i {
        assert(a[q] == b[q]);
        assert(keys[a[q] as int] != keys[a[i] as int]);
    }
    if p < i {
        assert(a[p] == b[p]);
        assert(keys[b[p] as int] != keys[b[i] as int]);
    }
    if keys[x] != keys[y] {
        assert(K::key_le(keys[a[i] as int], keys[a[p] as int]));
        assert(K::key_le(keys[b[i] as int], keys[b[q] as int]));
        K::key_antisym(keys[x], keys[y]);
    }
    assert(is_first::<K>(keys, a[i] as int));
    assert(is_first::<K>(keys, b[i] as int));
}

/// `picked` is the first position of every key among the first `k` positions of
/// `order`.
spec fn distinct_so_far<K: SortKey>(
    keys: Seq<K::V>,
    order: Seq<usize>,
    k: int,
    picked: Seq<usize>,
) -> bool {
    &&& is_ascending::<K>(keys, picked)
    &&& forall|i: int| 0 <= i < picked.len() ==> #[trigger] is_first::<K>(keys, picked[i] as int)
    &&& forall|q: int|
        0 <= q < k ==> #[trigger] is_listed::<K>(keys, picked, keys[order[q] as int])
    &&& k == 0 ==> picked.len() == 0
    &&& k > 0 ==> picked.len() > 0 && keys[picked.last() as int] == keys[order[k - 1] as int]
}

proof fn lemma_distinct_push<K: SortKey>(
    keys: Seq<K::V>,
    order: Seq<usize>,
    k: int,
    picked: Seq<usize>,
)
    requires
        keys.len() <= usize::MAX,
        is_order_of::<K>(keys, 0, keys.len() as int, order),
        0 <= k < order.len(),
        distinct_so_far::<K>(keys, order, k, picked),
        k > 0 ==> !K::key_le(keys[order[k] as int], keys[order[k - 1] as int]),
    ensures
        distinct_so_far::<K>(keys, order, k + 1, picked.push(order[k])),
{
    let x = order[k] as int;
    let after = picked.push(order[k]);
    if k > 0 {
        assert(comes_before::<K>(keys, order[k - 1] as int, x));
    }
    assert forall|i: int| 0 <= i < picked.len() implies K::key_le(
        keys[#[trigger] picked[i] as int],
        keys[x],
    ) && keys[picked[i] as int] != keys[x] by {
        let l = picked.len() - 1;
        assert(keys[picked[l] as int] == keys[order[k - 1] as int]);
        if i < l {
            assert(K::key_le(keys[picked[i] as int], keys[picked[l] as int]));
            K::key_trans(keys[picked[i] as int], keys[picked[l] as int], keys[x]);
        }
    }
    assert(is_ascending::<K>(keys, after)) by {
        assert forall|i: int, j: int| 0 <= i < j < after.len() implies K::key_le(
            keys[#[trigger] after[i] as int],
            keys[#[trigger] after[j] as int],
        ) && keys[after[i] as int] != keys[after[j] as int] by {
            assert(after[i] == picked[i]);
            if j < picked.len() {
                assert(after[j] == picked[j]);
            }
        }
    }
    assert(is_first::<K>(keys, x)) by {
        assert forall|p: int| 0 <= p < x implies #[trigger] keys[p] != keys[x] by {
            if keys[p] == keys[x] {
                lemma_order_complete::<K>(keys, 0, keys.len() as int, order, p);
                let q = choose|q: int| 0 <= q < order.len() && order[q] == p as usize;
                K::key_total(keys[x], keys[x]);
                if q > k {
                    assert(comes_before::<K>(keys, order[k] as int, order[q] as int));
                } else if q < k - 1 {
                    assert(comes_before::<K>(keys, order[q] as int, order[k - 1] as int));
                }
            }
        }
    }
    assert forall|i: int| 0 <= i < after.len() implies #[trigger] is_first::<K>(
        keys,
        after[i] as int,
    ) by {
        if i < picked.len() {
            assert(after[i] == picked[i]);
            assert(is_first::<K>(keys, picked[i] as int));
        }
    }
    assert forall|q: int| 0 <= q < k + 1 implies #[trigger] is_listed::<K>(
        keys,
        after,
        keys[order[q] as int],
    ) by {
        if q < k {
            assert(is_listed::<K>(keys, picked, keys[order[q] as int]));
            let i = choose|i: int|
                0 <= i < picked.len() && keys[#[trigger] picked[i] as int] == keys[order[q] as int];
            assert(after[i] == picked[i]);
        } else {
            assert(after[picked.len() as int] == order[k]);
        }
    }
}

proof fn lemma_distinct_exists<K: SortKey>(keys: Seq<K::V>, order: Seq<usize>, k: int) -> (picked:
    Seq<usize>)
    requires
        keys.len() <= usize::MAX,
        is_order_of::<K>(keys, 0, keys.len() as int, order),
        0 <= k <= order.len(),
    ensures
        distinct_so_far::<K>(keys, order, k, picked),
    decreases k,
{
    if k == 0 {
        Seq::<usize>::empty()
    } else {
        let before = lemma_distinct_exists::<K>(keys, order, k - 1);
        if k == 1 || !K::key_le(keys[order[k - 1] as int], keys[order[k - 2] as int]) {
            lemma_distinct_push::<K>(keys, order, k - 1, before);
            before.push(order[k - 1])
        } else {
            lemma_distinct_skip::<K>(keys, order, k - 1, before);
            before
        }
    }
}

proof fn lemma_distinct_skip<K: SortKey>(
    keys: Seq<K::V>,
    order: Seq<usize>,
    k: int,
    picked: Seq<usize>,
)
    requires
        is_order_of::<K>(keys, 0, keys.len() as int, order),
        0 < k < order.len(),
        distinct_so_far::<K>(keys, order, k, picked),
        K::key_le(keys[order[k] as int], keys[order[k - 1] as int]),
    ensures
        distinct_so_far::<K>(keys, order, k + 1, picked),
{
    assert(comes_before::<K>(keys, order[k - 1] as int, order[k] as int));
    K::key_antisym(keys[order[k] as int], keys[order[k - 1] as int]);
    assert(is_listed::<K>(keys, picked, keys[order[k - 1] as int]));
    assert forall|q: int| 0 <= q < k + 1 implies #[trigger] is_listed::<K>(
        keys,
        picked,
        keys[order[q] as int],
    ) by {}
}

proof fn lemma_distinct_done<K: SortKey>(keys: Seq<K::V>, order: Seq<usize>, picked: Seq<usize>)
    requires
        keys.len() <= usize::MAX,
        is_order_of::<K>(keys, 0, keys.len() as int, order),
        distinct_so_far::<K>(keys, order, order.len() as int, picked),
    ensures
        is_distinct_order::<K>(keys, picked),
{
    assert forall|p: int| 0 <= p < keys.len() implies #[trigger] is_listed::<K>(
        keys,
        picked,
        keys[p],
    ) by {
        lemma_order_complete::<K>(keys, 0, keys.len() as int, order, p);
        let q = choose|q: int| 0 <= q < order.len() && order[q] == p as usize;
        assert(is_listed::<K>(keys, picked, keys[order[q] as int]));
    }
}

/// The first positions of all keys can be listed.
pub proof fn lemma_first_positions<K: SortKey>(keys: Seq<K::V>)
    requires
        keys.len() <= usize::MAX,
    ensures
        is_distinct_order::<K>(keys, first_positions::<K>(keys)),
{
    lemma_stable_order::<K>(keys);
    let order = stable_order::<K>(keys);
    let picked = lemma_distinct_exists::<K>(keys, order, order.len() as int);
    lemma_distinct_done::<K>(keys, order, picked);
}

/// The first position of every key that occurs, in ascending order of the keys.
pub fn distinct_order<K: SortKey>(keys: &Vec<K>) -> (picked: Vec<usize>)
    ensures
        is_distinct_order::<K>(key_views(keys@), picked@),
        picked@ == first_positions::<K>(key_views(keys@)),
{
    let order = sort_order(keys);
    let ghost kv = key_views(keys@);
    assert(keys.len() == kv.len());
    let mut picked: Vec<usize> = Vec::new();
    for k in 0..order.len()
        invariant
            kv == key_views(keys@),
            kv.len() <= usize::MAX,
            is_order_of::<K>(kv, 0, kv.len() as int, order@),
            distinct_so_far::<K>(kv, order@, k as int, picked@),
    {
        let x: usize = order[k];
        let is_new: bool = if k == 0 {
            true
        } else {
            !keys[x].not_after(&keys[order[k - 1]])
        };
        if is_new {
            proof {
                lemma_distinct_push::<K>(kv, order@, k as int, picked@);
            }
            picked.push(x);
        } else {
            proof {
                lemma_distinct_skip::<K>(kv, order@, k as int, picked@);
            }
        }
    }
    proof {
        lemma_distinct_done::<K>(kv, order@, picked@);
        lemma_distinct_unique::<K>(kv, picked@, first_positions::<K>(kv));
    }
    picked
}

/// The number of different keys.
pub fn count_distinct<K: SortKey>(keys: &Vec<K>) -> (n: usize)
    ensures
        n == key_views(keys@).to_set().len(),
        key_views(keys@).to_set().finite(),
{
    let picked = distinct_order(keys);
    proof {
        lemma_distinct_count::<K>(key_views(keys@), picked@);
    }
    picked.len()
}

/// The items in the order that `order` gives.
pub open spec fn arranged<T>(items: Seq<T>, order: Seq<usize>) -> Seq<T> {
    order.map_values(|p: usize| items[p as int])
}

/// Puts items in the order that `order` gives, which names no position twice.
pub fn arrange<T>(items: Vec<T>, order: &Vec<usize>) -> (out: Vec<T>)
    requires
        forall|i: int| 0 <= i < order@.len() ==> (#[trigger] order@[i]) < items@.len(),
        forall|i: int, j: int| 0 <= i < j < order@.len() ==> order@[i] != order@[j],
    ensures
        out@ == arranged(items@, order@),
{
    let n: usize = items.len();
    let mut rest = items;
    let mut slots: Vec<Option<T>> = Vec::new();
    while slots.len() < n
        invariant
            n == items@.len(),
            slots@.len() <= n,
            rest@ == items@.take(n - slots@.len()),
            forall|k: int| 0 <= k < slots@.len() ==> #[trigger] slots@[k] == Some(items@[n - 1 - k]),
        decreases n - slots@.len(),
    {
        let slot = rest.pop();
        slots.push(slot);
        assert(rest@ =~= items@.take(n - slots@.len()));
    }
    let mut out: Vec<T> = Vec::new();
    for i in 0..order.len()
        invariant
            n == items@.len(),
            slots@.len() == n,
            forall|k: int| 0 <= k < order@.len() ==> (#[trigger] order@[k]) < n,
            forall|j: int, k: int| 0 <= j < k < order@.len() ==> order@[j] != order@[k],
            forall|k: int|
                i <= k < order@.len() ==> slots@[n - 1 - (#[trigger] order@[k])] == Some(
                    items@[order@[k] as int],
                ),
            out@.len() == i,
            forall|k: int| 0 <= k < i ==> #[trigger] out@[k] == items@[order@[k] as int],
    {
        assert(order@[i as int] < n);
        let p: usize = n - 1 - order[i];
        assert(slots@[n - 1 - order@[i as int]] == Some(items@[order@[i as int] as int]));
        let mut taken: Option<T> = None;
        std::mem::swap(&mut taken, &mut slots[p]);
        if let Some(item) = taken {
            out.push(item);
        }
    }
    assert(out@ =~= arranged(items@, order@));
    out
}

/// An order names no position twice.
pub proof fn lemma_order_distinct<K: SortKey>(
    keys: Seq<K::V>,
    lo: int,
    hi: int,
    order: Seq<usize>,
)
    requires
        is_order_of::<K>(keys, lo, hi, order),
    ensures
        forall|i: int, j: int| 0 <= i < j < order.len() ==> order[i] != order[j],
{
    assert forall|i: int, j: int| 0 <= i < j < order.len() implies order[i] != order[j] by {
        assert(comes_before::<K>(keys, order[i] as int, order[j] as int));
    }
}

/// The positions before `n` whose key is `key`, ascending.
pub open spec fn positions_before<K: SortKey>(keys: Seq<K::V>, key: K::V, n: int) -> Seq<usize>
    decreases n,
{
    if n <= 0 {
        seq![]
    } else if keys[n - 1] == key {
        positions_before::<K>(keys, key, n - 1).push((n - 1) as usize)
    } else {
        positions_before::<K>(keys, key, n - 1)
    }
}

/// All positions whose key is `key`, ascending.
pub open spec fn positions_of<K: SortKey>(keys: Seq<K::V>, key: K::V) -> Seq<usize> {
    positions_before::<K>(keys, key, keys.len() as int)
}

/// The positions are in ascending order.
pub open spec fn is_increasing(positions: Seq<usize>) -> bool {
    forall|i: int, j: int| 0 <= i < j < positions.len() ==> positions[i] < positions[j]
}

/// The positions of a key are in ascending order, and they are those whose key it
/// is.
pub proof fn lemma_positions<K: SortKey>(keys: Seq<K::V>, key: K::V, n: int)
    requires
        0 <= n <= keys.len(),
        keys.len() <= usize::MAX,
    ensures
        is_increasing(positions_before::<K>(keys, key, n)),
        positions_before::<K>(keys, key, n).len() <= n,
        forall|i: int|
            0 <= i < positions_before::<K>(keys, key, n).len() ==> (
            #[trigger] positions_before::<K>(keys, key, n)[i]) < n && keys[positions_before::<K>(
                keys,
                key,
                n,
            )[i] as int] == key,
        forall|p: int|
            0 <= p < n && #[trigger] keys[p] == key ==> positions_before::<K>(
                keys,
                key,
                n,
            ).contains(p as usize),
    decreases n,
{
    if n > 0 {
        lemma_positions::<K>(keys, key, n - 1);
        let before = positions_before::<K>(keys, key, n - 1);
        let after = positions_before::<K>(keys, key, n);
        assert forall|p: int| 0 <= p < n && #[trigger] keys[p] == key implies after.contains(
            p as usize,
        ) by {
            if p < n - 1 {
                assert(before.contains(p as usize));
                let i = choose|i: int| 0 <= i < before.len() && before[i] == p as usize;
                assert(after[i] == p as usize);
            } else {
                assert(after[before.len() as int] == p as usize);
            }
        }
    }
}

/// The items at the positions of a key are the items that pass a test for it, in
/// order.
pub proof fn lemma_positions_filter<K: SortKey, T>(
    items: Seq<T>,
    keys: Seq<K::V>,
    key: K::V,
    has_key: spec_fn(T) -> bool,
    n: int,
)
    requires
        keys.len() == items.len(),
        items.len() <= usize::MAX,
        0 <= n <= items.len(),
        forall|i: int|
            0 <= i < items.len() ==> has_key(#[trigger] items[i]) == (keys[i] == key),
    ensures
        arranged(items, positions_before::<K>(keys, key, n)) == items.take(n).filter(has_key),
    decreases n,
{
    reveal(Seq::filter);
    if n > 0 {
        lemma_positions_filter::<K, T>(items, keys, key, has_key, n - 1);
        assert(items.take(n).drop_last() =~= items.take(n - 1));
        assert(items.take(n).last() == items[n - 1]);
        let before = positions_before::<K>(keys, key, n - 1);
        if keys[n - 1] == key {
            assert(arranged(items, before.push((n - 1) as usize)) =~= arranged(items, before).push(
                items[n - 1],
            ));
        }
    } else {
        assert(arranged(items, Seq::<usize>::empty()) =~= Seq::<T>::empty());
    }
}

/// Two ascending lists of the same positions are the same list.
proof fn lemma_increasing_unique(a: Seq<usize>, b: Seq<usize>)
    requires
        is_increasing(a),
        is_increasing(b),
        forall|x: usize| a.contains(x) <==> b.contains(x),
    ensures
        a == b,
    decreases a.len(),
{
    if a.len() == 0 {
        if b.len() > 0 {
            assert(b.contains(b[0]));
            assert(a.contains(b[0]));
        }
        assert(a =~= b);
    } else {
        assert(a.contains(a.last()));
        assert(b.contains(a.last()));
        assert(b.contains(b.last()));
        assert(a.contains(b.last()));
        let i = choose|i: int| 0 <= i < b.len() && b[i] == a.last();
        let j = choose|j: int| 0 <= j < a.len() && a[j] == b.last();
        assert(a.last() == b.last());
        let x = a.drop_last();
        let y = b.drop_last();
        assert forall|v: usize| x.contains(v) <==> y.contains(v) by {
            if x.contains(v) {
                let p = choose|p: int| 0 <= p < x.len() && x[p] == v;
                assert(a[p] == v);
                assert(a.contains(v));
                let q = choose|q: int| 0 <= q < b.len() && b[q] == v;
                assert(a[p] < a[a.len() - 1]);
                assert(y[q] == v);
            }
            if y.contains(v) {
                let p = choose|p: int| 0 <= p < y.len() && y[p] == v;
                assert(b[p] == v);
                assert(b.contains(v));
                let q = choose|q: int| 0 <= q < a.len() && a[q] == v;
                assert(b[p] < b[b.len() - 1]);
                assert(x[q] == v);
            }
        }
        lemma_increasing_unique(x, y);
        assert(a =~= x.push(a.last()));
        assert(b =~= y.push(b.last()));
    }
}

/// Groups of positions, by ascending key: each holds all positions of its key.
pub open spec fn is_grouping<K: SortKey>(keys: Seq<K::V>, groups: Seq<Vec<usize>>) -> bool {
    &&& groups.len() == first_positions::<K>(keys).len()
    &&& forall|g: int|
        0 <= g < groups.len() ==> (#[trigger] groups[g])@ == positions_of::<K>(
            keys,
            keys[first_positions::<K>(keys)[g] as int],
        )
}

/// The number of positions in groups.
pub open spec fn group_sizes(groups: Seq<Vec<usize>>) -> nat
    decreases groups.len(),
{
    if groups.len() == 0 {
        0
    } else {
        group_sizes(groups.drop_last()) + groups.last()@.len()
    }
}

/// Fewer groups hold no more positions.
pub proof fn lemma_group_sizes(groups: Seq<Vec<usize>>, k: int)
    requires
        0 <= k <= groups.len(),
    ensures
        group_sizes(groups.take(k)) <= group_sizes(groups),
    decreases groups.len(),
{
    if k < groups.len() {
        lemma_group_sizes(groups.drop_last(), k);
        assert(groups.drop_last().take(k) =~= groups.take(k));
    } else {
        assert(groups.take(k) =~= groups);
    }
}

/// The end of the run of positions in `order` that have the key of position `a`.
fn run_end<K: SortKey>(keys: &Vec<K>, order: &Vec<usize>, a: usize) -> (b: usize)
    requires
        a < order@.len(),
        is_order_of::<K>(key_views(keys@), 0, keys@.len() as int, order@),
    ensures
        a < b <= order@.len(),
        forall|i: int|
            a <= i < b ==> key_views(keys@)[#[trigger] order@[i] as int] == key_views(
                keys@,
            )[order@[a as int] as int],
        b < order@.len() ==> key_views(keys@)[order@[b as int] as int] != key_views(
            keys@,
        )[order@[a as int] as int],
{
    let ghost kv = key_views(keys@);
    assert(order.len() == order@.len());
    let mut b: usize = a + 1;
    while b < order.len() && keys[order[b]].not_after(&keys[order[a]])
        invariant
            kv == key_views(keys@),
            a < b <= order@.len(),
            is_order_of::<K>(kv, 0, keys@.len() as int, order@),
            forall|i: int|
                a <= i < b ==> kv[#[trigger] order@[i] as int] == kv[order@[a as int] as int],
        decreases order@.len() - b,
    {
        proof {
            assert(comes_before::<K>(kv, order@[a as int] as int, order@[b as int] as int));
            K::key_antisym(kv[order@[a as int] as int], kv[order@[b as int] as int]);
        }
        b = b + 1;
    }
    proof {
        if b < order@.len() && kv[order@[b as int] as int] == kv[order@[a as int] as int] {
            K::key_total(kv[order@[b as int] as int], kv[order@[a as int] as int]);
        }
    }
    b
}

/// A whole run of the order holds all positions of its key, and starts with the
/// first of them.
proof fn lemma_run<K: SortKey>(keys: Seq<K::V>, order: Seq<usize>, a: int, b: int)
    requires
        keys.len() <= usize::MAX,
        is_order_of::<K>(keys, 0, keys.len() as int, order),
        0 <= a < b <= order.len(),
        forall|i: int| a <= i < b ==> keys[#[trigger] order[i] as int] == keys[order[a] as int],
        a > 0 ==> keys[order[a - 1] as int] != keys[order[a] as int],
        b < order.len() ==> keys[order[b] as int] != keys[order[a] as int],
    ensures
        order.subrange(a, b) == positions_of::<K>(keys, keys[order[a] as int]),
        is_first::<K>(keys, order[a] as int),
{
    let key = keys[order[a] as int];
    let run = order.subrange(a, b);
    let all = positions_of::<K>(keys, key);
    lemma_positions::<K>(keys, key, keys.len() as int);
    K::key_total(key, key);
    assert(is_increasing(run)) by {
        assert forall|i: int, j: int| 0 <= i < j < run.len() implies run[i] < run[j] by {
            assert(comes_before::<K>(keys, order[a + i] as int, order[a + j] as int));
        }
    }
    assert forall|x: usize| run.contains(x) <==> all.contains(x) by {
        if run.contains(x) {
            let i = choose|i: int| 0 <= i < run.len() && run[i] == x;
            assert(order[a + i] == x);
            assert(keys[x as int] == key);
        }
        if all.contains(x) {
            let i = choose|i: int| 0 <= i < all.len() && all[i] == x;
            assert(keys[x as int] == key);
            lemma_order_complete::<K>(keys, 0, keys.len() as int, order, x as int);
            let q = choose|q: int| 0 <= q < order.len() && order[q] == x;
            if q < a {
                if q < a - 1 {
                    assert(comes_before::<K>(keys, order[q] as int, order[a - 1] as int));
                }
                assert(comes_before::<K>(keys, order[a - 1] as int, order[a] as int));
                K::key_antisym(keys[order[a - 1] as int], key);
            }
            if q >= b {
                if q > b {
                    assert(comes_before::<K>(keys, order[b] as int, order[q] as int));
                }
                assert(comes_before::<K>(keys, order[a] as int, order[b] as int));
                K::key_antisym(keys[order[b] as int], key);
            }
            assert(run[q - a] == x);
        }
    }
    lemma_increasing_unique(run, all);
    assert forall|q: int| 0 <= q < order[a] implies #[trigger] keys[q] != keys[order[a] as int] by {
        if keys[q] == key {
            assert(all.contains(q as usize));
            let i = choose|i: int| 0 <= i < all.len() && all[i] == q as usize;
            assert(run[0] == order[a]);
            if i > 0 {
                assert(all[0] < all[i]);
            }
        }
    }
}

/// Groups positions by key.
pub fn group_positions<K: SortKey>(keys: &Vec<K>) -> (groups: Vec<Vec<usize>>)
    ensures
        is_grouping::<K>(key_views(keys@), groups@),
        group_sizes(groups@) == keys@.len(),
{
    let order = sort_order(keys);
    let ghost kv = key_views(keys@);
    assert(keys.len() == kv.len());
    let mut groups: Vec<Vec<usize>> = Vec::new();
    let ghost mut firsts = Seq::<usize>::empty();
    let mut a: usize = 0;
    while a < order.len()
        invariant
            kv == key_views(keys@),
            kv.len() == keys@.len(),
            kv.len() <= usize::MAX,
            a <= order@.len(),
            is_order_of::<K>(kv, 0, kv.len() as int, order@),
            0 < a < order@.len() ==> kv[order@[a - 1] as int] != kv[order@[a as int] as int],
            distinct_so_far::<K>(kv, order@, a as int, firsts),
            groups@.len() == firsts.len(),
            group_sizes(groups@) == a,
            forall|g: int|
                0 <= g < groups@.len() ==> (#[trigger] groups@[g])@ == positions_of::<K>(
                    kv,
                    kv[firsts[g] as int],
                ),
        decreases order@.len() - a,
    {
        let b: usize = run_end(keys, &order, a);
        proof {
            lemma_run::<K>(kv, order@, a as int, b as int);
        }
        let mut group: Vec<usize> = Vec::new();
        for k in a..b
            invariant
                a < b <= order@.len(),
                group@ == order@.subrange(a as int, k as int),
        {
            group.push(order[k]);
            assert(order@.subrange(a as int, k + 1) =~= order@.subrange(a as int, k as int).push(
                order@[k as int],
            ));
        }
        let ghost before = groups@;
        groups.push(group);
        assert(groups@.drop_last() =~= before);
        proof {
            if a > 0 {
                assert(comes_before::<K>(kv, order@[a - 1] as int, order@[a as int] as int));
                if K::key_le(kv[order@[a as int] as int], kv[order@[a - 1] as int]) {
                    K::key_antisym(kv[order@[a as int] as int], kv[order@[a - 1] as int]);
                }
            }
            lemma_distinct_push::<K>(kv, order@, a as int, firsts);
            firsts = firsts.push(order@[a as int]);
            lemma_distinct_run::<K>(kv, order@, a as int, b as int, firsts);
        }
        a = b;
    }
    proof {
        lemma_distinct_done::<K>(kv, order@, firsts);
        lemma_distinct_unique::<K>(kv, firsts, first_positions::<K>(kv));
    }
    groups
}

proof fn lemma_distinct_run<K: SortKey>(
    keys: Seq<K::V>,
    order: Seq<usize>,
    a: int,
    b: int,
    picked: Seq<usize>,
)
    requires
        distinct_so_far::<K>(keys, order, a + 1, picked),
        0 <= a < b <= order.len(),
        forall|i: int| a <= i < b ==> keys[#[trigger] order[i] as int] == keys[order[a] as int],
    ensures
        distinct_so_far::<K>(keys, order, b, picked),
{
    assert forall|q: int| 0 <= q < b implies #[trigger] is_listed::<K>(
        keys,
        picked,
        keys[order[q] as int],
    ) by {
        if q > a {
            assert(is_listed::<K>(keys, picked, keys[order[a] as int]));
        }
    }
}

/// The positions before `n` at which a key occurs for the first time, ascending.
pub open spec fn firsts_before<K: SortKey>(keys: Seq<K::V>, n: int) -> Seq<usize>
    decreases n,
{
    if n <= 0 {
        seq![]
    } else if is_first::<K>(keys, n - 1) {
        firsts_before::<K>(keys, n - 1).push((n - 1) as usize)
    } else {
        firsts_before::<K>(keys, n - 1)
    }
}

/// The positions at which a key occurs for the first time, ascending.
pub open spec fn appearances<K: SortKey>(keys: Seq<K::V>) -> Seq<usize> {
    firsts_before::<K>(keys, keys.len() as int)
}

/// The appearances are in ascending order, and they are the first positions.
pub proof fn lemma_appearances<K: SortKey>(keys: Seq<K::V>, n: int)
    requires
        0 <= n <= keys.len(),
        keys.len() <= usize::MAX,
    ensures
        is_increasing(firsts_before::<K>(keys, n)),
        forall|i: int|
            0 <= i < firsts_before::<K>(keys, n).len() ==> (#[trigger] firsts_before::<K>(
                keys,
                n,
            )[i]) < n && is_first::<K>(keys, firsts_before::<K>(keys, n)[i] as int),
        forall|p: int|
            0 <= p < n && #[trigger] is_first::<K>(keys, p) ==> firsts_before::<K>(
                keys,
                n,
            ).contains(p as usize),
    decreases n,
{
    if n > 0 {
        lemma_appearances::<K>(keys, n - 1);
        let before = firsts_before::<K>(keys, n - 1);
        let after = firsts_before::<K>(keys, n);
        assert forall|p: int| 0 <= p < n && #[trigger] is_first::<K>(
            keys,
            p,
        ) implies after.contains(p as usize) by {
            if p < n - 1 {
                assert(before.contains(p as usize));
                let i = choose|i: int| 0 <= i < before.len() && before[i] == p as usize;
                assert(after[i] == p as usize);
            } else {
                assert(after[before.len() as int] == p as usize);
            }
        }
    }
}

/// Groups of positions, in the order in which their keys appear.
pub open spec fn is_grouping_by_appearance<K: SortKey>(
    keys: Seq<K::V>,
    groups: Seq<Vec<usize>>,
) -> bool {
    &&& groups.len() == appearances::<K>(keys).len()
    &&& forall|g: int|
        0 <= g < groups.len() ==> (#[trigger] groups[g])@ == positions_of::<K>(
            keys,
            keys[appearances::<K>(keys)[g] as int],
        )
}

/// The first positions, sorted, are the appearances.
proof fn lemma_sorted_firsts<K: SortKey>(
    keys: Seq<K::V>,
    firsts: Seq<u64>,
    order: Seq<usize>,
    sorted: Seq<usize>,
)
    requires
        keys.len() <= usize::MAX,
        firsts.len() == first_positions::<K>(keys).len(),
        firsts.len() <= usize::MAX,
        forall|g: int|
            0 <= g < firsts.len() ==> #[trigger] firsts[g] == first_positions::<K>(keys)[g],
        is_order_of::<u64>(firsts, 0, firsts.len() as int, order),
        sorted == order.map_values(|g: usize| firsts[g as int] as usize),
    ensures
        sorted == appearances::<K>(keys),
{
    let picked = first_positions::<K>(keys);
    let all = appearances::<K>(keys);
    lemma_first_positions::<K>(keys);
    lemma_appearances::<K>(keys, keys.len() as int);
    assert(is_increasing(sorted)) by {
        assert forall|i: int, j: int| 0 <= i < j < sorted.len() implies sorted[i] < sorted[j] by {
            let a = order[i] as int;
            let b = order[j] as int;
            assert(comes_before::<u64>(firsts, order[i] as int, order[j] as int));
            assert(firsts[a] == picked[a] && firsts[b] == picked[b]);
            if a < b {
                assert(keys[picked[a] as int] != keys[picked[b] as int]);
            } else {
                assert(keys[picked[b] as int] != keys[picked[a] as int]);
            }
        }
    }
    assert forall|x: usize| sorted.contains(x) <==> all.contains(x) by {
        if sorted.contains(x) {
            let i = choose|i: int| 0 <= i < sorted.len() && sorted[i] == x;
            let g = order[i] as int;
            assert(firsts[g] == picked[g]);
            assert(is_first::<K>(keys, picked[g] as int));
        }
        if all.contains(x) {
            let i = choose|i: int| 0 <= i < all.len() && all[i] == x;
            assert(is_first::<K>(keys, x as int));
            assert(is_listed::<K>(keys, picked, keys[x as int]));
            let g = choose|g: int|
                0 <= g < picked.len() && keys[#[trigger] picked[g] as int] == keys[x as int];
            assert(is_first::<K>(keys, picked[g] as int));
            assert(picked[g] == x);
            lemma_order_complete::<u64>(firsts, 0, firsts.len() as int, order, g);
            let q = choose|q: int| 0 <= q < order.len() && order[q] == g as usize;
            assert(firsts[g] == picked[g]);
            assert(sorted[q] == x);
        }
    }
    lemma_increasing_unique(sorted, all);
}

/// Groups positions by key, the groups in the order in which their keys appear.
pub fn group_by_appearance<K: SortKey>(keys: &Vec<K>) -> (groups: Vec<Vec<usize>>)
    ensures
        is_grouping_by_appearance::<K>(key_views(keys@), groups@),
{
    let ghost kv = key_views(keys@);
    assert(keys.len() == kv.len());
    let groups = group_positions(keys);
    let ghost picked = first_positions::<K>(kv);
    proof {
        lemma_first_positions::<K>(kv);
    }
    let mut firsts: Vec<u64> = Vec::new();
    for g in 0..groups.len()
        invariant
            kv.len() <= usize::MAX,
            is_grouping::<K>(kv, groups@),
            picked == first_positions::<K>(kv),
            is_distinct_order::<K>(kv, picked),
            firsts@.len() == g,
            forall|h: int| 0 <= h < g ==> #[trigger] firsts@[h] == picked[h],
    {
        proof {
            lemma_group_first::<K>(kv, groups@, g as int);
        }
        firsts.push(groups[g][0] as u64);
    }
    let order = sort_order(&firsts);
    proof {
        assert(key_views(firsts@) =~= firsts@);
        assert(groups.len() == groups@.len());
        lemma_sorted_firsts::<K>(
            kv,
            firsts@,
            order@,
            order@.map_values(|g: usize| firsts@[g as int] as usize),
        );
        lemma_order_distinct::<u64>(firsts@, 0, firsts@.len() as int, order@);
    }
    let sorted = arrange(groups, &order);
    proof {
        let seen = order@.map_values(|g: usize| firsts@[g as int] as usize);
        assert forall|g: int| 0 <= g < sorted@.len() implies (#[trigger] sorted@[g])@
            == positions_of::<K>(kv, kv[appearances::<K>(kv)[g] as int]) by {
            let h = order@[g] as int;
            assert(sorted@[g] == groups@[h]);
            assert(seen[g] == firsts@[h] as usize);
            assert(firsts@[h] == picked[h]);
        }
    }
    sorted
}

/// A group starts with the appearance of its key, and holds positions of `keys`.
pub proof fn lemma_appearance_first<K: SortKey>(
    keys: Seq<K::V>,
    groups: Seq<Vec<usize>>,
    g: int,
)
    requires
        keys.len() <= usize::MAX,
        is_grouping_by_appearance::<K>(keys, groups),
        0 <= g < groups.len(),
    ensures
        groups[g]@.len() > 0,
        groups[g]@[0] == appearances::<K>(keys)[g],
        appearances::<K>(keys)[g] < keys.len(),
        forall|i: int| 0 <= i < groups[g]@.len() ==> (#[trigger] groups[g]@[i]) < keys.len(),
{
    let seen = appearances::<K>(keys);
    lemma_appearances::<K>(keys, keys.len() as int);
    let p = seen[g] as int;
    assert(seen[g] < keys.len());
    lemma_positions::<K>(keys, keys[p], keys.len() as int);
    let all = positions_of::<K>(keys, keys[p]);
    assert(groups[g]@ == all);
    assert(is_first::<K>(keys, seen[g] as int));
    assert(all.contains(p as usize));
    let i = choose|i: int| 0 <= i < all.len() && all[i] == p as usize;
    assert(keys[all[0] as int] == keys[p]);
    if i > 0 {
        assert(all[0] < all[i]);
    }
}

/// The `i`-th position of a key is preceded by `i` others.
pub proof fn lemma_rank<K: SortKey>(keys: Seq<K::V>, key: K::V, i: int)
    requires
        keys.len() <= usize::MAX,
        0 <= i < positions_of::<K>(keys, key).len(),
    ensures
        positions_before::<K>(keys, key, positions_of::<K>(keys, key)[i] + 1).len() == i + 1,
{
    lemma_rank_before::<K>(keys, key, keys.len() as int, i);
}

proof fn lemma_rank_before<K: SortKey>(keys: Seq<K::V>, key: K::V, n: int, i: int)
    requires
        keys.len() <= usize::MAX,
        0 <= n <= keys.len(),
        0 <= i < positions_before::<K>(keys, key, n).len(),
    ensures
        positions_before::<K>(keys, key, positions_before::<K>(keys, key, n)[i] + 1).len() == i + 1,
    decreases n,
{
    let before = positions_before::<K>(keys, key, n - 1);
    if keys[n - 1] == key && i == before.len() {
        assert(positions_before::<K>(keys, key, n)[i] == n - 1);
    } else {
        assert(positions_before::<K>(keys, key, n)[i] == before[i]);
        lemma_rank_before::<K>(keys, key, n - 1, i);
    }
}

/// The positions of keys are those of a longer list, as far as they go.
pub proof fn lemma_positions_prefix<K: SortKey>(keys: Seq<K::V>, more: K::V, key: K::V, n: int)
    requires
        0 <= n <= keys.len(),
    ensures
        positions_before::<K>(keys.push(more), key, n) == positions_before::<K>(keys, key, n),
    decreases n,
{
    if n > 0 {
        lemma_positions_prefix::<K>(keys, more, key, n - 1);
        assert(keys.push(more)[n - 1] == keys[n - 1]);
    }
}

/// The appearances of keys are those of a longer list, as far as they go.
pub proof fn lemma_firsts_prefix<K: SortKey>(keys: Seq<K::V>, more: K::V, n: int)
    requires
        0 <= n <= keys.len(),
    ensures
        firsts_before::<K>(keys.push(more), n) == firsts_before::<K>(keys, n),
    decreases n,
{
    if n > 0 {
        lemma_firsts_prefix::<K>(keys, more, n - 1);
        let longer = keys.push(more);
        assert(is_first::<K>(longer, n - 1) == is_first::<K>(keys, n - 1)) by {
            assert(longer[n - 1] == keys[n - 1]);
            if is_first::<K>(longer, n - 1) {
                assert forall|q: int| 0 <= q < n - 1 implies #[trigger] keys[q] != keys[n - 1] by {
                    assert(longer[q] == keys[q]);
                }
            }
            if is_first::<K>(keys, n - 1) {
                assert forall|q: int| 0 <= q < n - 1 implies #[trigger] longer[q]
                    != longer[n - 1] by {
                    assert(longer[q] == keys[q]);
                }
            }
        }
    }
}

/// A group starts with the first position of its key.
pub proof fn lemma_group_first<K: SortKey>(keys: Seq<K::V>, groups: Seq<Vec<usize>>, g: int)
    requires
        keys.len() <= usize::MAX,
        is_grouping::<K>(keys, groups),
        0 <= g < groups.len(),
    ensures
        groups[g]@.len() > 0,
        groups[g]@[0] == first_positions::<K>(keys)[g],
{
    let picked = first_positions::<K>(keys);
    lemma_first_positions::<K>(keys);
    let p = picked[g] as int;
    lemma_positions::<K>(keys, keys[p], keys.len() as int);
    let all = positions_of::<K>(keys, keys[p]);
    assert(groups[g]@ == all);
    assert(is_first::<K>(keys, picked[g] as int));
    assert(all.contains(p as usize));
    let i = choose|i: int| 0 <= i < all.len() && all[i] == p as usize;
    assert(keys[all[0] as int] == keys[p]);
    if i > 0 {
        assert(all[0] < all[i]);
    }
}

impl SortKey for u32 {
    open spec fn key_le(a: u32, b: u32) -> bool {
        a <= b
    }

    proof fn key_total(a: u32, b: u32) {
    }

    proof fn key_trans(a: u32, b: u32, c: u32) {
    }

    proof fn key_antisym(a: u32, b: u32) {
    }

    fn not_after(&self, other: &Self) -> (r: bool) {
        *self <= *other
    }
}

impl SortKey for u64 {
    open spec fn key_le(a: u64, b: u64) -> bool {
        a <= b
    }

    proof fn key_total(a: u64, b: u64) {
    }

    proof fn key_trans(a: u64, b: u64, c: u64) {
    }

    proof fn key_antisym(a: u64, b: u64) {
    }

    fn not_after(&self, other: &Self) -> (r: bool) {
        *self <= *other
    }
}

impl SortKey for (u64, usize) {
    open spec fn key_le(a: (u64, usize), b: (u64, usize)) -> bool {
        a.0 < b.0 || (a.0 == b.0 && a.1 <= b.1)
    }

    proof fn key_total(a: (u64, usize), b: (u64, usize)) {
    }

    proof fn key_trans(a: (u64, usize), b: (u64, usize), c: (u64, usize)) {
    }

    proof fn key_antisym(a: (u64, usize), b: (u64, usize)) {
    }

    fn not_after(&self, other: &Self) -> (r: bool) {
        self.0 < other.0 || (self.0 == other.0 && self.1 <= other.1)
    }
}

impl<'a> SortKey for &'a str {
    open spec fn key_le(a: Seq<char>, b: Seq<char>) -> bool {
        text::text_le(a, b)
    }

    proof fn key_total(a: Seq<char>, b: Seq<char>) {
        text::lemma_text_le_total(a, b);
    }

    proof fn key_trans(a: Seq<char>, b: Seq<char>, c: Seq<char>) {
        text::lemma_text_le_trans(a, b, c);
    }

    proof fn key_antisym(a: Seq<char>, b: Seq<char>) {
        text::lemma_text_le_antisym(a, b);
    }

    fn not_after(&self, other: &Self) -> (r: bool) {
        text_not_after(self, other)
    }
}

impl<'a, 'b> SortKey for (&'a str, &'b str) {
    open spec fn key_le(a: (Seq<char>, Seq<char>), b: (Seq<char>, Seq<char>)) -> bool {
        text::text_le(a.0, b.0) && (a.0 == b.0 ==> text::text_le(a.1, b.1))
    }

    proof fn key_total(a: (Seq<char>, Seq<char>), b: (Seq<char>, Seq<char>)) {
        text::lemma_text_le_total(a.0, b.0);
        text::lemma_text_le_total(a.1, b.1);
        text::lemma_text_le_refl(a.0);
    }

    proof fn key_trans(
        a: (Seq<char>, Seq<char>),
        b: (Seq<char>, Seq<char>),
        c: (Seq<char>, Seq<char>),
    ) {
        text::lemma_text_le_trans(a.0, b.0, c.0);
        if a.0 == c.0 {
            text::lemma_text_le_antisym(a.0, b.0);
            text::lemma_text_le_trans(a.1, b.1, c.1);
        }
    }

    proof fn key_antisym(a: (Seq<char>, Seq<char>), b: (Seq<char>, Seq<char>)) {
        text::lemma_text_le_antisym(a.0, b.0);
        text::lemma_text_le_antisym(a.1, b.1);
    }

    fn not_after(&self, other: &Self) -> (r: bool) {
        text_not_after(self.0, other.0) && (!same_text(self.0, other.0) || text_not_after(
            self.1,
            other.1,
        ))
    }
}

impl<'a> SortKey for (u32, &'a str) {
    open spec fn key_le(a: (u32, Seq<char>), b: (u32, Seq<char>)) -> bool {
        a.0 < b.0 || (a.0 == b.0 && text::text_le(a.1, b.1))
    }

    proof fn key_total(a: (u32, Seq<char>), b: (u32, Seq<char>)) {
        text::lemma_text_le_total(a.1, b.1);
    }

    proof fn key_trans(a: (u32, Seq<char>), b: (u32, Seq<char>), c: (u32, Seq<char>)) {
        if a.0 == b.0 && b.0 == c.0 {
            text::lemma_text_le_trans(a.1, b.1, c.1);
        }
    }

    proof fn key_antisym(a: (u32, Seq<char>), b: (u32, Seq<char>)) {
        text::lemma_text_le_antisym(a.1, b.1);
    }

    fn not_after(&self, other: &Self) -> (r: bool) {
        self.0 < other.0 || (self.0 == other.0 && text_not_after(self.1, other.1))
    }
}

impl<'a> SortKey for (u32, u32, &'a str) {
    open spec fn key_le(a: (u32, u32, Seq<char>), b: (u32, u32, Seq<char>)) -> bool {
        a.0 < b.0 || (a.0 == b.0 && (a.1 < b.1 || (a.1 == b.1 && text::text_le(a.2, b.2))))
    }

    proof fn key_total(a: (u32, u32, Seq<char>), b: (u32, u32, Seq<char>)) {
        text::lemma_text_le_total(a.2, b.2);
    }

    proof fn key_trans(
        a: (u32, u32, Seq<char>),
        b: (u32, u32, Seq<char>),
        c: (u32, u32, Seq<char>),
    ) {
        if a.0 == b.0 && b.0 == c.0 && a.1 == b.1 && b.1 == c.1 {
            text::lemma_text_le_trans(a.2, b.2, c.2);
        }
    }

    proof fn key_antisym(a: (u32, u32, Seq<char>), b: (u32, u32, Seq<char>)) {
        text::lemma_text_le_antisym(a.2, b.2);
    }

    fn not_after(&self, other: &Self) -> (r: bool) {
        self.0 < other.0 || (self.0 == other.0 && (self.1 < other.1 || (self.1 == other.1
            && text_not_after(self.2, other.2))))
    }
}

} // verus!
