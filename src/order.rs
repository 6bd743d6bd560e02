use vstd::prelude::*;

verus! {

/// Position `a` comes before position `b` when its key is smaller, or the
/// keys are equal and `a` is the earlier position.
pub open spec fn key_before(keys: Seq<u128>, a: int, b: int) -> bool {
    keys[a] < keys[b] || (keys[a] == keys[b] && a < b)
}

/// Position `j` occurs in `order`.
pub open spec fn lists(order: Seq<usize>, j: int) -> bool {
    exists|k: int| 0 <= k < order.len() && #[trigger] order[k] == j
}

/// `order` lists every position of `keys` once, by ascending key; positions
/// with equal keys keep their list order.
pub open spec fn is_stable_order(keys: Seq<u128>, order: Seq<usize>) -> bool {
    &&& order.len() == keys.len()
    &&& forall|k: int| 0 <= k < order.len() ==> #[trigger] order[k] < keys.len()
    &&& forall|k1: int, k2: int|
        0 <= k1 < k2 < order.len() ==> key_before(keys, #[trigger] order[k1] as int, #[trigger] order[k2] as int)
    &&& forall|j: int| 0 <= j < keys.len() ==> #[trigger] lists(order, j)
}

/// The one order that `is_stable_order` admits.
pub open spec fn stable_order_of(keys: Seq<u128>) -> Seq<usize> {
    choose|o: Seq<usize>| is_stable_order(keys, o)
}

/// Two orders that both list every position by ascending key, ties in
/// list order, are the same.
pub proof fn lemma_stable_order_unique(keys: Seq<u128>, a: Seq<usize>, b: Seq<usize>)
    requires
        is_stable_order(keys, a),
        is_stable_order(keys, b),
    ensures
        a == b,
{
    assert forall|m: int| 0 <= m < a.len() implies a[m] == b[m] by {
        lemma_stable_order_agree(keys, a, b, m);
    }
    assert(a =~= b);
}

proof fn lemma_stable_order_agree(keys: Seq<u128>, a: Seq<usize>, b: Seq<usize>, m: int)
    requires
        is_stable_order(keys, a),
        is_stable_order(keys, b),
        0 <= m < a.len(),
    ensures
        a[m] == b[m],
    decreases m,
{
    if m > 0 {
        lemma_stable_order_agree(keys, a, b, m - 1);
    }
    assert forall|j: int| 0 <= j < m implies a[j] == b[j] by {
        if j < m - 1 {
            lemma_stable_order_agree(keys, a, b, j);
        }
    }
    if a[m] != b[m] {
        assert(lists(b, a[m] as int));
        assert(lists(a, b[m] as int));
        let q = choose|q: int| 0 <= q < b.len() && #[trigger] b[q] == a[m] as int;
        let p = choose|p: int| 0 <= p < a.len() && #[trigger] a[p] == b[m] as int;
        if q < m {
            assert(a[q] == b[q]);
            assert(key_before(keys, a[q] as int, a[m] as int));
        } else if p < m {
            assert(a[p] == b[p]);
            assert(key_before(keys, b[p] as int, b[m] as int));
        } else {
            assert(key_before(keys, b[m] as int, b[q] as int));
            assert(key_before(keys, a[m] as int, a[p] as int));
        }
    }
}

/// The positions of `keys` by ascending key, ties in list order.
pub fn stable_order(keys: &Vec<u128>) -> (order: Vec<usize>)
    ensures
        is_stable_order(keys@, order@),
        order@ == stable_order_of(keys@),
{
    let n = keys.len();
    let mut order: Vec<usize> = Vec::new();
    let mut i: usize = 0;
    while i < n
        invariant
            n == keys.len(),
            i <= n,
            order.len() == i,
            forall|k: int| 0 <= k < order.len() ==> #[trigger] order@[k] < i,
            forall|k1: int, k2: int|
                0 <= k1 < k2 < order.len() ==> key_before(keys@, #[trigger] order@[k1] as int, #[trigger] order@[k2] as int),
            forall|j: int| 0 <= j < i ==> #[trigger] lists(order@, j),
        decreases n - i,
    {
        let mut p: usize = 0;
        while p < order.len() && keys[order[p]] <= keys[i]
            invariant
                n == keys.len(),
                i < n,
                p <= order.len(),
                forall|k: int| 0 <= k < order.len() ==> #[trigger] order@[k] < i,
                forall|k: int| 0 <= k < p ==> keys@[#[trigger] order@[k] as int] <= keys@[i as int],
            decreases order.len() - p,
        {
            p = p + 1;
        }
        let ghost old_order = order@;
        order.insert(p, i);
        proof {
            let o = order@;
            assert(o.len() == old_order.len() + 1);
            assert forall|k: int| 0 <= k < o.len() implies #[trigger] o[k] < i + 1 by {
                if k < p {
                    assert(o[k] == old_order[k]);
                } else if k > p {
                    assert(o[k] == old_order[k - 1]);
                }
            }
            assert forall|k1: int, k2: int| 0 <= k1 < k2 < o.len() implies key_before(keys@, #[trigger] o[k1] as int, #[trigger] o[k2] as int) by {
                if k2 < p {
                    assert(o[k1] == old_order[k1] && o[k2] == old_order[k2]);
                } else if k2 == p {
                    assert(o[k1] == old_order[k1]);
                    assert(keys@[old_order[k1] as int] <= keys@[i as int]);
                } else if k1 < p {
                    assert(o[k1] == old_order[k1] && o[k2] == old_order[k2 - 1]);
                    assert(key_before(keys@, old_order[k1] as int, old_order[k2 - 1] as int));
                } else if k1 == p {
                    assert(o[k2] == old_order[k2 - 1]);
                    assert(p < old_order.len());
                    assert(!(keys@[old_order[p as int] as int] <= keys@[i as int]));
                    if k2 - 1 > p {
                        assert(key_before(keys@, old_order[p as int] as int, old_order[k2 - 1] as int));
                    }
                } else {
                    assert(o[k1] == old_order[k1 - 1] && o[k2] == old_order[k2 - 1]);
                    assert(key_before(keys@, old_order[k1 - 1] as int, old_order[k2 - 1] as int));
                }
            }
            assert forall|j: int| 0 <= j < i + 1 implies #[trigger] lists(o, j) by {
                if j == i {
                    assert(o[p as int] == j);
                } else {
                    assert(lists(old_order, j));
                    let k = choose|k: int| 0 <= k < old_order.len() && #[trigger] old_order[k] == j;
                    if k < p {
                        assert(o[k] == j);
                    } else {
                        assert(o[k + 1] == j);
                    }
                }
            }
        }
        i = i + 1;
    }
    proof {
        lemma_stable_order_unique(keys@, order@, stable_order_of(keys@));
    }
    order
}

} // verus!
