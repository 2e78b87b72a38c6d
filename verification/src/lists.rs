//! Lists: turning them round, and putting them into an order.
use vstd::prelude::*;

verus! {

/// A list in reverse.
pub fn reversed<T>(v: Vec<T>) -> (r: Vec<T>)
    ensures
        r@.len() == v@.len(),
        forall|j: int| 0 <= j < r@.len() ==> #[trigger] r@[j] == v@[v@.len() - 1 - j],
{
    let ghost all = v@;
    let mut rest = v;
    let mut out: Vec<T> = Vec::new();
    while rest.len() > 0
        invariant
            rest@ == all.take(rest@.len() as int),
            rest@.len() + out@.len() == all.len(),
            forall|j: int| 0 <= j < out@.len() ==> #[trigger] out@[j] == all[all.len() - 1 - j],
        decreases rest@.len(),
    {
        let ghost r0 = rest@;
        match rest.pop() {
            Some(x) => {
                assert(x == all[r0.len() - 1]);
                out.push(x);
                assert(rest@ =~= all.take(r0.len() - 1));
            },
            None => {},
        }
    }
    out
}

/// Places into a list of a length, each once.
pub open spec fn is_arrangement(order: Seq<usize>, len: nat) -> bool {
    &&& order.len() == len
    &&& forall|i: int| 0 <= i < order.len() ==> (#[trigger] order[i]) < len
    &&& order.no_duplicates()
}

/// The items of a list in another order.
pub open spec fn arranged<T>(items: Seq<T>, order: Seq<usize>) -> Seq<T> {
    Seq::new(order.len(), |i: int| items[order[i] as int])
}

/// The items of a list in another order.
pub fn rearranged<T>(items: Vec<T>, order: &Vec<usize>) -> (r: Vec<T>)
    requires
        is_arrangement(order@, items@.len()),
    ensures
        r@ == arranged(items@, order@),
{
    let ghost all = items@;
    let turned = reversed(items);
    let mut rest = turned;
    let mut slots: Vec<Option<T>> = Vec::new();
    while rest.len() > 0
        invariant
            rest@.len() + slots@.len() == all.len(),
            forall|j: int| 0 <= j < rest@.len() ==> #[trigger] rest@[j] == all[all.len() - 1 - j],
            forall|j: int| 0 <= j < slots@.len() ==> #[trigger] slots@[j] == Some(all[j]),
        decreases rest@.len(),
    {
        match rest.pop() {
            Some(x) => {
                slots.push(Some(x));
            },
            None => {},
        }
    }
    let n: usize = order.len();
    let mut out: Vec<T> = Vec::new();
    let mut i: usize = 0;
    while i < n
        invariant
            i <= n,
            n == order@.len(),
            n == all.len(),
            is_arrangement(order@, n as nat),
            slots@.len() == n,
            out@.len() == i,
            forall|j: int| 0 <= j < i ==> #[trigger] out@[j] == all[order@[j] as int],
            forall|j: int|
                i <= j < n ==> slots@[(#[trigger] order@[j]) as int] == Some(all[order@[j] as int]),
        decreases n - i,
    {
        let k: usize = order[i];
        let ghost s0 = slots@;
        let mut x: Option<T> = None;
        let mut y = slots.remove(k);
        std::mem::swap(&mut x, &mut y);
        slots.insert(k, y);
        proof {
            assert(slots@ =~= s0.update(k as int, None));
            assert forall|j: int| i + 1 <= j < n implies slots@[(#[trigger] order@[j]) as int]
                == Some(all[order@[j] as int]) by {
                assert(order@[j] != order@[i as int]);
            }
        }
        match x {
            Some(f) => {
                out.push(f);
            },
            None => {},
        }
        i += 1;
    }
    assert(out@ =~= arranged(all, order@));
    out
}

/// One place comes before another: its key is lower, or the keys are equal and the
/// place is lower.
pub open spec fn comes_before(keys: Seq<(u64, u64)>, a: usize, b: usize) -> bool {
    let x = keys[a as int];
    let y = keys[b as int];
    if x.0 != y.0 {
        x.0 < y.0
    } else if x.1 != y.1 {
        x.1 < y.1
    } else {
        a < b
    }
}

/// The order of a list by keys; items with equal keys keep their order.
pub open spec fn is_order_by(keys: Seq<(u64, u64)>, order: Seq<usize>) -> bool {
    &&& is_arrangement(order, keys.len())
    &&& forall|i: int, j: int|
        0 <= i < j < order.len() ==> comes_before(keys, #[trigger] order[i], #[trigger] order[j])
}

/// Puts a list into order by keys.
pub fn order_by(keys: &Vec<(u64, u64)>) -> (r: Vec<usize>)
    ensures
        is_order_by(keys@, r@),
{
    let n: usize = keys.len();
    let mut out: Vec<usize> = Vec::new();
    let mut k: usize = 0;
    while k < n
        invariant
            k <= n,
            n == keys@.len(),
            is_arrangement(out@, k as nat),
            forall|a: int, b: int|
                0 <= a < b < out@.len() ==> comes_before(
                    keys@,
                    #[trigger] out@[a],
                    #[trigger] out@[b],
                ),
        decreases n - k,
    {
        let ghost o = out@;
        let mut p: usize = 0;
        while p < out.len() && (keys[out[p]].0 < keys[k].0 || (keys[out[p]].0 == keys[k].0
            && keys[out[p]].1 <= keys[k].1))
            invariant
                k < n,
                keys@.len() == n,
                p <= out@.len(),
                out@ == o,
                is_arrangement(o, k as nat),
                forall|j: int| 0 <= j < p ==> comes_before(keys@, #[trigger] o[j], k),
            decreases out@.len() - p,
        {
            p += 1;
        }
        out.insert(p, k);
        proof {
            let u = out@;
            assert(u =~= o.insert(p as int, k));
            assert forall|a: int, b: int| 0 <= a < b < u.len() implies comes_before(
                keys@,
                #[trigger] u[a],
                #[trigger] u[b],
            ) by {
                let x = if a < p {
                    a
                } else {
                    a - 1
                };
                let y = if b < p {
                    b
                } else {
                    b - 1
                };
                if a == p {
                    assert(u[b] == o[y]);
                    if y > p {
                        assert(comes_before(keys@, o[p as int], o[y]));
                    }
                } else if b == p {
                    assert(u[a] == o[x]);
                } else {
                    assert(u[a] == o[x] && u[b] == o[y]);
                    assert(comes_before(keys@, o[x], o[y]));
                }
            }
            assert forall|a: int, b: int|
                0 <= a < u.len() && 0 <= b < u.len() && a != b implies u[a] != u[b] by {
                let x = if a < p {
                    a
                } else {
                    a - 1
                };
                let y = if b < p {
                    b
                } else {
                    b - 1
                };
                if a == p {
                    assert(u[b] == o[y]);
                } else if b == p {
                    assert(u[a] == o[x]);
                } else {
                    assert(u[a] == o[x] && u[b] == o[y]);
                }
            }
            assert forall|a: int| 0 <= a < u.len() implies (#[trigger] u[a]) < k + 1 by {
                if a < p {
                    assert(u[a] == o[a]);
                } else if a > p {
                    assert(u[a] == o[a - 1]);
                }
            }
        }
        k += 1;
    }
    out
}

/// There is one order by keys.
pub proof fn order_is_unique(keys: Seq<(u64, u64)>, a: Seq<usize>, b: Seq<usize>)
    requires
        keys.len() <= usize::MAX,
        is_order_by(keys, a),
        is_order_by(keys, b),
    ensures
        a == b,
{
    assert forall|i: int| 0 <= i < a.len() implies a[i] == b[i] by {
        orders_agree(keys, a, b, i);
    }
    assert(a =~= b);
}

proof fn orders_agree(keys: Seq<(u64, u64)>, a: Seq<usize>, b: Seq<usize>, i: int)
    requires
        keys.len() <= usize::MAX,
        is_order_by(keys, a),
        is_order_by(keys, b),
        0 <= i < a.len(),
    ensures
        forall|k: int| 0 <= k <= i ==> a[k] == b[k],
    decreases i,
{
    if i > 0 {
        orders_agree(keys, a, b, i - 1);
    }
    if a[i] != b[i] {
        place_is_there(a, keys.len(), b[i]);
        place_is_there(b, keys.len(), a[i]);
        let m = choose|m: int| 0 <= m < a.len() && a[m] == b[i];
        let l = choose|l: int| 0 <= l < b.len() && b[l] == a[i];
        if m < i {
            assert(a[m] == b[m]);
        }
        if l < i {
            assert(a[l] == b[l]);
        }
        assert(comes_before(keys, a[i], a[m]));
        assert(comes_before(keys, b[i], b[l]));
    }
}

/// An arrangement holds every place.
pub proof fn place_is_there(order: Seq<usize>, n: nat, k: usize)
    requires
        n <= usize::MAX,
        is_arrangement(order, n),
        k < n,
    ensures
        order.contains(k),
{
    let all = Set::new(|x: usize| x < n);
    let mine = order.to_set();
    places_below(n);
    order.unique_seq_to_set();
    assert(mine.subset_of(all)) by {
        assert forall|x: usize| mine.contains(x) implies all.contains(x) by {
            let i = choose|i: int| 0 <= i < order.len() && order[i] == x;
        }
    }
    vstd::set_lib::lemma_subset_equality(mine, all);
    assert(mine.contains(k));
}

proof fn places_below(n: nat)
    requires
        n <= usize::MAX,
    ensures
        Set::new(|x: usize| x < n).finite(),
        Set::new(|x: usize| x < n).len() == n,
    decreases n,
{
    let s = Set::new(|x: usize| x < n);
    if n == 0 {
        assert(s =~= Set::<usize>::empty());
    } else {
        places_below((n - 1) as nat);
        let r = Set::new(|x: usize| x < (n - 1) as nat);
        assert(s =~= r.insert((n - 1) as usize));
    }
}

} // verus!
