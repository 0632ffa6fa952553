//! Sorting by numbers.
use crate::double::Double;
use crate::float::{f_less, less};
use vstd::prelude::*;

verus! {

/// The index `k` put into a sorted list, behind everything whose key is not above
/// its own.
pub open spec fn put_index(sorted: Seq<usize>, keys: Seq<Double>, k: usize) -> Seq<usize>
    decreases sorted.len(),
{
    if sorted.len() > 0 && f_less(keys[k as int], keys[sorted.last() as int]) {
        put_index(sorted.drop_last(), keys, k).push(sorted.last())
    } else {
        sorted.push(k)
    }
}

/// The first `n` indices in the order of their keys; indices with the same key keep
/// their order.
pub open spec fn sorted_indices(keys: Seq<Double>, n: nat) -> Seq<usize>
    decreases n,
{
    if n == 0 {
        Seq::empty()
    } else {
        put_index(sorted_indices(keys, (n - 1) as nat), keys, (n - 1) as usize)
    }
}

/// `a` stands before `b` by its key, or by its index where the keys are the same.
pub open spec fn comes_first(keys: Seq<Double>, a: usize, b: usize) -> bool {
    keys[a as int].key() < keys[b as int].key() || (keys[a as int].key() == keys[b as int].key()
        && a < b)
}

proof fn lemma_put(sorted: Seq<usize>, keys: Seq<Double>, k: usize)
    requires
        k < keys.len(),
        forall|i: int| 0 <= i < sorted.len() ==> (#[trigger] sorted[i]) < k,
        forall|i: int| 0 <= i < keys.len() ==> !(#[trigger] keys[i]).is_nan(),
        forall|i: int, j: int|
            0 <= i < j < sorted.len() ==> comes_first(keys, #[trigger] sorted[i], #[trigger] sorted[j]),
    ensures
        put_index(sorted, keys, k).len() == sorted.len() + 1,
        forall|i: int|
            0 <= i < sorted.len() + 1 ==> (#[trigger] put_index(sorted, keys, k)[i]) <= k,
        forall|i: int, j: int|
            0 <= i < j < sorted.len() + 1 ==> comes_first(
                keys,
                #[trigger] put_index(sorted, keys, k)[i],
                #[trigger] put_index(sorted, keys, k)[j],
            ),
        forall|x: usize|
            sorted.contains(x) || x == k ==> #[trigger] put_index(sorted, keys, k).contains(x),
        forall|i: int|
            0 <= i < sorted.len() + 1 ==> sorted.contains(#[trigger] put_index(sorted, keys, k)[i])
                || put_index(sorted, keys, k)[i] == k,
    decreases sorted.len(),
{
    let out = put_index(sorted, keys, k);
    if sorted.len() > 0 && f_less(keys[k as int], keys[sorted.last() as int]) {
        let rest = sorted.drop_last();
        let last = sorted.last();
        lemma_put(rest, keys, k);
        let inner = put_index(rest, keys, k);
        assert(out =~= inner.push(last));
        assert forall|i: int| 0 <= i < out.len() implies sorted.contains(#[trigger] out[i])
            || out[i] == k by {
            if i < inner.len() {
                assert(out[i] == inner[i]);
                if inner[i] != k {
                    let p = choose|p: int| 0 <= p < rest.len() && rest[p] == inner[i];
                    assert(sorted[p] == inner[i]);
                }
            } else {
                assert(sorted[sorted.len() - 1] == out[i]);
            }
        }
        assert forall|i: int, j: int| 0 <= i < j < out.len() implies comes_first(
            keys,
            #[trigger] out[i],
            #[trigger] out[j],
        ) by {
            assert(out[i] == inner[i]);
            if j < inner.len() {
                assert(out[j] == inner[j]);
            } else if inner[i] != k {
                assert(rest.contains(inner[i]));
                let p = choose|p: int| 0 <= p < rest.len() && rest[p] == inner[i];
                assert(sorted[p] == inner[i]);
                assert(comes_first(keys, sorted[p], sorted[sorted.len() - 1]));
            }
        }
        assert forall|x: usize| sorted.contains(x) || x == k implies #[trigger] out.contains(x) by {
            if x == last {
                assert(out[out.len() - 1] == x);
            } else {
                if x != k {
                    let p = choose|p: int| 0 <= p < sorted.len() && sorted[p] == x;
                    assert(rest[p] == x);
                }
                assert(inner.contains(x));
                let p = choose|p: int| 0 <= p < inner.len() && inner[p] == x;
                assert(out[p] == x);
            }
        }
    } else {
        assert(out =~= sorted.push(k));
        assert forall|i: int| 0 <= i < out.len() implies sorted.contains(#[trigger] out[i])
            || out[i] == k by {
            if i < sorted.len() {
                assert(sorted[i] == out[i]);
            }
        }
        assert forall|i: int, j: int| 0 <= i < j < out.len() implies comes_first(
            keys,
            #[trigger] out[i],
            #[trigger] out[j],
        ) by {
            assert(out[i] == sorted[i]);
            if j == sorted.len() {
                let last = sorted.len() - 1;
                assert(keys[sorted[last] as int].key() <= keys[k as int].key());
                if i < last {
                    assert(comes_first(keys, sorted[i], sorted[last]));
                }
            }
        }
        assert forall|x: usize| sorted.contains(x) || x == k implies #[trigger] out.contains(x) by {
            if x == k {
                assert(out[out.len() - 1] == x);
            } else {
                let p = choose|p: int| 0 <= p < sorted.len() && sorted[p] == x;
                assert(out[p] == x);
            }
        }
    }
}

/// Where no key is NaN, sorting gives every index once, in the order of the keys,
/// and indices with the same key in their own order.
pub proof fn law_sorted(keys: Seq<Double>, n: nat)
    requires
        n <= keys.len(),
        keys.len() <= usize::MAX,
        forall|i: int| 0 <= i < keys.len() ==> !(#[trigger] keys[i]).is_nan(),
    ensures
        sorted_indices(keys, n).len() == n,
        forall|i: int| 0 <= i < n ==> (#[trigger] sorted_indices(keys, n)[i]) < n,
        forall|x: usize| x < n ==> #[trigger] sorted_indices(keys, n).contains(x),
        forall|i: int, j: int|
            0 <= i < j < n ==> comes_first(
                keys,
                #[trigger] sorted_indices(keys, n)[i],
                #[trigger] sorted_indices(keys, n)[j],
            ),
    decreases n,
{
    if n > 0 {
        law_sorted(keys, (n - 1) as nat);
        lemma_put(sorted_indices(keys, (n - 1) as nat), keys, (n - 1) as usize);
    }
}

proof fn lemma_indices_in_range(keys: Seq<Double>, n: nat)
    requires
        n <= keys.len(),
        keys.len() <= usize::MAX,
    ensures
        sorted_indices(keys, n).len() == n,
        forall|i: int| 0 <= i < n ==> (#[trigger] sorted_indices(keys, n)[i]) < n,
    decreases n,
{
    if n > 0 {
        lemma_indices_in_range(keys, (n - 1) as nat);
        lemma_put_range(sorted_indices(keys, (n - 1) as nat), keys, (n - 1) as usize);
    }
}

proof fn lemma_put_range(sorted: Seq<usize>, keys: Seq<Double>, k: usize)
    requires
        forall|i: int| 0 <= i < sorted.len() ==> (#[trigger] sorted[i]) < k,
    ensures
        put_index(sorted, keys, k).len() == sorted.len() + 1,
        forall|i: int|
            0 <= i < sorted.len() + 1 ==> (#[trigger] put_index(sorted, keys, k)[i]) <= k,
    decreases sorted.len(),
{
    if sorted.len() > 0 && f_less(keys[k as int], keys[sorted.last() as int]) {
        let rest = sorted.drop_last();
        lemma_put_range(rest, keys, k);
        assert(sorted[sorted.len() - 1] < k);
    }
}

/// Puts the index `k` into a sorted list.
fn insert_index(sorted: &mut Vec<usize>, keys: &Vec<Double>, k: usize)
    requires
        k < keys.len(),
        forall|i: int| 0 <= i < old(sorted).len() ==> (#[trigger] old(sorted)@[i]) < keys.len(),
    ensures
        final(sorted)@ == put_index(old(sorted)@, keys@, k),
{
    let ghost start = sorted@;
    let mut n: usize = sorted.len();
    assert(start.take(n as int) =~= start);
    assert(put_index(start, keys@, k) =~= put_index(start.take(n as int), keys@, k) + start.skip(
        n as int,
    ));
    while n > 0 && less(keys[k], keys[sorted[n - 1]])
        invariant
            n <= sorted.len(),
            k < keys.len(),
            sorted@ == start,
            forall|i: int| 0 <= i < start.len() ==> (#[trigger] start[i]) < keys.len(),
            put_index(start, keys@, k) == put_index(start.take(n as int), keys@, k) + start.skip(
                n as int,
            ),
        decreases n,
    {
        proof {
            let here = start.take(n as int);
            assert(here.last() == start[n - 1]);
            assert(here.drop_last() =~= start.take(n - 1));
            let inner = put_index(start.take(n - 1), keys@, k);
            assert(inner.push(start[n - 1]) + start.skip(n as int) =~= inner + start.skip(n - 1));
        }
        n -= 1;
    }
    sorted.insert(n, k);
    assert(sorted@ =~= start.take(n as int).push(k) + start.skip(n as int));
    proof {
        if n > 0 {
            assert(start.take(n as int).last() == start[n - 1]);
        }
    }
}

/// The indices of `keys` in the order of the keys.
pub fn sort_indices(keys: &Vec<Double>) -> (r: Vec<usize>)
    ensures
        r@ == sorted_indices(keys@, keys@.len()),
        r.len() == keys.len(),
        forall|i: int| 0 <= i < r.len() ==> (#[trigger] r@[i]) < keys.len(),
{
    let mut out: Vec<usize> = Vec::new();
    let mut k: usize = 0;
    assert(keys.len() == keys@.len());
    while k < keys.len()
        invariant
            k <= keys.len(),
            keys.len() == keys@.len(),
            out@ == sorted_indices(keys@, k as nat),
        decreases keys.len() - k,
    {
        proof {
            lemma_indices_in_range(keys@, k as nat);
        }
        insert_index(&mut out, keys, k);
        k += 1;
    }
    proof {
        lemma_indices_in_range(keys@, keys@.len());
    }
    out
}

} // verus!
