//! Grouping a list of records by a key: the counting sort behind a Compressed Sparse Row index.

use vstd::prelude::*;

verus! {

/// The places in `keys` that hold `key`, in order.
pub open spec fn places(keys: Seq<u32>, key: int) -> Seq<int>
    decreases keys.len(),
{
    if keys.len() == 0 {
        Seq::empty()
    } else {
        let before = places(keys.drop_last(), key);
        if keys.last() == key {
            before.push(keys.len() - 1)
        } else {
            before
        }
    }
}

/// How many of `keys` are below `key`.
pub open spec fn below(keys: Seq<u32>, key: int) -> nat
    decreases keys.len(),
{
    if keys.len() == 0 {
        0
    } else {
        below(keys.drop_last(), key) + if keys.last() < key {
            1nat
        } else {
            0nat
        }
    }
}

/// Every place that `places` lists is in range and holds the key, and the list is increasing.
pub proof fn lemma_places(keys: Seq<u32>, key: int)
    ensures
        places(keys, key).len() <= keys.len(),
        forall|j: int|
            0 <= j < places(keys, key).len() ==> 0 <= #[trigger] places(keys, key)[j] < keys.len()
                && keys[places(keys, key)[j]] == key,
        forall|i: int, j: int|
            0 <= i < j < places(keys, key).len() ==> #[trigger] places(keys, key)[i]
                < #[trigger] places(keys, key)[j],
    decreases keys.len(),
{
    if keys.len() > 0 {
        lemma_places(keys.drop_last(), key);
    }
}

pub proof fn lemma_below_step(keys: Seq<u32>, key: int)
    ensures
        below(keys, key + 1) == below(keys, key) + places(keys, key).len(),
    decreases keys.len(),
{
    if keys.len() > 0 {
        lemma_below_step(keys.drop_last(), key);
    }
}

pub proof fn lemma_below_ends(keys: Seq<u32>, n: int)
    requires
        forall|k: int| 0 <= k < keys.len() ==> #[trigger] keys[k] < n,
    ensures
        below(keys, 0) == 0,
        below(keys, n) == keys.len(),
    decreases keys.len(),
{
    if keys.len() > 0 {
        lemma_below_ends(keys.drop_last(), n);
    }
}

pub proof fn lemma_below_monotone(keys: Seq<u32>, a: int, b: int)
    requires
        a <= b,
    ensures
        below(keys, a) <= below(keys, b) <= keys.len(),
    decreases keys.len(),
{
    if keys.len() > 0 {
        lemma_below_monotone(keys.drop_last(), a, b);
    }
}

/// A grouped layout of `keys`: group `i` is `order[offsets[i]..offsets[i + 1]]`, and it lists the
/// places that hold key `i`, in order.
pub open spec fn is_layout(keys: Seq<u32>, n: int, offsets: Seq<u32>, order: Seq<usize>) -> bool {
    &&& offsets.len() == n + 1
    &&& order.len() == keys.len()
    &&& forall|i: int| 0 <= i <= n ==> #[trigger] offsets[i] == below(keys, i)
    &&& forall|i: int, j: int|
        0 <= i < n && 0 <= j < places(keys, i).len() ==> #[trigger] order[below(keys, i) + j]
            == #[trigger] places(keys, i)[j]
}

/// How often each key occurs.
pub fn count_keys(keys: &Vec<u32>, n: usize) -> (counts: Vec<u32>)
    requires
        keys@.len() <= u32::MAX,
        forall|k: int| 0 <= k < keys@.len() ==> #[trigger] keys@[k] < n,
    ensures
        counts@.len() == n,
        forall|i: int| 0 <= i < n ==> #[trigger] counts@[i] == places(keys@, i).len(),
{
    let mut counts: Vec<u32> = vec![0u32; n];
    let mut k: usize = 0;
    while k < keys.len()
        invariant
            k <= keys@.len() <= u32::MAX,
            counts@.len() == n,
            forall|k: int| 0 <= k < keys@.len() ==> #[trigger] keys@[k] < n,
            forall|i: int|
                0 <= i < n ==> #[trigger] counts@[i] == places(keys@.take(k as int), i).len(),
        decreases keys@.len() - k,
    {
        let key: usize = keys[k] as usize;
        proof {
            assert(keys@.take(k + 1).drop_last() =~= keys@.take(k as int));
            lemma_places(keys@.take(k as int), key as int);
        }
        let c: u32 = counts[key];
        counts.set(key, c + 1);
        k += 1;
    }
    proof {
        assert(keys@.take(k as int) =~= keys@);
    }
    counts
}

/// Groups the places of `keys` by key, keeping their order within each group.
pub fn group_by_key(keys: &Vec<u32>, n: usize) -> (r: (Vec<u32>, Vec<usize>))
    requires
        keys@.len() <= u32::MAX,
        n < u32::MAX,
        forall|k: int| 0 <= k < keys@.len() ==> #[trigger] keys@[k] < n,
    ensures
        is_layout(keys@, n as int, r.0@, r.1@),
{
    let counts = count_keys(keys, n);
    let mut offsets: Vec<u32> = Vec::new();
    proof {
        lemma_below_ends(keys@, n as int);
    }
    offsets.push(0);
    let mut i: usize = 0;
    while i < n
        invariant
            i <= n < u32::MAX,
            keys@.len() <= u32::MAX,
            counts@.len() == n,
            forall|i: int| 0 <= i < n ==> #[trigger] counts@[i] == places(keys@, i).len(),
            offsets@.len() == i + 1,
            forall|j: int| 0 <= j <= i ==> #[trigger] offsets@[j] == below(keys@, j),
        decreases n - i,
    {
        proof {
            lemma_below_step(keys@, i as int);
            lemma_below_monotone(keys@, i + 1, i + 1);
        }
        let start: u32 = offsets[i];
        offsets.push(start + counts[i]);
        i += 1;
    }
    let m: usize = keys.len();
    let mut order: Vec<usize> = vec![0usize; m];
    let mut cursor: Vec<u32> = offsets.clone();
    let mut k: usize = 0;
    proof {
        assert(cursor@ =~= offsets@);
        assert forall|i: int| 0 <= i < n implies #[trigger] cursor@[i] == below(keys@, i) + places(
            keys@.take(0),
            i,
        ).len() by {}
    }
    while k < m
        invariant
            k <= m == keys@.len() <= u32::MAX,
            n < u32::MAX,
            order@.len() == m,
            cursor@.len() == n + 1,
            forall|k: int| 0 <= k < keys@.len() ==> #[trigger] keys@[k] < n,
            forall|i: int|
                0 <= i < n ==> #[trigger] cursor@[i] == below(keys@, i) + places(
                    keys@.take(k as int),
                    i,
                ).len(),
            forall|i: int, j: int|
                0 <= i < n && 0 <= j < places(keys@.take(k as int), i).len()
                    ==> #[trigger] order@[below(keys@, i) + j] == #[trigger] places(
                    keys@.take(k as int),
                    i,
                )[j],
        decreases m - k,
    {
        let key: usize = keys[k] as usize;
        let pos: usize = cursor[key] as usize;
        let ghost done = keys@.take(k as int);
        let ghost next = keys@.take(k + 1);
        proof {
            assert(next.drop_last() =~= done);
            lemma_places_grow(keys@, k as int, key as int);
            lemma_places_prefix(keys@, k + 1, key as int);
            lemma_below_step(keys@, key as int);
            lemma_below_monotone(keys@, key + 1, key + 1);
        }
        let ghost before = order@;
        order.set(pos, k);
        cursor.set(key, (pos + 1) as u32);
        proof {
            assert forall|i: int, j: int|
                0 <= i < n && 0 <= j < places(next, i).len() implies #[trigger] order@[below(
                keys@,
                i,
            ) + j] == #[trigger] places(next, i)[j] by {
                lemma_places_prefix(keys@, k as int, i);
                lemma_places_prefix(keys@, k + 1, i);
                lemma_below_step(keys@, i);
                lemma_below_monotone(keys@, i + 1, i + 1);
                assert(next.last() == key);
                if i < key {
                    lemma_below_monotone(keys@, i + 1, key as int);
                    assert(places(next, i) == places(done, i));
                    assert(before[below(keys@, i) + j] == places(done, i)[j]);
                } else if i > key {
                    lemma_below_monotone(keys@, key + 1, i);
                    assert(places(next, i) == places(done, i));
                    assert(before[below(keys@, i) + j] == places(done, i)[j]);
                } else if j < places(done, i).len() {
                    assert(before[below(keys@, i) + j] == places(done, i)[j]);
                }
            }
        }
        k += 1;
    }
    proof {
        assert(keys@.take(k as int) =~= keys@);
    }
    (offsets, order)
}

/// The list of a longer prefix extends that of a shorter one.
proof fn lemma_places_prefix(keys: Seq<u32>, k: int, key: int)
    requires
        0 <= k <= keys.len(),
    ensures
        places(keys.take(k), key).len() <= places(keys, key).len(),
    decreases keys.len() - k,
{
    if k < keys.len() {
        assert(keys.take(k + 1).drop_last() =~= keys.take(k));
        lemma_places_prefix(keys, k + 1, key);
    } else {
        assert(keys.take(k) =~= keys);
    }
}

proof fn lemma_places_grow(keys: Seq<u32>, k: int, key: int)
    requires
        0 <= k < keys.len(),
        keys[k] == key,
    ensures
        places(keys.take(k + 1), key) == places(keys.take(k), key).push(k),
{
    assert(keys.take(k + 1).drop_last() =~= keys.take(k));
}

} // verus!
