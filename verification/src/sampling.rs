//! The top-k cut of sampling, on keys that order the candidate tokens as their
//! probabilities do: a candidate stays when fewer than `k` candidates (at least
//! one place is always kept) are strictly above it, so that every candidate
//! tied with the `k`-th highest stays as well.
use vstd::prelude::*;

verus! {

/// How many keys of `keys` are strictly greater than `x`.
pub open spec fn count_greater(keys: Seq<u32>, x: u32) -> nat
    decreases keys.len(),
{
    if keys.len() == 0 {
        0
    } else {
        count_greater(keys.drop_last(), x) + if keys.last() > x {
            1nat
        } else {
            0nat
        }
    }
}

/// The place, counted from the highest key and from 0, of the threshold key of a
/// top-`k` cut over `n` keys: place `k - 1`, or 0 when `k` is 0, and at most `n - 1`.
pub open spec fn top_k_place(n: int, k: int) -> int {
    let want = if k == 0 {
        0
    } else {
        k - 1
    };
    if want < n - 1 {
        want
    } else {
        n - 1
    }
}

/// Whether the candidate with key `x` survives the top-`k` cut over `keys`.
pub open spec fn kept_by_top_k(keys: Seq<u32>, k: int, x: u32) -> bool {
    count_greater(keys, x) <= top_k_place(keys.len() as int, k)
}

/// For each candidate, whether it survives the top-`k` cut: whether its key is at
/// least the key at place `k - 1` (place 0 for `k == 0`, the last place when `k`
/// exceeds the number of candidates) among the keys from the highest down.
pub fn top_k_keep(keys: &[u32], k: usize) -> (keep: Vec<bool>)
    requires
        keys@.len() > 0,
    ensures
        keep@.len() == keys@.len(),
        forall|i: int| 0 <= i < keys@.len() ==> #[trigger] keep@[i] == kept_by_top_k(keys@, k as int, keys@[i]),
{
    let n = keys.len();
    let want = if k == 0 {
        0
    } else {
        k - 1
    };
    let place = if want < n - 1 {
        want
    } else {
        n - 1
    };
    let mut keep: Vec<bool> = Vec::with_capacity(n);
    let mut i: usize = 0;
    while i < n
        invariant
            n == keys@.len(),
            place == top_k_place(n as int, k as int),
            i <= n,
            keep@.len() == i,
            forall|m: int| 0 <= m < i ==> #[trigger] keep@[m] == kept_by_top_k(keys@, k as int, keys@[m]),
        decreases n - i,
    {
        let x = keys[i];
        let mut greater: usize = 0;
        let mut j: usize = 0;
        while j < n
            invariant
                n == keys@.len(),
                j <= n,
                greater <= j,
                greater == count_greater(keys@.take(j as int), x),
            decreases n - j,
        {
            assert(keys@.take(j + 1).drop_last() =~= keys@.take(j as int));
            if keys[j] > x {
                greater = greater + 1;
            }
            j = j + 1;
        }
        assert(keys@.take(n as int) =~= keys@);
        keep.push(greater <= place);
        i = i + 1;
    }
    keep
}

/// The highest key always survives the cut, so at least one candidate stays.
pub proof fn lemma_top_key_kept(keys: Seq<u32>, k: int, i: int)
    requires
        0 <= k,
        0 <= i < keys.len(),
        forall|j: int| 0 <= j < keys.len() ==> keys[j] <= keys[i],
    ensures
        kept_by_top_k(keys, k, keys[i]),
{
    lemma_count_greater_of_max(keys, keys[i]);
}

proof fn lemma_count_greater_of_max(keys: Seq<u32>, x: u32)
    requires
        forall|j: int| 0 <= j < keys.len() ==> keys[j] <= x,
    ensures
        count_greater(keys, x) == 0,
    decreases keys.len(),
{
    if keys.len() > 0 {
        lemma_count_greater_of_max(keys.drop_last(), x);
    }
}

/// A larger key is above fewer keys.
proof fn lemma_count_greater_monotone(keys: Seq<u32>, x: u32, y: u32)
    requires
        x <= y,
    ensures
        count_greater(keys, y) <= count_greater(keys, x),
    decreases keys.len(),
{
    if keys.len() > 0 {
        lemma_count_greater_monotone(keys.drop_last(), x, y);
    }
}

/// The survivors of the cut are closed upward: a candidate whose key is at least
/// that of a survivor survives too.
pub proof fn lemma_top_k_upward_closed(keys: Seq<u32>, k: int, x: u32, y: u32)
    requires
        kept_by_top_k(keys, k, x),
        x <= y,
    ensures
        kept_by_top_k(keys, k, y),
{
    lemma_count_greater_monotone(keys, x, y);
}

/// A key is above fewer keys than any smaller key that it is above.
proof fn lemma_count_greater_strict(keys: Seq<u32>, x: u32, y: u32)
    requires
        x < y,
        keys.contains(y),
    ensures
        count_greater(keys, y) + 1 <= count_greater(keys, x),
    decreases keys.len(),
{
    let rest = keys.drop_last();
    if keys.last() == y {
        lemma_count_greater_monotone(rest, x, y);
    } else {
        let i = choose|i: int| 0 <= i < keys.len() && keys[i] == y;
        assert(rest[i] == y);
        lemma_count_greater_strict(rest, x, y);
    }
}

/// With distinct keys, at most `max(k, 1)` candidates survive the top-`k` cut:
/// no survivor lies below the `k` highest.
pub proof fn lemma_top_k_survivors_bound(keys: Seq<u32>, k: int)
    requires
        keys.no_duplicates(),
        keys.len() > 0,
        k >= 0,
    ensures
        ({
            let survivors = Set::new(
                |i: int| 0 <= i < keys.len() && kept_by_top_k(keys, k, keys[i]),
            );
            &&& survivors.finite()
            &&& survivors.len() <= top_k_place(keys.len() as int, k) + 1
            &&& survivors.len() <= if k == 0 {
                1
            } else {
                k
            }
        }),
{
    let n = keys.len() as int;
    let m = top_k_place(n, k);
    let survivors = Set::new(|i: int| 0 <= i < n && kept_by_top_k(keys, k, keys[i]));
    vstd::set_lib::lemma_int_range(0, n);
    assert(survivors.subset_of(vstd::set_lib::set_int_range(0, n)));
    vstd::set_lib::lemma_len_subset(survivors, vstd::set_lib::set_int_range(0, n));
    let f = |i: int| count_greater(keys, keys[i]) as int;
    assert(vstd::relations::injective_on(f, survivors)) by {
        assert forall|a: int, b: int|
            survivors.contains(a) && survivors.contains(b) && #[trigger] f(a) == #[trigger] f(b)
            implies a == b by {
            if a != b {
                assert(keys[a] != keys[b]);
                if keys[a] < keys[b] {
                    assert(keys.contains(keys[b]));
                    lemma_count_greater_strict(keys, keys[a], keys[b]);
                } else {
                    assert(keys.contains(keys[a]));
                    lemma_count_greater_strict(keys, keys[b], keys[a]);
                }
            }
        }
    }
    vstd::set_lib::lemma_map_size(survivors, survivors.map(f), f);
    vstd::set_lib::lemma_int_range(0, m + 1);
    assert(survivors.map(f).subset_of(vstd::set_lib::set_int_range(0, m + 1)));
    vstd::set_lib::lemma_len_subset(survivors.map(f), vstd::set_lib::set_int_range(0, m + 1));
}

/// With distinct keys, exactly `min(max(k, 1), n)` of the `n` candidates survive
/// the top-`k` cut: the `k` highest (the highest alone when `k` is 0, all of them
/// when `k` is at least `n`).
pub proof fn lemma_top_k_survivors_exact(keys: Seq<u32>, k: int)
    requires
        keys.no_duplicates(),
        keys.len() > 0,
        k >= 0,
    ensures
        ({
            let n = keys.len() as int;
            let survivors = Set::new(
                |i: int| 0 <= i < n && kept_by_top_k(keys, k, keys[i]),
            );
            &&& survivors.finite()
            &&& survivors.len() == if k == 0 {
                1
            } else if k < n {
                k
            } else {
                n
            }
        }),
{
    let n = keys.len() as int;
    let m = top_k_place(n, k);
    let all = vstd::set_lib::set_int_range(0, n);
    let survivors = Set::new(|i: int| 0 <= i < n && kept_by_top_k(keys, k, keys[i]));
    let f = |i: int| count_greater(keys, keys[i]) as int;
    vstd::set_lib::lemma_int_range(0, n);
    assert(vstd::relations::injective_on(f, all)) by {
        assert forall|a: int, b: int|
            all.contains(a) && all.contains(b) && #[trigger] f(a) == #[trigger] f(b)
            implies a == b by {
            if a != b {
                assert(keys[a] != keys[b]);
                if keys[a] < keys[b] {
                    assert(keys.contains(keys[b]));
                    lemma_count_greater_strict(keys, keys[a], keys[b]);
                } else {
                    assert(keys.contains(keys[a]));
                    lemma_count_greater_strict(keys, keys[b], keys[a]);
                }
            }
        }
    }
    // Each key is above at most the other `n - 1` keys, so the counts fill `0 .. n`.
    assert(all.map(f).subset_of(all)) by {
        assert forall|y: int| all.map(f).contains(y) implies all.contains(y) by {
            let i = choose|i: int| all.contains(i) && f(i) == y;
            lemma_count_greater_remove(keys, i, keys[i]);
            lemma_count_greater_at_most_len(keys.remove(i), keys[i]);
        }
    }
    vstd::set_lib::lemma_map_size(all, all.map(f), f);
    vstd::set_lib::lemma_subset_equality(all.map(f), all);
    assert(survivors.subset_of(all));
    vstd::set_lib::lemma_len_subset(survivors, all);
    assert(vstd::relations::injective_on(f, survivors));
    let low = vstd::set_lib::set_int_range(0, m + 1);
    assert(survivors.map(f) =~= low) by {
        assert forall|y: int| low.contains(y) implies survivors.map(f).contains(y) by {
            assert(all.map(f).contains(y));
            let i = choose|i: int| all.contains(i) && f(i) == y;
            assert(survivors.contains(i));
        }
    }
    vstd::set_lib::lemma_map_size(survivors, low, f);
    vstd::set_lib::lemma_int_range(0, m + 1);
}

/// Keys laid one after the other are above `x` as often as both parts together.
proof fn lemma_count_greater_concat(a: Seq<u32>, b: Seq<u32>, x: u32)
    ensures
        count_greater(a + b, x) == count_greater(a, x) + count_greater(b, x),
    decreases b.len(),
{
    if b.len() == 0 {
        assert(a + b =~= a);
    } else {
        lemma_count_greater_concat(a, b.drop_last(), x);
        assert((a + b).drop_last() =~= a + b.drop_last());
        assert((a + b).last() == b.last());
    }
}

/// Removing the key at `i` takes it out of the count.
proof fn lemma_count_greater_remove(t: Seq<u32>, i: int, x: u32)
    requires
        0 <= i < t.len(),
    ensures
        count_greater(t, x) == count_greater(t.remove(i), x) + if t[i] > x {
            1nat
        } else {
            0nat
        },
{
    let front = t.take(i);
    let back = t.skip(i + 1);
    assert(t =~= front + seq![t[i]] + back);
    assert(t.remove(i) =~= front + back);
    lemma_count_greater_concat(front + seq![t[i]], back, x);
    lemma_count_greater_concat(front, seq![t[i]], x);
    lemma_count_greater_concat(front, back, x);
    let single = seq![t[i]];
    assert(single.drop_last() =~= Seq::<u32>::empty());
    assert(single.last() == t[i]);
    assert(count_greater(Seq::<u32>::empty(), x) == 0);
    assert(count_greater(single, x) == if t[i] > x {
        1nat
    } else {
        0nat
    });
}

/// The count does not depend on the order of the keys.
proof fn lemma_count_greater_permutation(s: Seq<u32>, t: Seq<u32>, x: u32)
    requires
        s.to_multiset() == t.to_multiset(),
    ensures
        count_greater(s, x) == count_greater(t, x),
    decreases s.len(),
{
    broadcast use vstd::seq_lib::to_multiset_contains, vstd::seq_lib::to_multiset_remove;

    if s.len() == 0 {
        vstd::seq_lib::to_multiset_len(s);
        vstd::seq_lib::to_multiset_len(t);
        assert(t.len() == 0);
    } else {
        let a = s.last();
        assert(s.contains(a)) by {
            assert(s[s.len() - 1] == a);
        }
        assert(s.to_multiset().count(a) > 0);
        assert(t.contains(a));
        let i = choose|i: int| 0 <= i < t.len() && t[i] == a;
        assert(s.remove(s.len() - 1) =~= s.drop_last());
        assert(s.drop_last().to_multiset() == s.to_multiset().remove(a));
        assert(t.remove(i).to_multiset() == t.to_multiset().remove(a));
        lemma_count_greater_permutation(s.drop_last(), t.remove(i), x);
        lemma_count_greater_remove(t, i, x);
    }
}

/// No more keys are above `x` than there are keys.
proof fn lemma_count_greater_at_most_len(s: Seq<u32>, x: u32)
    ensures
        count_greater(s, x) <= s.len(),
    decreases s.len(),
{
    if s.len() > 0 {
        lemma_count_greater_at_most_len(s.drop_last(), x);
    }
}

/// Every key is above `x`, so all of them count.
proof fn lemma_count_greater_all(s: Seq<u32>, x: u32)
    requires
        forall|j: int| 0 <= j < s.len() ==> s[j] > x,
    ensures
        count_greater(s, x) == s.len(),
    decreases s.len(),
{
    if s.len() > 0 {
        lemma_count_greater_all(s.drop_last(), x);
    }
}

/// Keys sorted from the highest down.
pub open spec fn is_sorted_descending(d: Seq<u32>) -> bool {
    forall|i: int, j: int| 0 <= i <= j < d.len() ==> d[i] >= d[j]
}

/// The cut keeps exactly the candidates whose key is at least the threshold key:
/// the key at place `top_k_place(n, k)` once the keys are sorted from the highest
/// down, as a sort of the probabilities would find it.
pub proof fn lemma_top_k_is_sorted_threshold(keys: Seq<u32>, k: int, sorted: Seq<u32>, x: u32)
    requires
        keys.len() > 0,
        k >= 0,
        sorted.to_multiset() == keys.to_multiset(),
        is_sorted_descending(sorted),
    ensures
        sorted.len() == keys.len(),
        kept_by_top_k(keys, k, x) <==> x >= sorted[top_k_place(keys.len() as int, k)],
{
    vstd::seq_lib::to_multiset_len(sorted);
    vstd::seq_lib::to_multiset_len(keys);
    assert(sorted.len() == keys.len());
    let m = top_k_place(keys.len() as int, k);
    lemma_count_greater_permutation(keys, sorted, x);
    let front = sorted.take(m);
    let back = sorted.skip(m);
    assert(sorted =~= front + back);
    lemma_count_greater_concat(front, back, x);
    if x >= sorted[m] {
        lemma_count_greater_at_most_len(front, x);
        assert(count_greater(back, x) == 0) by {
            lemma_count_greater_of_max(back, x);
        }
    } else {
        let upto = sorted.take(m + 1);
        let after = sorted.skip(m + 1);
        assert(sorted =~= upto + after);
        lemma_count_greater_concat(upto, after, x);
        lemma_count_greater_all(upto, x);
    }
}

} // verus!
