//! Stable ordering of positions by key.

use vstd::prelude::*;
use vstd::relations::{sorted_by, total_ordering};
use vstd::seq_lib::lemma_sorted_unique;

verus! {

/// The relation "position `a` comes no later than `b`": by key, and by position
/// where the keys are equal.
pub open spec fn comes_first(keys: Seq<u64>) -> spec_fn(int, int) -> bool {
    |a: int, b: int| keys[a] < keys[b] || (keys[a] == keys[b] && a <= b)
}

/// The positions `from`, `from + 1`, ..., `to - 1`.
pub open spec fn positions(from: int, to: int) -> Seq<int> {
    Seq::new((to - from) as nat, |i: int| from + i)
}

/// All positions of `keys`, smallest key first, ties in their original order.
pub open spec fn stable_order(keys: Seq<u64>) -> Seq<int> {
    positions(0, keys.len() as int).sort_by(comes_first(keys))
}

proof fn lemma_comes_first_total(keys: Seq<u64>)
    ensures
        total_ordering(comes_first(keys)),
{
}

/// A stable order names every position exactly once, and never puts a larger key
/// (or, on equal keys, a later position) in front of a smaller one.
pub proof fn law_stable_order(keys: Seq<u64>)
    ensures
        stable_order(keys).len() == keys.len(),
        stable_order(keys).no_duplicates(),
        forall|i: int|
            0 <= i < keys.len() ==> 0 <= #[trigger] stable_order(keys)[i] < keys.len(),
        forall|p: int| 0 <= p < keys.len() ==> #[trigger] stable_order(keys).contains(p),
        forall|i: int, j: int|
            0 <= i < j < keys.len() ==> {
                let a = #[trigger] stable_order(keys)[i];
                let b = #[trigger] stable_order(keys)[j];
                keys[a] < keys[b] || (keys[a] == keys[b] && a < b)
            },
{
    broadcast use vstd::seq_lib::group_to_multiset_ensures;

    let all = positions(0, keys.len() as int);
    let ord = stable_order(keys);
    lemma_comes_first_total(keys);
    all.lemma_sort_by_ensures(comes_first(keys));
    assert(all.no_duplicates());
    all.lemma_multiset_has_no_duplicates();
    ord.lemma_multiset_has_no_duplicates_conv();
    assert(ord.len() == ord.to_multiset().len());
    assert(all.len() == all.to_multiset().len());
    assert forall|i: int| 0 <= i < keys.len() implies 0 <= #[trigger] ord[i] < keys.len() by {
        assert(ord.contains(ord[i]));
        assert(all.contains(ord[i]));
    }
    assert forall|p: int| 0 <= p < keys.len() implies #[trigger] ord.contains(p) by {
        assert(all[p] == p);
        assert(all.contains(p));
        assert(all.to_multiset().count(p) > 0);
    }
    assert forall|i: int, j: int| 0 <= i < j < keys.len() implies {
        let a = #[trigger] ord[i];
        let b = #[trigger] ord[j];
        keys[a] < keys[b] || (keys[a] == keys[b] && a < b)
    } by {
        assert(comes_first(keys)(ord[i], ord[j]));
    }
}

/// The positions of a vector of indices, as integers.
pub open spec fn as_positions(v: Seq<usize>) -> Seq<int> {
    v.map_values(|i: usize| i as int)
}

/// Merges two runs of positions that are each in order into one.
fn merge_runs(keys: &Vec<u64>, left: &Vec<usize>, right: &Vec<usize>) -> (out: Vec<usize>)
    requires
        sorted_by(as_positions(left@), comes_first(keys@)),
        sorted_by(as_positions(right@), comes_first(keys@)),
        forall|i: int| 0 <= i < left.len() ==> #[trigger] left@[i] < keys.len(),
        forall|i: int| 0 <= i < right.len() ==> #[trigger] right@[i] < keys.len(),
    ensures
        sorted_by(as_positions(out@), comes_first(keys@)),
        as_positions(out@).to_multiset() == as_positions(left@).to_multiset().add(
            as_positions(right@).to_multiset(),
        ),
        forall|i: int| 0 <= i < out.len() ==> #[trigger] out@[i] < keys.len(),
{
    let mut out: Vec<usize> = Vec::new();
    let mut l: usize = 0;
    let mut r: usize = 0;
    let ghost le = comes_first(keys@);
    let ghost ls = as_positions(left@);
    let ghost rs = as_positions(right@);
    proof {
        vstd::seq_lib::to_multiset_len(Seq::<int>::empty());
        assert(as_positions(out@) =~= Seq::<int>::empty());
        assert(ls.take(0) =~= Seq::<int>::empty());
        assert(rs.take(0) =~= Seq::<int>::empty());
        vstd::seq_lib::lemma_multiset_commutative(Seq::<int>::empty(), Seq::<int>::empty());
        assert(Seq::<int>::empty() + Seq::<int>::empty() =~= Seq::<int>::empty());
    }
    while l < left.len() || r < right.len()
        invariant
            l <= left.len(),
            r <= right.len(),
            le == comes_first(keys@),
            ls == as_positions(left@),
            rs == as_positions(right@),
            sorted_by(ls, le),
            sorted_by(rs, le),
            forall|i: int| 0 <= i < left.len() ==> #[trigger] left@[i] < keys.len(),
            forall|i: int| 0 <= i < right.len() ==> #[trigger] right@[i] < keys.len(),
            forall|i: int| 0 <= i < out.len() ==> #[trigger] out@[i] < keys.len(),
            sorted_by(as_positions(out@), le),
            as_positions(out@).to_multiset() == ls.take(l as int).to_multiset().add(
                rs.take(r as int).to_multiset(),
            ),
            forall|i: int, j: int|
                0 <= i < out.len() && l <= j < left.len() ==> #[trigger] le(
                    as_positions(out@)[i],
                    ls[j],
                ),
            forall|i: int, j: int|
                0 <= i < out.len() && r <= j < right.len() ==> #[trigger] le(
                    as_positions(out@)[i],
                    rs[j],
                ),
        decreases left.len() - l + right.len() - r,
    {
        let from_left: bool = if l == left.len() {
            false
        } else if r == right.len() {
            true
        } else {
            let a: usize = left[l];
            let b: usize = right[r];
            keys[a] < keys[b] || (keys[a] == keys[b] && a <= b)
        };
        let ghost before = as_positions(out@);
        if from_left {
            proof {
                assert(ls.take(l + 1) =~= ls.take(l as int).push(ls[l as int]));
                vstd::seq_lib::to_multiset_build(ls.take(l as int), ls[l as int]);
                vstd::seq_lib::to_multiset_build(before, ls[l as int]);
            }
            out.push(left[l]);
            assert(as_positions(out@) =~= before.push(ls[l as int]));
            assert(as_positions(out@).to_multiset() =~= ls.take(l + 1).to_multiset().add(
                rs.take(r as int).to_multiset(),
            ));
            proof {
                lemma_comes_first_total(keys@);
                assert forall|j: int| r <= j < right.len() implies #[trigger] le(
                    ls[l as int],
                    rs[j],
                ) by {
                    if r < j {
                        assert(le(rs[r as int], rs[j]));
                    }
                }
            }
            l = l + 1;
        } else {
            proof {
                assert(rs.take(r + 1) =~= rs.take(r as int).push(rs[r as int]));
                vstd::seq_lib::to_multiset_build(rs.take(r as int), rs[r as int]);
                vstd::seq_lib::to_multiset_build(before, rs[r as int]);
            }
            out.push(right[r]);
            assert(as_positions(out@) =~= before.push(rs[r as int]));
            assert(as_positions(out@).to_multiset() =~= ls.take(l as int).to_multiset().add(
                rs.take(r + 1).to_multiset(),
            ));
            proof {
                lemma_comes_first_total(keys@);
                assert forall|j: int| l <= j < left.len() implies #[trigger] le(
                    rs[r as int],
                    ls[j],
                ) by {
                    if l < j {
                        assert(le(ls[l as int], ls[j]));
                    }
                }
            }
            r = r + 1;
        }
    }
    assert(ls.take(left.len() as int) =~= ls);
    assert(rs.take(right.len() as int) =~= rs);
    out
}

/// The positions `from..to` of `keys`, in stable order.
fn order_range(keys: &Vec<u64>, from: usize, to: usize) -> (out: Vec<usize>)
    requires
        from <= to <= keys.len(),
    ensures
        sorted_by(as_positions(out@), comes_first(keys@)),
        as_positions(out@).to_multiset() == positions(from as int, to as int).to_multiset(),
        forall|i: int| 0 <= i < out.len() ==> #[trigger] out@[i] < keys.len(),
    decreases to - from,
{
    let mut out: Vec<usize> = Vec::new();
    if from == to {
        assert(as_positions(out@) =~= positions(from as int, to as int));
        out
    } else if to - from == 1 {
        out.push(from);
        assert(as_positions(out@) =~= positions(from as int, to as int));
        out
    } else {
        let mid: usize = from + (to - from) / 2;
        let left = order_range(keys, from, mid);
        let right = order_range(keys, mid, to);
        let merged = merge_runs(keys, &left, &right);
        proof {
            let a = positions(from as int, mid as int);
            let b = positions(mid as int, to as int);
            assert(a + b =~= positions(from as int, to as int));
            vstd::seq_lib::lemma_multiset_commutative(a, b);
        }
        merged
    }
}

/// The positions of `keys`, smallest key first; positions with equal keys keep
/// their order.
pub fn order_by_key(keys: &Vec<u64>) -> (out: Vec<usize>)
    ensures
        as_positions(out@) == stable_order(keys@),
        out.len() == keys.len(),
        forall|i: int|
            0 <= i < out.len() ==> #[trigger] out@[i] == stable_order(keys@)[i] && out@[i]
                < keys.len(),
{
    let out = order_range(keys, 0, keys.len());
    proof {
        let all = positions(0, keys.len() as int);
        lemma_comes_first_total(keys@);
        all.lemma_sort_by_ensures(comes_first(keys@));
        lemma_sorted_unique(as_positions(out@), stable_order(keys@), comes_first(keys@));
        law_stable_order(keys@);
        assert forall|i: int| 0 <= i < out.len() implies #[trigger] out@[i] == stable_order(
            keys@,
        )[i] && out@[i] < keys.len() by {
            assert(as_positions(out@)[i] == out@[i] as int);
        }
    }
    out
}

/// A filter that every item passes keeps them all.
pub proof fn lemma_filter_all<T>(s: Seq<T>, keep: spec_fn(T) -> bool)
    requires
        forall|i: int| 0 <= i < s.len() ==> keep(#[trigger] s[i]),
    ensures
        s.filter(keep) == s,
    decreases s.len(),
{
    reveal(Seq::filter);
    if s.len() > 0 {
        let before = s.drop_last();
        assert forall|i: int| 0 <= i < before.len() implies keep(#[trigger] before[i]) by {
            assert(before[i] == s[i]);
        }
        lemma_filter_all(before, keep);
        assert(keep(s[s.len() - 1]));
        assert(before.push(s.last()) =~= s);
    }
}

/// Positions that are all there and in strict order are the stable order.
proof fn lemma_order_unique(keys: Seq<u64>, ord: Seq<int>, n: nat)
    requires
        n <= keys.len(),
        ord.len() == keys.len(),
        forall|i: int| 0 <= i < ord.len() ==> 0 <= #[trigger] ord[i] < keys.len(),
        forall|p: int| 0 <= p < keys.len() ==> #[trigger] ord.contains(p),
        forall|i: int, j: int|
            0 <= i < j < ord.len() ==> {
                let a = #[trigger] ord[i];
                let b = #[trigger] ord[j];
                keys[a] < keys[b] || (keys[a] == keys[b] && a < b)
            },
    ensures
        forall|i: int| 0 <= i < n ==> #[trigger] ord[i] == stable_order(keys)[i],
    decreases n,
{
    if n > 0 {
        let k = n - 1;
        let other = stable_order(keys);
        law_stable_order(keys);
        lemma_order_unique(keys, ord, k as nat);
        assert(other.contains(ord[k]));
        assert(ord.contains(other[k]));
        let i = choose|i: int| 0 <= i < other.len() && other[i] == ord[k];
        let j = choose|j: int| 0 <= j < ord.len() && ord[j] == other[k];
        if i < k {
            assert(ord[i] == other[i]);
        } else if j < k {
            assert(ord[j] == other[j]);
        } else if i > k && j > k {
            let (a, b) = (ord[k], ord[j]);
            let (c, d) = (other[k], other[i]);
        }
    }
}

/// Leaving one position out leaves the order of the others.
pub proof fn lemma_order_without(keys: Seq<u64>, p: int, at: int)
    requires
        0 <= at < keys.len(),
        stable_order(keys)[at] == p,
    ensures
        stable_order(keys.remove(p)).len() == keys.len() - 1,
        forall|i: int|
            0 <= i < keys.len() - 1 ==> #[trigger] stable_order(keys.remove(p))[i] == ({
                let q = stable_order(keys)[if i < at {
                    i
                } else {
                    i + 1
                }];
                if q < p {
                    q
                } else {
                    q - 1
                }
            }),
{
    let all = stable_order(keys);
    let less = keys.remove(p);
    law_stable_order(keys);
    law_stable_order(less);
    let ord = Seq::new(
        (keys.len() - 1) as nat,
        |i: int|
            {
                let q = all[if i < at {
                    i
                } else {
                    i + 1
                }];
                if q < p {
                    q
                } else {
                    q - 1
                }
            },
    );
    assert forall|i: int| 0 <= i < ord.len() implies 0 <= #[trigger] ord[i] < less.len() && keys[
    all[if i < at {
        i
    } else {
        i + 1
    }]] == less[ord[i]] by {
        let q = all[if i < at {
            i
        } else {
            i + 1
        }];
        assert(q != p);
    }
    assert forall|r: int| 0 <= r < less.len() implies #[trigger] ord.contains(r) by {
        let q = if r < p {
            r
        } else {
            r + 1
        };
        assert(all.contains(q));
        let k = choose|k: int| 0 <= k < all.len() && all[k] == q;
        assert(k != at);
        assert(ord[if k < at {
            k
        } else {
            k - 1
        }] == r);
    }
    assert forall|i: int, j: int| 0 <= i < j < ord.len() implies {
        let a = #[trigger] ord[i];
        let b = #[trigger] ord[j];
        less[a] < less[b] || (less[a] == less[b] && a < b)
    } by {
        let x = all[if i < at {
            i
        } else {
            i + 1
        }];
        let y = all[if j < at {
            j
        } else {
            j + 1
        }];
        assert(x != p && y != p);
        assert(keys[x] < keys[y] || (keys[x] == keys[y] && x < y));
        assert(0 <= ord[i] < less.len() && 0 <= ord[j] < less.len());
    }
    lemma_order_unique(less, ord, less.len());
    assert forall|i: int| 0 <= i < keys.len() - 1 implies #[trigger] stable_order(less)[i] == ({
        let q = stable_order(keys)[if i < at {
            i
        } else {
            i + 1
        }];
        if q < p {
            q
        } else {
            q - 1
        }
    }) by {
        assert(ord[i] == stable_order(less)[i]);
    }
}

} // verus!
