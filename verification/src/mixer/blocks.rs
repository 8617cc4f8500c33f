//! Moving one item, or a block of items, inside a stack.

use vstd::prelude::*;

use crate::order;

verus! {

/// `to`, or the last place of a stack of `len` items where it lies past that.
pub open spec fn last_or(to: int, len: nat) -> int {
    if to < len {
        to
    } else {
        len - 1
    }
}

/// A stack after the item at `from` was moved to `to`, shifting the rest. A place past
/// the end is the last one; an item that is not there is not moved.
pub open spec fn moved<T>(s: Seq<T>, from: int, to: int) -> Seq<T> {
    if from >= s.len() || from == to {
        s
    } else {
        s.remove(from).insert(last_or(to, s.len()), s[from])
    }
}

/// Moves the item at `from` to `to`; says whether there was anything to do.
pub(crate) fn move_item<T>(v: &mut Vec<T>, from: usize, to: usize) -> (done: bool)
    ensures
        final(v)@ == moved(old(v)@, from as int, to as int),
        done == (from < old(v)@.len() && from != to),
{
    if from >= v.len() || from == to {
        return false;
    }
    let to: usize = if to < v.len() {
        to
    } else {
        v.len() - 1
    };
    let item = v.remove(from);
    v.insert(to, item);
    true
}

/// What is left of a stack, and what was taken out of it bottom first, when the places
/// are taken from the last to the first.
pub open spec fn lifted<T>(s: Seq<T>, places: Seq<int>) -> (Seq<T>, Seq<T>)
    decreases places.len(),
{
    if places.len() == 0 {
        (s, Seq::empty())
    } else {
        let rest = lifted(s.remove(places.last()), places.drop_last());
        (rest.0, rest.1.push(s[places.last()]))
    }
}

/// Whether every place is there when its turn comes.
pub open spec fn can_lift<T>(s: Seq<T>, places: Seq<int>) -> bool
    decreases places.len(),
{
    places.len() == 0 || (0 <= places.last() < s.len() && can_lift(
        s.remove(places.last()),
        places.drop_last(),
    ))
}

/// How many of the places lie below `at`.
pub open spec fn below(places: Seq<int>, at: int) -> nat
    decreases places.len(),
{
    if places.len() == 0 {
        0
    } else {
        below(places.drop_last(), at) + (if places.last() < at {
            1nat
        } else {
            0nat
        })
    }
}

/// Where a block that was lifted from `places` goes when it is put down at `anchor`.
pub open spec fn landing(places: Seq<int>, anchor: int) -> int {
    anchor - below(places, anchor)
}

/// A stack after the items at `places` were taken out and put down in one piece where
/// `anchor` was.
pub open spec fn block_moved<T>(s: Seq<T>, places: Seq<int>, anchor: int) -> Seq<T> {
    let (rest, taken) = lifted(s, places);
    let at = landing(places, anchor);
    rest.take(at) + taken + rest.skip(at)
}

proof fn lemma_lifted_len<T>(s: Seq<T>, places: Seq<int>)
    requires
        can_lift(s, places),
    ensures
        lifted(s, places).0.len() + places.len() == s.len(),
        lifted(s, places).1.len() == places.len(),
    decreases places.len(),
{
    if places.len() > 0 {
        lemma_lifted_len(s.remove(places.last()), places.drop_last());
    }
}

proof fn lemma_below(places: Seq<int>, at: int)
    ensures
        below(places, at) <= places.len(),
    decreases places.len(),
{
    if places.len() > 0 {
        lemma_below(places.drop_last(), at);
    }
}

fn count_below(places: &Vec<usize>, at: usize) -> (n: usize)
    ensures
        n == below(order::as_positions(places@), at as int),
{
    let ghost all = order::as_positions(places@);
    let mut n: usize = 0;
    let mut i: usize = 0;
    while i < places.len()
        invariant
            i <= places.len(),
            n <= i,
            all == order::as_positions(places@),
            n == below(all.take(i as int), at as int),
        decreases places.len() - i,
    {
        assert(all.take(i + 1).drop_last() =~= all.take(i as int));
        assert(all.take(i + 1).last() == places@[i as int]);
        if places[i] < at {
            n = n + 1;
        }
        i = i + 1;
    }
    assert(all.take(i as int) =~= all);
    n
}

/// Takes the items at `places` out and puts them down in one piece where `anchor` was.
pub(crate) fn move_block<T>(v: &mut Vec<T>, places: &Vec<usize>, anchor: usize)
    requires
        can_lift(old(v)@, order::as_positions(places@)),
        0 <= landing(order::as_positions(places@), anchor as int) <= old(v)@.len()
            - places@.len(),
    ensures
        final(v)@ == block_moved(old(v)@, order::as_positions(places@), anchor as int),
{
    let ghost all = order::as_positions(places@);
    let ghost before = v@;
    let ghost (rest, block) = lifted(before, all);
    proof {
        lemma_lifted_len(before, all);
    }
    let at: usize = anchor - count_below(places, anchor);
    let mut taken: Vec<T> = Vec::new();
    let mut n: usize = places.len();
    assert(all.take(n as int) =~= all);
    while n > 0
        invariant
            n <= places.len(),
            all == order::as_positions(places@),
            can_lift(v@, all.take(n as int)),
            taken@.len() == all.len() - n,
            block.len() == all.len(),
            lifted(v@, all.take(n as int)).0 == rest,
            lifted(v@, all.take(n as int)).1 == block.take(n as int),
            forall|j: int| 0 <= j < taken@.len() ==> #[trigger] taken@[j] == block[block.len() - 1 - j],
        decreases n,
    {
        let ghost part = all.take(n as int);
        assert(part.drop_last() =~= all.take(n - 1));
        assert(part.last() == places@[n - 1] as int);
        let ghost here = v@;
        let item = v.remove(places[n - 1]);
        proof {
            let below_it = lifted(v@, all.take(n - 1));
            assert(lifted(here, part).1 == below_it.1.push(item));
            assert(block.take(n as int)[n - 1] == item);
            assert(below_it.1 =~= block.take(n - 1)) by {
                assert(below_it.1 =~= below_it.1.push(item).drop_last());
                assert(block.take(n as int).drop_last() =~= block.take(n - 1));
            }
        }
        taken.push(item);
        n = n - 1;
    }
    assert(v@ == rest);
    let mut k: usize = 0;
    assert(rest.take(at as int) + block.take(0) + rest.skip(at as int) =~= rest);
    while taken.len() > 0
        invariant
            at <= rest.len(),
            k + taken@.len() == block.len(),
            block.len() == places.len(),
            at + k <= v.len(),
            v@ == rest.take(at as int) + block.take(k as int) + rest.skip(at as int),
            forall|j: int| 0 <= j < taken@.len() ==> #[trigger] taken@[j] == block[block.len() - 1 - j],
        decreases taken.len(),
    {
        let ghost waiting = taken@;
        if let Some(item) = taken.pop() {
            assert(item == block[k as int]);
            v.insert(at + k, item);
            k = k + 1;
            assert(v@ =~= rest.take(at as int) + block.take(k as int) + rest.skip(at as int));
        }
    }
    assert(block.take(k as int) =~= block);
}

/// Whether places come in strictly increasing order and lie in a stack of `len` items.
pub open spec fn rising(places: Seq<int>, len: nat) -> bool {
    &&& forall|i: int, j: int| 0 <= i < j < places.len() ==> places[i] < places[j]
    &&& forall|i: int| 0 <= i < places.len() ==> 0 <= #[trigger] places[i] < len
}

/// The items at the places, in their order.
pub open spec fn at_places<T>(s: Seq<T>, places: Seq<int>) -> Seq<T> {
    places.map_values(|p: int| s[p])
}

/// Where an item that stays is found once the places below it were taken out.
pub open spec fn settled(places: Seq<int>, i: int) -> int {
    i - below(places, i)
}

/// What is taken out at strictly rising places is what lies there, and what stays keeps
/// its order: each item sinks by the number of places below it.
pub proof fn law_lift_rising<T>(s: Seq<T>, places: Seq<int>)
    requires
        rising(places, s.len()),
    ensures
        can_lift(s, places),
        lifted(s, places).1 == at_places(s, places),
        lifted(s, places).0.len() == s.len() - places.len(),
        forall|i: int|
            0 <= i < s.len() && !places.contains(i) ==> 0 <= #[trigger] settled(places, i) < s.len()
                - places.len() && lifted(s, places).0[settled(places, i)] == s[i],
    decreases places.len(),
{
    if places.len() == 0 {
        assert(lifted(s, places).1 =~= at_places(s, places));
    } else {
        let top = places.last();
        let low = places.drop_last();
        let less = s.remove(top);
        assert(rising(low, less.len())) by {
            assert forall|i: int| 0 <= i < low.len() implies 0 <= #[trigger] low[i] < less.len() by {
                assert(places[i] < places[places.len() - 1]);
            }
        }
        law_lift_rising(less, low);
        assert(lifted(s, places).1 =~= at_places(s, places)) by {
            assert forall|j: int| 0 <= j < low.len() implies at_places(less, low)[j] == s[places[j]] by {
                assert(places[j] < places[places.len() - 1]);
            }
        }
        assert forall|i: int| 0 <= i < s.len() && !places.contains(i) implies 0
            <= #[trigger] settled(places, i) < s.len() - places.len() && lifted(s, places).0[settled(
            places,
            i,
        )] == s[i] by {
            assert(places.contains(top));
            assert(!low.contains(i)) by {
                if low.contains(i) {
                    let j = choose|j: int| 0 <= j < low.len() && low[j] == i;
                    assert(places[j] == i);
                }
            }
            if i < top {
                assert(settled(low, i) == settled(places, i));
            } else {
                lemma_all_below(low, i - 1, top);
                lemma_all_below(low, i, top);
                assert(!low.contains(i - 1)) by {
                    if low.contains(i - 1) {
                        let j = choose|j: int| 0 <= j < low.len() && low[j] == i - 1;
                        assert(places[j] < places[places.len() - 1]);
                    }
                }
                assert(settled(low, i - 1) == settled(places, i));
            }
        }
    }
}

pub proof fn lemma_all_below(places: Seq<int>, at: int, top: int)
    requires
        forall|i: int| 0 <= i < places.len() ==> #[trigger] places[i] < top,
        top <= at,
    ensures
        below(places, at) == places.len(),
    decreases places.len(),
{
    if places.len() > 0 {
        let low = places.drop_last();
        assert forall|i: int| 0 <= i < low.len() implies #[trigger] low[i] < top by {
            assert(places[i] < top);
        }
        lemma_all_below(low, at, top);
        assert(places[places.len() - 1] < top);
    }
}

} // verus!
